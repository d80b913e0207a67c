//! Text order (by character code, as std orders strings) and sorting by a
//! text key.
use vstd::prelude::*;

verus! {

broadcast use vstd::seq_lib::group_to_multiset_ensures;

/// Whether `a` comes before `b`, character by character.
pub open spec fn text_lt(a: Seq<char>, b: Seq<char>) -> bool
    decreases a.len(),
{
    if a.len() == 0 {
        b.len() > 0
    } else if b.len() == 0 {
        false
    } else if a[0] < b[0] {
        true
    } else if a[0] > b[0] {
        false
    } else {
        text_lt(a.drop_first(), b.drop_first())
    }
}

pub open spec fn text_le(a: Seq<char>, b: Seq<char>) -> bool {
    a == b || text_lt(a, b)
}

pub proof fn lemma_text_lt_irreflexive(a: Seq<char>)
    ensures
        !text_lt(a, a),
    decreases a.len(),
{
    if a.len() > 0 {
        lemma_text_lt_irreflexive(a.drop_first());
    }
}

pub proof fn lemma_text_lt_total(a: Seq<char>, b: Seq<char>)
    ensures
        a == b || text_lt(a, b) || text_lt(b, a),
        !(text_lt(a, b) && text_lt(b, a)),
    decreases a.len(),
{
    if a.len() > 0 && b.len() > 0 {
        lemma_text_lt_total(a.drop_first(), b.drop_first());
        if a[0] == b[0] && a.drop_first() == b.drop_first() {
            assert(a =~= seq![a[0]] + a.drop_first());
            assert(b =~= seq![b[0]] + b.drop_first());
        }
    } else if a.len() == 0 && b.len() == 0 {
        assert(a =~= b);
    }
}

pub proof fn lemma_text_lt_transitive(a: Seq<char>, b: Seq<char>, c: Seq<char>)
    requires
        text_lt(a, b),
        text_lt(b, c),
    ensures
        text_lt(a, c),
    decreases a.len(),
{
    if a.len() > 0 && b.len() > 0 && c.len() > 0 {
        if a[0] == b[0] && b[0] == c[0] {
            lemma_text_lt_transitive(a.drop_first(), b.drop_first(), c.drop_first());
        }
    }
}

/// Whether `a` comes before `b`.
pub fn text_less(a: &[char], b: &[char]) -> (r: bool)
    ensures
        r == text_lt(a@, b@),
{
    let mut i: usize = 0;
    assert(a@.subrange(0, a@.len() as int) =~= a@);
    assert(b@.subrange(0, b@.len() as int) =~= b@);
    while i < a.len() && i < b.len() && a[i] == b[i]
        invariant
            i <= a@.len(),
            i <= b@.len(),
            text_lt(a@, b@) == text_lt(a@.subrange(i as int, a@.len() as int), b@.subrange(i as int, b@.len() as int)),
        decreases a@.len() - i,
    {
        let ghost sa = a@.subrange(i as int, a@.len() as int);
        let ghost sb = b@.subrange(i as int, b@.len() as int);
        assert(sa.drop_first() =~= a@.subrange(i + 1, a@.len() as int));
        assert(sb.drop_first() =~= b@.subrange(i + 1, b@.len() as int));
        i = i + 1;
    }
    proof {
        assert(a@.subrange(0, a@.len() as int) =~= a@);
        assert(b@.subrange(0, b@.len() as int) =~= b@);
    }
    if i == a.len() {
        i < b.len()
    } else if i == b.len() {
        false
    } else {
        a[i] < b[i]
    }
}

/// A value ordered by a text key.
pub trait TextKeyed {
    spec fn text_key(&self) -> Seq<char>;

    fn key_chars(&self) -> (k: Vec<char>)
        ensures
            k@ == self.text_key(),
    ;
}

/// Whether the keys of `s` are in order.
pub open spec fn keys_sorted<T: TextKeyed>(s: Seq<T>) -> bool {
    forall|i: int, j: int|
        0 <= i < j < s.len() ==> text_le(#[trigger] s[i].text_key(), #[trigger] s[j].text_key())
}

proof fn lemma_insert_multiset<T>(s: Seq<T>, k: int, x: T)
    requires
        0 <= k <= s.len(),
    ensures
        s.insert(k, x).to_multiset() =~= s.to_multiset().insert(x),
{
    let t = s.insert(k, x);
    assert(t.remove(k) =~= s);
    assert(t[k] == x);
    assert(t.to_multiset().remove(x) =~= s.to_multiset());
    assert(t.to_multiset().count(x) > 0);
}

/// `v` ordered by key; the same values.
pub fn sort_by_text_key<T: TextKeyed>(v: Vec<T>) -> (out: Vec<T>)
    ensures
        out@.to_multiset() =~= v@.to_multiset(),
        keys_sorted(out@),
{
    let mut rest = v;
    let mut out: Vec<T> = Vec::new();
    while rest.len() > 0
        invariant
            out@.to_multiset().add(rest@.to_multiset()) =~= v@.to_multiset(),
            keys_sorted(out@),
        decreases rest@.len(),
    {
        let ghost before_rest = rest@;
        let x = rest.pop().unwrap();
        proof {
            assert(before_rest =~= rest@.push(x));
        }
        let xk = x.key_chars();
        let mut k: usize = 0;
        while k < out.len() && !text_less(xk.as_slice(), out[k].key_chars().as_slice())
            invariant
                k <= out@.len(),
                xk@ == x.text_key(),
                forall|j: int| 0 <= j < k ==> !text_lt(x.text_key(), #[trigger] out@[j].text_key()),
            decreases out@.len() - k,
        {
            k = k + 1;
        }
        let ghost before_out = out@;
        out.insert(k, x);
        proof {
            lemma_insert_multiset(before_out, k as int, x);
            assert forall|i: int, j: int|
                0 <= i < j < out@.len() implies text_le(#[trigger] out@[i].text_key(), #[trigger] out@[j].text_key()) by {
                if j < k {
                    assert(out@[i] == before_out[i] && out@[j] == before_out[j]);
                } else if j == k {
                    assert(out@[i] == before_out[i]);
                    lemma_text_lt_total(x.text_key(), before_out[i].text_key());
                } else if i == k {
                    assert(out@[j] == before_out[j - 1]);
                    if j - 1 == k {
                        lemma_text_lt_total(x.text_key(), before_out[j - 1].text_key());
                    } else {
                        assert(text_lt(x.text_key(), before_out[k as int].text_key()));
                        assert(text_le(before_out[k as int].text_key(), before_out[j - 1].text_key()));
                        if before_out[k as int].text_key() != before_out[j - 1].text_key() {
                            lemma_text_lt_transitive(x.text_key(), before_out[k as int].text_key(), before_out[j - 1].text_key());
                        }
                    }
                } else if i < k {
                    assert(out@[i] == before_out[i] && out@[j] == before_out[j - 1]);
                } else {
                    assert(out@[i] == before_out[i - 1] && out@[j] == before_out[j - 1]);
                }
            }
        }
    }
    out
}

/// The keys of `s`, in order.
pub open spec fn text_keys<T: TextKeyed>(s: Seq<T>) -> Seq<Seq<char>> {
    s.map_values(|x: T| x.text_key())
}

/// Sequences that are the same as a multiset stay so under any map.
pub proof fn lemma_map_values_multiset<T, U>(a: Seq<T>, b: Seq<T>, f: spec_fn(T) -> U)
    requires
        b.to_multiset() =~= a.to_multiset(),
    ensures
        b.map_values(f).to_multiset() =~= a.map_values(f).to_multiset(),
    decreases a.len(),
{
    assert(a.to_multiset().len() == a.len());
    assert(b.to_multiset().len() == b.len());
    if a.len() == 0 {
        assert(b.len() == 0);
        assert(b.map_values(f) =~= Seq::<U>::empty());
        assert(a.map_values(f) =~= Seq::<U>::empty());
    } else {
        let x = a.last();
        assert(a =~= a.drop_last().push(x));
        assert(a.to_multiset().count(x) > 0);
        assert(b.to_multiset().count(x) > 0);
        assert(b.contains(x));
        let i = choose|i: int| 0 <= i < b.len() && b[i] == x;
        let br = b.remove(i);
        assert(br.to_multiset() =~= b.to_multiset().remove(x));
        assert(a.drop_last().to_multiset() =~= a.to_multiset().remove(x));
        lemma_map_values_multiset(a.drop_last(), br, f);
        assert(b.map_values(f).remove(i) =~= br.map_values(f));
        assert(b.map_values(f)[i] == f(x));
        assert(b.map_values(f).remove(i).to_multiset() =~= b.map_values(f).to_multiset().remove(f(x)));
        assert(b.map_values(f).to_multiset().count(f(x)) > 0);
        assert(a.map_values(f) =~= a.drop_last().map_values(f).push(f(x)));
    }
}

/// Values that are the same as a multiset have the same keys as a multiset.
pub proof fn lemma_text_keys_multiset<T: TextKeyed>(a: Seq<T>, b: Seq<T>)
    requires
        b.to_multiset() =~= a.to_multiset(),
    ensures
        text_keys(b).to_multiset() =~= text_keys(a).to_multiset(),
{
    lemma_map_values_multiset(a, b, |x: T| x.text_key());
}

} // verus!
