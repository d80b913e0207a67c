//! Paths as `/`-separated text, joined the way a Unix `PathBuf::join` joins
//! them.
use vstd::prelude::*;

use crate::text::{chars_of, string_from_chars};

verus! {

/// `name` appended to `dir`: an absolute `name` replaces `dir`, and a
/// separator is put between them unless `dir` is empty or already ends in one.
pub open spec fn join(dir: Seq<char>, name: Seq<char>) -> Seq<char> {
    if name.len() > 0 && name[0] == '/' {
        name
    } else if dir.len() == 0 || dir.last() == '/' {
        dir + name
    } else {
        dir + seq!['/'] + name
    }
}

/// Joins `name` onto `dir`.
pub fn join_path(dir: &str, name: &str) -> (p: String)
    ensures
        p@ == join(dir@, name@),
{
    let d = chars_of(dir);
    let n = chars_of(name);
    let mut out: Vec<char> = Vec::new();
    if n.len() > 0 && n[0] == '/' {
        return string_from_chars(n.as_slice());
    }
    let mut i: usize = 0;
    while i < d.len()
        invariant
            i <= d@.len(),
            out@ == d@.subrange(0, i as int),
        decreases d@.len() - i,
    {
        out.push(d[i]);
        i = i + 1;
        assert(out@ =~= d@.subrange(0, i as int));
    }
    assert(d@.subrange(0, d@.len() as int) =~= d@);
    if !(d.len() == 0 || d[d.len() - 1] == '/') {
        out.push('/');
    }
    let ghost base = out@;
    let mut j: usize = 0;
    while j < n.len()
        invariant
            j <= n@.len(),
            out@ == base + n@.subrange(0, j as int),
        decreases n@.len() - j,
    {
        out.push(n[j]);
        j = j + 1;
        assert(out@ =~= base + n@.subrange(0, j as int));
    }
    assert(n@.subrange(0, n@.len() as int) =~= n@);
    string_from_chars(out.as_slice())
}

/// Joins two names onto `dir`, one after the other.
pub fn join_path2(dir: &str, a: &str, b: &str) -> (p: String)
    ensures
        p@ == join(join(dir@, a@), b@),
{
    let first = join_path(dir, a);
    join_path(first.as_str(), b)
}

/// The position just after the last separator of `s` (0 when there is none).
pub open spec fn after_last_separator(s: Seq<char>) -> int
    decreases s.len(),
{
    if s.len() == 0 {
        0
    } else if s.last() == '/' {
        s.len() as int
    } else {
        after_last_separator(s.drop_last())
    }
}

/// The last component of a path: what follows its last separator, unless
/// that is empty, `.` or `..`.
pub open spec fn file_name(s: Seq<char>) -> Option<Seq<char>> {
    let n = s.subrange(after_last_separator(s), s.len() as int);
    if n.len() == 0 || n == seq!['.'] || n == seq!['.', '.'] {
        None
    } else {
        Some(n)
    }
}

pub proof fn lemma_after_last_separator_bounds(s: Seq<char>)
    ensures
        0 <= after_last_separator(s) <= s.len(),
        forall|i: int| after_last_separator(s) <= i < s.len() ==> #[trigger] s[i] != '/',
        after_last_separator(s) > 0 ==> s[after_last_separator(s) - 1] == '/',
    decreases s.len(),
{
    if s.len() > 0 && s.last() != '/' {
        lemma_after_last_separator_bounds(s.drop_last());
        assert forall|i: int| after_last_separator(s) <= i < s.len() implies #[trigger] s[i]
            != '/' by {
            if i < s.len() - 1 {
                assert(s[i] == s.drop_last()[i]);
            }
        }
    }
}

/// The last component of `path`, if it has one.
pub fn file_name_of(path: &str) -> (r: Option<String>)
    ensures
        r matches Some(n) ==> file_name(path@) == Some(n@),
        r is None ==> file_name(path@) is None,
{
    let cs = chars_of(path);
    let mut k: usize = cs.len();
    proof {
        assert(cs@.subrange(0, k as int) =~= cs@);
    }
    while k > 0 && cs[k - 1] != '/'
        invariant
            k <= cs@.len(),
            after_last_separator(cs@) == after_last_separator(cs@.subrange(0, k as int)),
        decreases k,
    {
        let ghost pre = cs@.subrange(0, k as int);
        assert(pre.drop_last() =~= cs@.subrange(0, k - 1));
        k = k - 1;
    }
    proof {
        let pre = cs@.subrange(0, k as int);
        if k > 0 {
            assert(pre.last() == '/');
        }
    }
    let mut name: Vec<char> = Vec::new();
    let mut i: usize = k;
    while i < cs.len()
        invariant
            k <= i <= cs@.len(),
            name@ == cs@.subrange(k as int, i as int),
        decreases cs@.len() - i,
    {
        name.push(cs[i]);
        i = i + 1;
        assert(name@ =~= cs@.subrange(k as int, i as int));
    }
    if name.len() == 0 || (name.len() == 1 && name[0] == '.') || (name.len() == 2 && name[0] == '.'
        && name[1] == '.') {
        proof {
            if name@.len() == 1 {
                assert(name@ =~= seq!['.']);
            }
            if name@.len() == 2 {
                assert(name@ =~= seq!['.', '.']);
            }
        }
        None
    } else {
        proof {
            if name@ == seq!['.'] {
                assert(name@[0] == '.');
            }
            if name@ == seq!['.', '.'] {
                assert(name@[1] == '.');
            }
        }
        Some(string_from_chars(name.as_slice()))
    }
}

/// The last component of a path joined from a directory and a plain name
/// (one without separators, and neither `.` nor `..`) is that name.
pub proof fn lemma_file_name_of_join(dir: Seq<char>, name: Seq<char>)
    requires
        name.len() > 0,
        forall|i: int| 0 <= i < name.len() ==> #[trigger] name[i] != '/',
        name != seq!['.'],
        name != seq!['.', '.'],
    ensures
        file_name(join(dir, name)) == Some(name),
{
    let j = join(dir, name);
    let prefix = j.subrange(0, j.len() - name.len());
    assert(j =~= prefix + name);
    lemma_after_last_separator_suffix(prefix, name);
    if dir.len() == 0 {
        assert(prefix.len() == 0);
    } else if dir.last() == '/' {
        assert(prefix =~= dir);
    } else {
        assert(prefix =~= dir + seq!['/']);
    }
    assert(j.subrange(after_last_separator(j), j.len() as int) =~= name);
}

proof fn lemma_after_last_separator_suffix(prefix: Seq<char>, name: Seq<char>)
    requires
        forall|i: int| 0 <= i < name.len() ==> #[trigger] name[i] != '/',
        prefix.len() == 0 || prefix.last() == '/',
    ensures
        after_last_separator(prefix + name) == prefix.len(),
    decreases name.len(),
{
    if name.len() > 0 {
        assert((prefix + name).drop_last() =~= prefix + name.drop_last());
        assert((prefix + name).last() == name.last());
        lemma_after_last_separator_suffix(prefix, name.drop_last());
    } else {
        assert(prefix + name =~= prefix);
        if prefix.len() > 0 {
            assert(prefix.last() == '/');
        }
    }
}

} // verus!
