//! `key = value` lines, the text form of the broker's small metadata files.
use vstd::prelude::*;

use crate::text::{
    find_first, first_index, is_white, lemma_first_index_bounds, sub_chars, trim_white,
    trim_white_chars,
};

verus! {

/// The part of a line before its first `#`.
pub open spec fn before_comment(line: Seq<char>) -> Seq<char> {
    line.subrange(0, first_index(line, '#'))
}

/// What a line holds: `None` for a blank or comment-only line or a line
/// without `=`; otherwise the trimmed text before and after the first `=`.
pub open spec fn key_value(line: Seq<char>) -> Option<(Seq<char>, Seq<char>)> {
    let t = trim_white(before_comment(line));
    let i = first_index(t, '=');
    if t.len() == 0 || i >= t.len() {
        None
    } else {
        Some((trim_white(t.subrange(0, i)), trim_white(t.subrange(i + 1, t.len() as int))))
    }
}

/// A value without the double quotes around it, if it has them.
pub open spec fn unquoted(v: Seq<char>) -> Seq<char> {
    if v.len() >= 2 && v[0] == '"' && v.last() == '"' {
        v.subrange(1, v.len() - 1)
    } else {
        v
    }
}

/// Reads the key and value of a line.
pub fn split_key_value(line: &[char]) -> (r: Option<(Vec<char>, Vec<char>)>)
    ensures
        r matches Some((k, v)) ==> key_value(line@) == Some((k@, v@)),
        r is None ==> key_value(line@) is None,
{
    let c = find_first(line, '#');
    proof {
        lemma_first_index_bounds(line@, '#');
    }
    let body = sub_chars(line, 0, c);
    let t = trim_white_chars(body.as_slice());
    if t.len() == 0 {
        return None;
    }
    let i = find_first(t.as_slice(), '=');
    if i >= t.len() {
        return None;
    }
    let before = sub_chars(t.as_slice(), 0, i);
    let after = sub_chars(t.as_slice(), i + 1, t.len());
    let k = trim_white_chars(before.as_slice());
    let v = trim_white_chars(after.as_slice());
    Some((k, v))
}

/// Removes the double quotes around a value, if it has them.
pub fn strip_quotes(v: Vec<char>) -> (r: Vec<char>)
    ensures
        r@ == unquoted(v@),
{
    if v.len() >= 2 && v[0] == '"' && v[v.len() - 1] == '"' {
        sub_chars(v.as_slice(), 1, v.len() - 1)
    } else {
        v
    }
}

/// Whether two character sequences are equal.
pub fn same_chars(a: &[char], b: &[char]) -> (r: bool)
    ensures
        r == (a@ == b@),
{
    if a.len() != b.len() {
        return false;
    }
    let mut i: usize = 0;
    while i < a.len()
        invariant
            i <= a@.len() == b@.len(),
            forall|j: int| 0 <= j < i ==> a@[j] == b@[j],
        decreases a@.len() - i,
    {
        if a[i] != b[i] {
            return false;
        }
        i = i + 1;
    }
    assert(a@ =~= b@);
    true
}

/// Text free of `#`, `=` and white space is left as it is by trimming and
/// has no `=` to split at.
pub open spec fn plain(s: Seq<char>) -> bool {
    forall|i: int| 0 <= i < s.len() ==> #[trigger] s[i] != '#' && s[i] != '=' && !is_white(s[i])
}

pub proof fn lemma_first_index_absent(s: Seq<char>, c: char)
    requires
        forall|i: int| 0 <= i < s.len() ==> #[trigger] s[i] != c,
    ensures
        first_index(s, c) == s.len(),
{
    crate::text::lemma_first_index(s, c, s.len() as int);
}

} // verus!
