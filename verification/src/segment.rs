//! Segments: the files a partition's log is split into, and their names.
use vstd::prelude::*;

use crate::model::StorageError;
use crate::paths::{file_name, file_name_of, join, join_path, lemma_file_name_of_join};
use crate::text::{
    chars_of, concat, concat3, decimal_padded, decimal_padded_chars, ends_with, has_prefix, has_suffix,
    int_error_text, is_digit, lemma_decimal_shape, lemma_parse_decimal_padded, parse_uint,
    parse_uint_text, starts_with, string_from_chars, IntErrorKind,
};

verus! {

/// One file of a partition's log: its number, path and size in bytes.
pub struct Segment {
    pub id: u64,
    pub path: String,
    pub size_bytes: u64,
}

impl Segment {
    pub fn new(id: u64, path: String, size_bytes: u64) -> (s: Self)
        ensures
            s.id == id,
            s.path@ == path@,
            s.size_bytes == size_bytes,
    {
        Segment { id, path, size_bytes }
    }

    pub fn id(&self) -> (v: u64)
        ensures
            v == self.id,
    {
        self.id
    }

    pub fn path(&self) -> (p: &str)
        ensures
            p@ == self.path@,
    {
        self.path.as_str()
    }

    pub fn size_bytes(&self) -> (v: u64)
        ensures
            v == self.size_bytes,
    {
        self.size_bytes
    }

    /// The same segment with another size.
    pub fn with_size(&self, size_bytes: u64) -> (s: Self)
        ensures
            s.id == self.id,
            s.path@ == self.path@,
            s.size_bytes == size_bytes,
    {
        Segment { id: self.id, path: self.path.clone(), size_bytes }
    }

    pub fn duplicate(&self) -> (s: Self)
        ensures
            s.id == self.id,
            s.path@ == self.path@,
            s.size_bytes == self.size_bytes,
    {
        Segment { id: self.id, path: self.path.clone(), size_bytes: self.size_bytes }
    }
}

pub open spec fn segment_prefix() -> Seq<char> {
    "segment-"@
}

/// The file name of segment `id`: `segment-`, the number padded to six
/// digits, `.log`.
pub open spec fn segment_file_name(id: u64) -> Seq<char> {
    segment_prefix() + decimal_padded(id as nat, 6) + ".log"@
}

/// Removes `p` from the front of `s` as often as it is there (std's
/// `trim_start_matches`).
pub open spec fn trim_start(s: Seq<char>, p: Seq<char>) -> Seq<char>
    decreases s.len(),
{
    if p.len() > 0 && has_prefix(s, p) {
        trim_start(s.subrange(p.len() as int, s.len() as int), p)
    } else {
        s
    }
}

/// Removes `p` from the end of `s` as often as it is there (std's
/// `trim_end_matches`).
pub open spec fn trim_end(s: Seq<char>, p: Seq<char>) -> Seq<char>
    decreases s.len(),
{
    if p.len() > 0 && has_suffix(s, p) {
        trim_end(s.subrange(0, s.len() - p.len()), p)
    } else {
        s
    }
}

/// What reading a segment path gives: `None` for a path that does not name
/// a segment file, otherwise the number its name holds, or the failure of
/// reading that number.
pub open spec fn segment_id_of(path: Seq<char>) -> Option<Result<u64, IntErrorKind>> {
    match file_name(path) {
        None => None,
        Some(name) => if !has_prefix(name, segment_prefix()) || !has_suffix(name, "log"@) {
            None
        } else {
            match parse_uint(trim_end(trim_start(name, segment_prefix()), ".log"@), u64::MAX as nat) {
                Ok(v) => Some(Ok(v as u64)),
                Err(e) => Some(Err(e)),
            }
        },
    }
}

pub fn trim_start_chars(s: Vec<char>, p: &[char]) -> (r: Vec<char>)
    ensures
        r@ == trim_start(s@, p@),
    decreases s@.len(),
{
    if p.len() > 0 && starts_with(s.as_slice(), p) {
        let mut rest: Vec<char> = Vec::new();
        let mut i: usize = p.len();
        while i < s.len()
            invariant
                p@.len() <= i <= s@.len(),
                rest@ == s@.subrange(p@.len() as int, i as int),
            decreases s@.len() - i,
        {
            rest.push(s[i]);
            i = i + 1;
            assert(rest@ =~= s@.subrange(p@.len() as int, i as int));
        }
        trim_start_chars(rest, p)
    } else {
        s
    }
}

fn trim_end_chars(s: Vec<char>, p: &[char]) -> (r: Vec<char>)
    ensures
        r@ == trim_end(s@, p@),
    decreases s@.len(),
{
    if p.len() > 0 && ends_with(s.as_slice(), p) {
        let mut rest: Vec<char> = Vec::new();
        let stop = s.len() - p.len();
        let mut i: usize = 0;
        while i < stop
            invariant
                i <= stop,
                stop == s@.len() - p@.len(),
                rest@ == s@.subrange(0, i as int),
            decreases stop - i,
        {
            rest.push(s[i]);
            i = i + 1;
            assert(rest@ =~= s@.subrange(0, i as int));
        }
        trim_end_chars(rest, p)
    } else {
        s
    }
}

/// Names the files of segments.
pub struct SegmentNamer;

impl SegmentNamer {
    /// The file name of segment `id`.
    pub fn file_name(id: u64) -> (s: String)
        ensures
            s@ == segment_file_name(id),
    {
        let digits = decimal_padded_chars(id, 6);
        let d = string_from_chars(digits.as_slice());
        concat3("segment-", d.as_str(), ".log")
    }

    /// The path of segment `id` in `directory`.
    pub fn path(directory: &str, id: u64) -> (p: String)
        ensures
            p@ == join(directory@, segment_file_name(id)),
    {
        let name = Self::file_name(id);
        join_path(directory, name.as_str())
    }

    /// The number of the segment whose file `path` is: `None` when the file
    /// name does not start with `segment-` and end with `log`, and an error
    /// when what lies between is not a `u64`.
    pub fn parse_id(path: &str) -> (r: Result<Option<u64>, StorageError>)
        ensures
            segment_id_of(path@) is None <==> r == Ok::<Option<u64>, StorageError>(None),
            segment_id_of(path@) matches Some(Ok(v)) ==> r == Ok::<Option<u64>, StorageError>(
                Some(v),
            ),
            segment_id_of(path@) matches Some(Err(k)) ==> r matches Err(e) && e.message@
                == "Invalid segment file '"@ + file_name(path@)->0 + "': "@ + int_error_text(k),
    {
        let name = match file_name_of(path) {
            Some(n) => n,
            None => return Ok(None),
        };
        let cs = chars_of(name.as_str());
        let prefix = chars_of("segment-");
        let suffix = chars_of("log");
        let ext = chars_of(".log");
        if !starts_with(cs.as_slice(), prefix.as_slice()) || !ends_with(
            cs.as_slice(),
            suffix.as_slice(),
        ) {
            return Ok(None);
        }
        let trimmed = trim_end_chars(trim_start_chars(cs, prefix.as_slice()), ext.as_slice());
        let text = string_from_chars(trimmed.as_slice());
        match parse_uint_text(text.as_str(), u64::MAX) {
            Ok(v) => Ok(Some(v)),
            Err(k) => {
                let head = concat3("Invalid segment file '", name.as_str(), "': ");
                let message = concat(head.as_str(), k.text());
                Err(StorageError { message })
            },
        }
    }
}

/// The name of segment `id`, once joined onto any directory, reads back as
/// `id`.
pub proof fn law_segment_name_roundtrip(directory: Seq<char>, id: u64)
    ensures
        segment_id_of(join(directory, segment_file_name(id))) == Some(
            Ok::<u64, IntErrorKind>(id),
        ),
{
    reveal_strlit("segment-");
    reveal_strlit(".log");
    reveal_strlit("log");
    let d = decimal_padded(id as nat, 6);
    let name = segment_file_name(id);
    lemma_padded_digits(id as nat, 6);
    assert forall|i: int| 0 <= i < name.len() implies #[trigger] name[i] != '/' by {
        if i < 8 {
        } else if i < 8 + d.len() {
            assert(name[i] == d[i - 8]);
        } else {
            assert(name[i] == ".log"@[i - 8 - d.len()]);
        }
    }
    assert(name[0] == 's');
    lemma_file_name_of_join(directory, name);
    assert(name.subrange(0, 8) =~= segment_prefix());
    assert(name.subrange(name.len() - 3, name.len() as int) =~= "log"@);
    let after = name.subrange(8, name.len() as int);
    assert(after =~= d + ".log"@);
    if has_prefix(after, segment_prefix()) {
        assert(after[0] == segment_prefix()[0]);
        assert(is_digit(d[0]));
    }
    assert(trim_start(after, segment_prefix()) == after);
    assert(trim_start(name, segment_prefix()) == after);
    assert(after.subrange(after.len() - 4, after.len() as int) =~= ".log"@);
    assert(after.subrange(0, after.len() - 4) =~= d);
    if has_suffix(d, ".log"@) {
        assert(d[d.len() - 1] == ".log"@[3]);
        assert(is_digit(d[d.len() - 1]));
    }
    assert(trim_end(d, ".log"@) == d);
    assert(trim_end(after, ".log"@) == d);
    lemma_parse_decimal_padded(id as nat, 6, u64::MAX as nat);
}

/// The file name of a segment is a plain name: not empty, without
/// separators, and starting with `s`.
pub proof fn lemma_segment_name_plain(id: u64)
    ensures
        segment_file_name(id).len() > 0,
        segment_file_name(id)[0] == 's',
        forall|i: int| 0 <= i < segment_file_name(id).len() ==> #[trigger] segment_file_name(id)[i] != '/',
{
    reveal_strlit("segment-");
    reveal_strlit(".log");
    let d = decimal_padded(id as nat, 6);
    let name = segment_file_name(id);
    lemma_padded_digits(id as nat, 6);
    assert forall|i: int| 0 <= i < name.len() implies #[trigger] name[i] != '/' by {
        if i < 8 {
        } else if i < 8 + d.len() {
            assert(name[i] == d[i - 8]);
        } else {
            assert(name[i] == ".log"@[i - 8 - d.len()]);
        }
    }
    assert(name[0] == 's');
}

proof fn lemma_padded_digits(n: nat, width: nat)
    ensures
        decimal_padded(n, width).len() >= 1,
        forall|i: int|
            0 <= i < decimal_padded(n, width).len() ==> is_digit(
                #[trigger] decimal_padded(n, width)[i],
            ),
{
    lemma_decimal_shape(n);
    let d = crate::text::decimal(n);
    if d.len() < width {
        let k = (width - d.len()) as nat;
        lemma_zeros_are_digits(k);
        let p = decimal_padded(n, width);
        assert forall|i: int| 0 <= i < p.len() implies is_digit(#[trigger] p[i]) by {
            if i < k {
                assert(p[i] == crate::text::zeros(k)[i]);
            } else {
                assert(p[i] == d[i - k]);
            }
        }
    }
}

proof fn lemma_zeros_are_digits(k: nat)
    ensures
        crate::text::zeros(k).len() == k,
        forall|i: int| 0 <= i < k ==> is_digit(#[trigger] crate::text::zeros(k)[i]),
    decreases k,
{
    if k > 0 {
        lemma_zeros_are_digits((k - 1) as nat);
        assert forall|i: int| 0 <= i < k implies is_digit(#[trigger] crate::text::zeros(k)[i]) by {
            if i < k - 1 {
                assert(crate::text::zeros(k)[i] == crate::text::zeros((k - 1) as nat)[i]);
            }
        }
    }
}

} // verus!
