//! Where a partition's log lives and what it holds: directory names, the
//! listing of its segment files and the records those files decode to.
use vstd::prelude::*;

use crate::filesystem::is_child;
use crate::model::{PartitionKey, RecordView, StorageError};
use crate::paths::{file_name, file_name_of, join, join_path};
use crate::record_codec::{decode_all_spec, CodecFault};
use crate::segment::{segment_file_name, segment_id_of, Segment};
use crate::text::{
    chars_of, concat, concat3, decimal_padded, decimal_padded_chars, has_prefix, int_error_text,
    parse_uint, parse_uint_text, starts_with, string_from_chars, sub_chars, valid_name, IntErrorKind,
};

verus! {

broadcast use vstd::seq_lib::group_to_multiset_ensures;

pub open spec fn partition_prefix() -> Seq<char> {
    "partition-"@
}

/// The directory name of partition `id`: `partition-` and the number padded
/// to six digits.
pub open spec fn partition_directory_name(id: u32) -> Seq<char> {
    partition_prefix() + decimal_padded(id as nat, 6)
}

/// The directory of a partition under the storage root.
pub open spec fn partition_directory_path(root: Seq<char>, p: PartitionKey) -> Seq<char> {
    join(join(root, p.0), partition_directory_name(p.1))
}

/// The directory that holds a partition's segment files.
pub open spec fn segments_directory_path(root: Seq<char>, p: PartitionKey) -> Seq<char> {
    join(partition_directory_path(root, p), "segments"@)
}

/// What reading a partition directory's path gives: `None` for a path whose
/// last component does not start with `partition-`, otherwise the number
/// that follows, or the failure of reading it as a `u32`.
pub open spec fn partition_id_of(path: Seq<char>) -> Option<Result<u32, IntErrorKind>> {
    match file_name(path) {
        None => None,
        Some(name) => if !has_prefix(name, partition_prefix()) {
            None
        } else {
            match parse_uint(
                name.subrange(partition_prefix().len() as int, name.len() as int),
                u32::MAX as nat,
            ) {
                Ok(v) => Some(Ok(v as u32)),
                Err(e) => Some(Err(e)),
            }
        },
    }
}

/// The file name of directory `path` (one `partition_id_of` reads).
pub open spec fn partition_error_message(path: Seq<char>, e: IntErrorKind) -> Seq<char> {
    "Invalid partition directory '"@ + file_name(path)->0 + "': "@ + int_error_text(e)
}

/// The directory name of partition `id`.
pub fn partition_directory_name_of(id: u32) -> (s: String)
    ensures
        s@ == partition_directory_name(id),
{
    let digits = decimal_padded_chars(id as u64, 6);
    let d = string_from_chars(digits.as_slice());
    concat("partition-", d.as_str())
}

/// The partition number a directory path names: `None` when its last
/// component does not start with `partition-`, an error when what follows
/// is not a `u32`.
pub fn parse_partition_id(path: &str) -> (r: Result<Option<u32>, StorageError>)
    ensures
        partition_id_of(path@) is None <==> r == Ok::<Option<u32>, StorageError>(None),
        partition_id_of(path@) matches Some(Ok(v)) ==> r == Ok::<Option<u32>, StorageError>(Some(v)),
        partition_id_of(path@) matches Some(Err(k)) ==> (r matches Err(e) && e.message@
            == partition_error_message(path@, k)),
{
    let name = match file_name_of(path) {
        Some(n) => n,
        None => return Ok(None),
    };
    let cs = chars_of(name.as_str());
    let prefix = chars_of("partition-");
    if !starts_with(cs.as_slice(), prefix.as_slice()) {
        return Ok(None);
    }
    let rest = sub_chars(cs.as_slice(), prefix.len(), cs.len());
    let text = string_from_chars(rest.as_slice());
    match parse_uint_text(text.as_str(), u32::MAX as u64) {
        Ok(v) => Ok(Some(v as u32)),
        Err(k) => {
            let head = concat3("Invalid partition directory '", name.as_str(), "': ");
            Err(StorageError { message: concat(head.as_str(), k.text()) })
        },
    }
}

/// A segment as plain values: number, path, size in bytes.
pub type SegmentView = (u64, Seq<char>, u64);

pub open spec fn segment_view(s: Segment) -> SegmentView {
    (s.id, s.path@, s.size_bytes)
}

pub open spec fn segment_views(s: Seq<Segment>) -> Seq<SegmentView> {
    s.map_values(|x: Segment| segment_view(x))
}

/// Whether the numbers of `segs` never decrease.
pub open spec fn ids_ordered(segs: Seq<SegmentView>) -> bool {
    forall|i: int, j: int| 0 <= i < j < segs.len() ==> #[trigger] segs[i].0 <= #[trigger] segs[j].0
}

/// `segs` lists the segment files of directory `dir`, each once, in the
/// order of their numbers: every entry of `dir` whose name reads as a
/// segment number is among them, each is a file of that number, and its
/// size is the file's length.
pub open spec fn segment_listing(
    files: Map<Seq<char>, Seq<u8>>,
    dirs: Set<Seq<char>>,
    dir: Seq<char>,
    segs: Seq<SegmentView>,
) -> bool {
    &&& forall|i: int|
        0 <= i < segs.len() ==> {
            &&& is_child(dir, #[trigger] segs[i].1)
            &&& files.contains_key(segs[i].1)
            &&& segment_id_of(segs[i].1) == Some(Ok::<u64, IntErrorKind>(segs[i].0))
            &&& segs[i].2 == files[segs[i].1].len()
        }
    &&& forall|i: int, j: int| 0 <= i < j < segs.len() ==> #[trigger] segs[i].1 != #[trigger] segs[j].1
    &&& ids_ordered(segs)
    &&& forall|e: Seq<char>|
        #[trigger] is_child(dir, e) && (files.contains_key(e) || dirs.contains(e)) && (segment_id_of(
            e,
        ) matches Some(Ok(_))) ==> exists|i: int| 0 <= i < segs.len() && #[trigger] segs[i].1 == e
}

/// The records one segment holds: none for an empty or missing file.
pub open spec fn segment_records(
    files: Map<Seq<char>, Seq<u8>>,
    s: SegmentView,
    topic: Seq<char>,
    partition_id: u32,
) -> Result<Seq<RecordView>, CodecFault> {
    if s.2 == 0 || !files.contains_key(s.1) {
        Ok(Seq::empty())
    } else {
        decode_all_spec(files[s.1], topic, partition_id)
    }
}

/// The records of the segments `segs`, one segment after the other, or the
/// fault of the first segment that cannot be read.
pub open spec fn log_of(
    files: Map<Seq<char>, Seq<u8>>,
    segs: Seq<SegmentView>,
    topic: Seq<char>,
    partition_id: u32,
) -> Result<Seq<RecordView>, CodecFault>
    decreases segs.len(),
{
    if segs.len() == 0 {
        Ok(Seq::empty())
    } else {
        match log_of(files, segs.drop_last(), topic, partition_id) {
            Err(e) => Err(e),
            Ok(a) => match segment_records(files, segs.last(), topic, partition_id) {
                Err(e) => Err(e),
                Ok(b) => Ok(a + b),
            },
        }
    }
}

/// The records from offset `o` on.
pub open spec fn at_or_after(rs: Seq<RecordView>, o: u64) -> Seq<RecordView> {
    rs.filter(|r: RecordView| r.offset >= o)
}

/// What a read of at most `max` records from offset `o` gives of a log.
pub open spec fn read_window(rs: Seq<RecordView>, o: u64, max: nat) -> Seq<RecordView> {
    let f = at_or_after(rs, o);
    if f.len() <= max {
        f
    } else {
        f.take(max as int)
    }
}

/// The offset that follows a log: 0 for an empty one, else one past its
/// last record (`None` when that does not fit in a `u64`).
pub open spec fn next_offset_after(rs: Seq<RecordView>) -> Option<u64> {
    if rs.len() == 0 {
        Some(0)
    } else if rs.last().offset == u64::MAX {
        None
    } else {
        Some((rs.last().offset + 1) as u64)
    }
}

/// The first segment of a partition that has none yet.
pub open spec fn first_segment(dir: Seq<char>) -> SegmentView {
    (1, join(dir, segment_file_name(1)), 0)
}

/// The segment a partition appends to after recovering from `segs`: the
/// last one, or the first segment when there is none.
pub open spec fn active_after(dir: Seq<char>, segs: Seq<SegmentView>) -> SegmentView {
    if segs.len() == 0 {
        first_segment(dir)
    } else {
        segs.last()
    }
}

proof fn lemma_insert_multiset<T>(s: Seq<T>, k: int, x: T)
    requires
        0 <= k <= s.len(),
    ensures
        s.insert(k, x).to_multiset() =~= s.to_multiset().insert(x),
{
    let t = s.insert(k, x);
    assert(t.remove(k) =~= s);
    assert(t[k] == x);
    assert(t.to_multiset().remove(x) =~= s.to_multiset());
    assert(t.to_multiset().count(x) > 0);
}

/// `v` ordered by segment number; of two with the same number, the one
/// that came first stays first.
pub fn sort_segments(v: Vec<Segment>) -> (out: Vec<Segment>)
    ensures
        segment_views(out@).to_multiset() =~= segment_views(v@).to_multiset(),
        ids_ordered(segment_views(out@)),
{
    let mut rest = v;
    let mut out: Vec<Segment> = Vec::new();
    let ghost whole = segment_views(v@);
    proof {
        assert(segment_views(out@) =~= Seq::<SegmentView>::empty());
    }
    while rest.len() > 0
        invariant
            segment_views(out@).to_multiset().add(segment_views(rest@).to_multiset()) =~= whole.to_multiset(),
            ids_ordered(segment_views(out@)),
        decreases rest@.len(),
    {
        let ghost before_rest = segment_views(rest@);
        let x = rest.remove(0);
        proof {
            assert(before_rest =~= seq![segment_view(x)] + segment_views(rest@));
            vstd::seq_lib::lemma_multiset_commutative(seq![segment_view(x)], segment_views(rest@));
        }
        let mut k: usize = 0;
        while k < out.len() && out[k].id <= x.id
            invariant
                k <= out@.len(),
                forall|j: int| 0 <= j < k ==> #[trigger] out@[j].id <= x.id,
            decreases out@.len() - k,
        {
            k = k + 1;
        }
        let ghost before_out = segment_views(out@);
        let ghost xv = segment_view(x);
        out.insert(k, x);
        proof {
            assert(segment_views(out@) =~= before_out.insert(k as int, xv));
            lemma_insert_multiset(before_out, k as int, xv);
            let after = segment_views(out@);
            assert forall|i: int, j: int| 0 <= i < j < after.len() implies #[trigger] after[i].0 <= #[trigger] after[j].0 by {
                if j < k {
                    assert(after[i] == before_out[i] && after[j] == before_out[j]);
                } else if j == k {
                    assert(after[i] == before_out[i]);
                    assert(out@[i].id <= x.id);
                } else if i == k {
                    assert(after[j] == before_out[j - 1]);
                    assert(before_out[k as int].0 > xv.0);
                    if j - 1 > k {
                        assert(before_out[k as int].0 <= before_out[j - 1].0);
                    }
                } else if i < k {
                    assert(after[i] == before_out[i] && after[j] == before_out[j - 1]);
                } else {
                    assert(after[i] == before_out[i - 1] && after[j] == before_out[j - 1]);
                }
            }
        }
    }
    out
}

/// Every record of a log carries the topic and partition it was read for.
pub proof fn lemma_log_partition(
    files: Map<Seq<char>, Seq<u8>>,
    segs: Seq<SegmentView>,
    topic: Seq<char>,
    partition_id: u32,
)
    ensures
        log_of(files, segs, topic, partition_id) matches Ok(all) ==> forall|i: int|
            0 <= i < all.len() ==> (#[trigger] all[i]).topic == topic && all[i].partition_id == partition_id,
    decreases segs.len(),
{
    if segs.len() > 0 {
        lemma_log_partition(files, segs.drop_last(), topic, partition_id);
        if files.contains_key(segs.last().1) {
            crate::record_codec::lemma_decoded_partition(files[segs.last().1], 0, topic, partition_id);
        }
        if let Ok(a) = log_of(files, segs.drop_last(), topic, partition_id) {
            if let Ok(b) = segment_records(files, segs.last(), topic, partition_id) {
                let all = a + b;
                assert forall|i: int| 0 <= i < all.len() implies (#[trigger] all[i]).topic == topic
                    && all[i].partition_id == partition_id by {
                    if i < a.len() {
                        assert(all[i] == a[i]);
                    } else {
                        assert(all[i] == b[i - a.len()]);
                    }
                }
            }
        }
    }
}

/// The records from an offset on keep the topic and partition of the log's
/// records, and are from that offset on.
proof fn lemma_at_or_after(rs: Seq<RecordView>, o: u64, topic: Seq<char>, partition_id: u32)
    requires
        forall|i: int| 0 <= i < rs.len() ==> (#[trigger] rs[i]).topic == topic && rs[i].partition_id == partition_id,
    ensures
        forall|i: int|
            0 <= i < at_or_after(rs, o).len() ==> (#[trigger] at_or_after(rs, o)[i]).topic == topic
                && at_or_after(rs, o)[i].partition_id == partition_id && at_or_after(rs, o)[i].offset >= o,
    decreases rs.len(),
{
    reveal(Seq::filter);
    if rs.len() > 0 {
        let d = rs.drop_last();
        assert forall|i: int| 0 <= i < d.len() implies (#[trigger] d[i]).topic == topic && d[i].partition_id == partition_id by {
            assert(d[i] == rs[i]);
        }
        lemma_at_or_after(d, o, topic, partition_id);
        assert(at_or_after(rs, o) == if rs.last().offset >= o {
            at_or_after(d, o).push(rs.last())
        } else {
            at_or_after(d, o)
        });
    }
}

/// What a read gives is at most `max` records of the log's topic and
/// partition, each from offset `o` on.
pub proof fn lemma_read_window(rs: Seq<RecordView>, o: u64, max: nat, topic: Seq<char>, partition_id: u32)
    requires
        forall|i: int| 0 <= i < rs.len() ==> (#[trigger] rs[i]).topic == topic && rs[i].partition_id == partition_id,
    ensures
        read_window(rs, o, max).len() <= max,
        forall|i: int|
            0 <= i < read_window(rs, o, max).len() ==> (#[trigger] read_window(rs, o, max)[i]).topic == topic
                && read_window(rs, o, max)[i].partition_id == partition_id && read_window(rs, o, max)[i].offset >= o,
{
    lemma_at_or_after(rs, o, topic, partition_id);
    let f = at_or_after(rs, o);
    if f.len() > max {
        assert forall|i: int| 0 <= i < read_window(rs, o, max).len() implies (#[trigger] read_window(rs, o, max)[i]).topic
            == topic && read_window(rs, o, max)[i].partition_id == partition_id && read_window(rs, o, max)[i].offset >= o by {
            assert(read_window(rs, o, max)[i] == f[i]);
        }
    }
}

/// A segment's path in a directory is a child of that directory and reads
/// back as the segment's number.
pub proof fn lemma_segment_path(dir: Seq<char>, id: u64)
    ensures
        is_child(dir, join(dir, segment_file_name(id))),
        segment_id_of(join(dir, segment_file_name(id))) == Some(Ok::<u64, IntErrorKind>(id)),
{
    crate::segment::lemma_segment_name_plain(id);
    let name = segment_file_name(id);
    assert(name != seq!['.']) by {
        if name == seq!['.'] {
            assert(name[0] == '.');
        }
    }
    assert(name != seq!['.', '.']) by {
        if name == seq!['.', '.'] {
            assert(name[0] == '.');
        }
    }
    crate::paths::lemma_file_name_of_join(dir, name);
    crate::segment::law_segment_name_roundtrip(dir, id);
}

/// The log of segments depends only on the files at their paths.
pub proof fn lemma_log_same_files(
    f1: Map<Seq<char>, Seq<u8>>,
    f2: Map<Seq<char>, Seq<u8>>,
    segs: Seq<SegmentView>,
    topic: Seq<char>,
    partition_id: u32,
)
    requires
        forall|i: int|
            0 <= i < segs.len() ==> (f1.contains_key(#[trigger] segs[i].1) == f2.contains_key(segs[i].1)) && (
            f1.contains_key(segs[i].1) ==> f1[segs[i].1] == f2[segs[i].1]),
    ensures
        log_of(f1, segs, topic, partition_id) == log_of(f2, segs, topic, partition_id),
    decreases segs.len(),
{
    if segs.len() > 0 {
        let d = segs.drop_last();
        assert forall|i: int| 0 <= i < d.len() implies (f1.contains_key(#[trigger] d[i].1) == f2.contains_key(d[i].1)) && (
            f1.contains_key(d[i].1) ==> f1[d[i].1] == f2[d[i].1]) by {
            assert(d[i] == segs[i]);
        }
        lemma_log_same_files(f1, f2, d, topic, partition_id);
        assert(segs.last() == segs[segs.len() - 1]);
    }
}

/// Reading from offset `o` a log whose records are all before `o`, with
/// one more record at `o` at its end, gives that record alone.
pub proof fn lemma_read_last(all: Seq<RecordView>, r: RecordView, n: nat)
    requires
        forall|i: int| 0 <= i < all.len() ==> (#[trigger] all[i]).offset < r.offset,
        n >= 1,
    ensures
        read_window(all.push(r), r.offset, n) == seq![r],
{
    lemma_none_after(all, r.offset);
    all.lemma_filter_push(r, |x: RecordView| x.offset >= r.offset);
    assert(at_or_after(all.push(r), r.offset) =~= seq![r]);
}

proof fn lemma_none_after(all: Seq<RecordView>, o: u64)
    requires
        forall|i: int| 0 <= i < all.len() ==> (#[trigger] all[i]).offset < o,
    ensures
        at_or_after(all, o) == Seq::<RecordView>::empty(),
    decreases all.len(),
{
    reveal(Seq::filter);
    if all.len() > 0 {
        let d = all.drop_last();
        assert forall|i: int| 0 <= i < d.len() implies (#[trigger] d[i]).offset < o by {
            assert(d[i] == all[i]);
        }
        lemma_none_after(d, o);
        assert(all.last() == all[all.len() - 1]);
    }
    assert(at_or_after(all, o) =~= Seq::<RecordView>::empty());
}

/// The directory name of partition `id`, joined onto any directory, reads
/// back as `id`.
pub proof fn law_partition_directory_roundtrip(dir: Seq<char>, id: u32)
    ensures
        partition_id_of(join(dir, partition_directory_name(id))) == Some(Ok::<u32, IntErrorKind>(id)),
{
    reveal_strlit("partition-");
    let name = partition_directory_name(id);
    let d = decimal_padded(id as nat, 6);
    crate::text::lemma_decimal_shape(id as nat);
    assert(d.len() >= 1);
    assert forall|i: int| 0 <= i < name.len() implies #[trigger] name[i] != '/' by {
        if i < 10 {
        } else {
            assert(name[i] == d[i - 10]);
            lemma_padded_char(id as nat, i - 10);
        }
    }
    assert(name[0] == 'p');
    assert(name != seq!['.']) by {
        if name == seq!['.'] {
            assert(name[0] == '.');
        }
    }
    assert(name != seq!['.', '.']) by {
        if name == seq!['.', '.'] {
            assert(name[0] == '.');
        }
    }
    crate::paths::lemma_file_name_of_join(dir, name);
    assert(name.subrange(0, 10) =~= partition_prefix());
    assert(name.subrange(10, name.len() as int) =~= d);
    crate::text::lemma_parse_decimal_padded(id as nat, 6, u32::MAX as nat);
}

proof fn lemma_padded_char(n: nat, i: int)
    requires
        0 <= i < decimal_padded(n, 6).len(),
    ensures
        decimal_padded(n, 6)[i] != '/',
{
    crate::text::lemma_decimal_shape(n);
    let d = crate::text::decimal(n);
    if d.len() < 6 {
        let k = (6 - d.len()) as nat;
        lemma_zeros_len(k);
        if i < k {
            lemma_zero_char(k, i);
            assert(decimal_padded(n, 6)[i] == crate::text::zeros(k)[i]);
        } else {
            assert(decimal_padded(n, 6)[i] == d[i - k]);
            assert(crate::text::is_digit(d[i - k]));
        }
    } else {
        assert(crate::text::is_digit(d[i]));
    }
}

proof fn lemma_zero_char(k: nat, i: int)
    requires
        0 <= i < k,
    ensures
        crate::text::zeros(k).len() == k,
        crate::text::zeros(k)[i] == '0',
    decreases k,
{
    if k > 0 {
        if i < k - 1 {
            lemma_zero_char((k - 1) as nat, i);
        }
        lemma_zeros_len(k);
    }
}

proof fn lemma_zeros_len(k: nat)
    ensures
        crate::text::zeros(k).len() == k,
    decreases k,
{
    if k > 0 {
        lemma_zeros_len((k - 1) as nat);
    }
}

/// `s` holds no `/`.
pub open spec fn slash_free(s: Seq<char>) -> bool {
    forall|i: int| 0 <= i < s.len() ==> #[trigger] s[i] != '/'
}

/// What `join` puts before a name (one that does not start with `/`)
/// joined onto `root`.
pub open spec fn joined_base(root: Seq<char>) -> Seq<char> {
    if root.len() == 0 || root.last() == '/' {
        root
    } else {
        root + seq!['/']
    }
}

/// The directory name of a partition is a plain name.
pub proof fn lemma_partition_name_plain(id: u32)
    ensures
        partition_directory_name(id).len() > 0,
        partition_directory_name(id)[0] == 'p',
        slash_free(partition_directory_name(id)),
{
    reveal_strlit("partition-");
    let name = partition_directory_name(id);
    let d = decimal_padded(id as nat, 6);
    crate::text::lemma_decimal_shape(id as nat);
    assert forall|i: int| 0 <= i < name.len() implies #[trigger] name[i] != '/' by {
        if i >= 10 {
            assert(name[i] == d[i - 10]);
            lemma_padded_char(id as nat, i - 10);
        }
    }
}

/// The segment directory of a partition with a valid topic name, spelled
/// out component by component.
pub proof fn lemma_segdir_shape(root: Seq<char>, p: PartitionKey)
    requires
        valid_name(p.0),
    ensures
        segments_directory_path(root, p) == joined_base(root) + p.0 + seq!['/'] + partition_directory_name(p.1)
            + seq!['/'] + "segments"@,
        slash_free(p.0),
        slash_free(partition_directory_name(p.1)),
        slash_free("segments"@),
        "segments"@.len() == 8,
        root.len() <= joined_base(root).len(),
{
    reveal_strlit("segments");
    lemma_partition_name_plain(p.1);
    let t = p.0;
    assert(slash_free(t)) by {
        assert forall|i: int| 0 <= i < t.len() implies #[trigger] t[i] != '/' by {
            assert(crate::text::name_char(t[i]));
        }
    }
    assert(crate::text::name_char(t[0]));
    let a = join(root, t);
    assert(a == joined_base(root) + t);
    let n = partition_directory_name(p.1);
    let b = join(a, n);
    assert(a.last() == t.last()) by {
        assert(a.last() == a[a.len() - 1]);
    }
    assert(crate::text::name_char(t[t.len() - 1]));
    assert(b == a + seq!['/'] + n);
    let c = join(b, "segments"@);
    assert(b.last() == n.last());
    assert(n[n.len() - 1] != '/');
    assert(c == b + seq!['/'] + "segments"@);
    assert(c =~= joined_base(root) + p.0 + seq!['/'] + n + seq!['/'] + "segments"@);
}

/// Two paths whose first components hold no `/`: when the second is a
/// prefix of the first, the first components agree and the rest of the
/// second is a prefix of the rest of the first.
pub proof fn lemma_first_component(a1: Seq<char>, r1: Seq<char>, a2: Seq<char>, r2: Seq<char>)
    requires
        slash_free(a1),
        slash_free(a2),
        has_prefix(a1 + seq!['/'] + r1, a2 + seq!['/'] + r2),
    ensures
        a1 == a2,
        has_prefix(r1, r2),
{
    let s1 = a1 + seq!['/'] + r1;
    let s2 = a2 + seq!['/'] + r2;
    assert forall|i: int| 0 <= i < s2.len() implies #[trigger] s1[i] == s2[i] by {
        assert(s1.subrange(0, s2.len() as int)[i] == s1[i]);
    }
    if a2.len() < a1.len() {
        assert(s2[a2.len() as int] == '/');
        assert(s1[a2.len() as int] == a1[a2.len() as int]);
    } else if a1.len() < a2.len() {
        assert(s1[a1.len() as int] == '/');
        assert(s2[a1.len() as int] == a2[a1.len() as int]);
    }
    assert(a1.len() == a2.len());
    assert forall|i: int| 0 <= i < a1.len() implies a1[i] == a2[i] by {
        assert(s1[i] == a1[i]);
        assert(s2[i] == a2[i]);
    }
    assert(a1 =~= a2);
    let k = a1.len() + 1;
    assert forall|i: int| 0 <= i < r2.len() implies r1.subrange(0, r2.len() as int)[i] == r2[i] by {
        assert(s1[k + i] == r1[i]);
        assert(s2[k + i] == r2[i]);
    }
    assert(r1.subrange(0, r2.len() as int) =~= r2);
}

} // verus!
