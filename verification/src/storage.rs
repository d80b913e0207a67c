//! The storage engine: each partition's log is a directory of segment
//! files on a filesystem, appended to one frame at a time.
use vstd::prelude::*;

use crate::filesystem::{is_child, is_under, listed, FileSystem};
use crate::model::{
    key_view, Offset, PartitionId, PartitionKey, Record, RecordKey, RecordPayload, RecordView,
    StorageError, StoredRecordMetadata, TopicName, TopicPartition,
};
use crate::partition_log::{
    joined_base, lemma_first_component, lemma_segdir_shape, partition_directory_name, slash_free,
    active_after, at_or_after, first_segment, ids_ordered, log_of, next_offset_after,
    parse_partition_id, partition_directory_name_of, partition_directory_path, partition_id_of,
    read_window, segment_listing, segment_records, segment_view, segment_views, segments_directory_path,
    sort_segments, SegmentView, lemma_segment_path, lemma_log_same_files, lemma_read_last,
};
use crate::paths::{file_name, file_name_of, join, join_path};
use crate::bytes::lemma_be128_roundtrip;
use crate::record_codec::{
    decode_all_spec, encode_fault, fault_message, record_body, record_frame, record_views, CodecFault, RecordCodec,
};
use crate::segment::{segment_file_name, segment_id_of, Segment, SegmentNamer};
use crate::text::{has_prefix, int_error_text, string_from_str, valid_name, IntErrorKind};

verus! {

broadcast use vstd::seq_lib::group_to_multiset_ensures;

/// Where the storage engine keeps its data and how large a segment may grow.
pub struct LocalStorageConfiguration {
    pub root_directory: String,
    pub segment_max_bytes: u64,
}

impl LocalStorageConfiguration {
    /// A segment size of zero is refused.
    pub fn new(root_directory: String, segment_max_bytes: u64) -> (r: Result<Self, StorageError>)
        ensures
            r is Ok <==> segment_max_bytes > 0,
            r matches Ok(c) ==> c.root_directory@ == root_directory@ && c.segment_max_bytes
                == segment_max_bytes,
            r matches Err(e) ==> e.message@ == "storage segment_max_bytes must be greater than zero"@,
    {
        if segment_max_bytes == 0 {
            return Err(
                StorageError {
                    message: string_from_str("storage segment_max_bytes must be greater than zero"),
                },
            );
        }
        Ok(LocalStorageConfiguration { root_directory, segment_max_bytes })
    }

    pub fn root_directory(&self) -> (p: &str)
        ensures
            p@ == self.root_directory@,
    {
        self.root_directory.as_str()
    }

    pub fn segment_max_bytes(&self) -> (v: u64)
        ensures
            v == self.segment_max_bytes,
    {
        self.segment_max_bytes
    }
}

/// What the engine keeps of a partition: the segment it appends to and the
/// offset the next record gets.
pub struct PartitionState {
    pub active_segment: Segment,
    pub next_offset: Offset,
}

pub open spec fn state_view(s: PartitionState) -> (SegmentView, u64) {
    (segment_view(s.active_segment), s.next_offset.value)
}

/// A partition and its state.
pub struct PartitionEntry {
    pub partition: TopicPartition,
    pub state: PartitionState,
}

/// `st` is the state a partition recovers to from the files `files` and
/// directories `dirs`: its segments are listed, its log reads cleanly, the
/// next offset follows the log and the active segment is the last one.
pub open spec fn recovered(
    files: Map<Seq<char>, Seq<u8>>,
    dirs: Set<Seq<char>>,
    root: Seq<char>,
    p: PartitionKey,
    st: (SegmentView, u64),
) -> bool {
    exists|segs: Seq<SegmentView>|
        #[trigger] segment_listing(files, dirs, segments_directory_path(root, p), segs) && (log_of(
            files,
            segs,
            p.0,
            p.1,
        ) matches Ok(all) && next_offset_after(all) == Some(st.1)) && st.0 == active_after(
            segments_directory_path(root, p),
            segs,
        )
}

/// `all` is the log of partition `p` on `files`: the records of some listing
/// of its segment directory (of none when the directory does not exist).
pub open spec fn partition_log(
    files: Map<Seq<char>, Seq<u8>>,
    dirs: Set<Seq<char>>,
    root: Seq<char>,
    p: PartitionKey,
    all: Seq<RecordView>,
) -> bool {
    exists|segs: Seq<SegmentView>|
        {
            &&& #[trigger] log_of(files, segs, p.0, p.1) == Ok::<Seq<RecordView>, CodecFault>(all)
            &&& if files.contains_key(segments_directory_path(root, p)) || dirs.contains(
                segments_directory_path(root, p),
            ) {
                segment_listing(files, dirs, segments_directory_path(root, p), segs)
            } else {
                segs.len() == 0
            }
        }
}

/// Directory `topic_directory` has a subdirectory that names partition `id`.
pub open spec fn holds_partition_directory(dirs: Set<Seq<char>>, topic_directory: Seq<char>, id: u32) -> bool {
    exists|e: Seq<char>|
        is_child(topic_directory, e) && dirs.contains(e) && #[trigger] partition_id_of(e) == Some(
            Ok::<u32, IntErrorKind>(id),
        )
}

/// Partition `q` has a directory under `root`: a topic directory named
/// after its topic holds a directory named after its number.
pub open spec fn has_partition_directory(dirs: Set<Seq<char>>, root: Seq<char>, q: PartitionKey) -> bool {
    exists|td: Seq<char>|
        is_child(root, td) && dirs.contains(td) && file_name(td) == Some(q.0)
            && #[trigger] holds_partition_directory(dirs, td, q.1)
}

/// Whether partition `q` is among `ps`.
pub open spec fn includes_partition(ps: Seq<TopicPartition>, q: PartitionKey) -> bool {
    exists|i: int| 0 <= i < ps.len() && #[trigger] ps[i]@ == q
}

/// A `u64` sum, held at the largest value.
pub open spec fn saturating(a: int, b: int) -> u64 {
    if a + b > u64::MAX {
        u64::MAX
    } else {
        (a + b) as u64
    }
}

/// The record that an append of `key` and `payload` at offset `o` and time
/// `ts` stores in partition `p`.
pub open spec fn appended_record(
    p: PartitionKey,
    o: u64,
    key: Option<Seq<u8>>,
    payload: Seq<u8>,
    ts: u128,
) -> RecordView {
    RecordView { topic: p.0, partition_id: p.1, offset: o, key, payload, timestamp_millis: ts }
}

/// Segment `seg` is read as holding no records, without reading a file:
/// it is empty, or nothing is at its path.
pub open spec fn holds_no_records(files: Map<Seq<char>, Seq<u8>>, dirs: Set<Seq<char>>, seg: Segment) -> bool {
    seg.size_bytes == 0 || !(files.contains_key(seg.path@) || dirs.contains(seg.path@))
}

/// Whether a record can be encoded does not depend on its timestamp: every
/// timestamp takes the same sixteen bytes.
proof fn lemma_fault_ignores_time(p: PartitionKey, key: Option<Seq<u8>>, payload: Seq<u8>, ts: u128)
    ensures
        forall|o: u64|
            #[trigger] encode_fault(appended_record(p, o, key, payload, ts)) == encode_fault(
                appended_record(p, o, key, payload, 0),
            ),
{
    assert forall|o: u64|
        #[trigger] encode_fault(appended_record(p, o, key, payload, ts)) == encode_fault(
            appended_record(p, o, key, payload, 0),
        ) by {
        lemma_be128_roundtrip(ts);
        lemma_be128_roundtrip(0);
        let a = appended_record(p, o, key, payload, ts);
        let b = appended_record(p, o, key, payload, 0);
        assert(record_body(a).len() == record_body(b).len());
    }
}

/// The segment after `active` when the log rotates.
pub open spec fn rotated(dir: Seq<char>, active: SegmentView) -> SegmentView {
    let id = saturating(active.0 as int, 1);
    (id, join(dir, segment_file_name(id)), 0)
}

/// Whether a frame of `n` bytes starts a new segment: the active one is not
/// empty and would grow past the limit.
pub open spec fn must_rotate(active: SegmentView, n: int, max: u64) -> bool {
    active.2 > 0 && saturating(active.2 as int, n) > max
}

/// Appending record `r` to partition `p` in state `st0` turns the files
/// `before` into `after` and the state into `st1`: the frame of `r` is
/// added at the end of the segment it goes to (a new one when the active
/// segment is full), whose size grows by the frame's length, and the next
/// offset moves one on.
pub open spec fn appended(
    before: Map<Seq<char>, Seq<u8>>,
    after: Map<Seq<char>, Seq<u8>>,
    root: Seq<char>,
    p: PartitionKey,
    st0: (SegmentView, u64),
    r: RecordView,
    max: u64,
    st1: (SegmentView, u64),
) -> bool {
    let frame = record_frame(r);
    let target = if must_rotate(st0.0, frame.len() as int, max) {
        rotated(segments_directory_path(root, p), st0.0)
    } else {
        st0.0
    };
    let old_content = if before.contains_key(target.1) {
        before[target.1]
    } else {
        Seq::empty()
    };
    &&& after == before.insert(target.1, old_content + frame)
    &&& st1 == ((target.0, target.1, saturating(target.2 as int, frame.len() as int)), (st0.1 + 1) as u64)
}

/// std's `SystemTime`, carried through without looking inside.
#[verifier::external_type_specification]
#[verifier::external_body]
pub struct ExSystemTime(std::time::SystemTime);

/// The time now (std's `SystemTime::now`). Nothing is stated of it: it is
/// the time.
#[verifier::external_body]
fn system_time_now() -> (t: std::time::SystemTime) {
    std::time::SystemTime::now()
}

/// How long after the Unix epoch `t` is (std's `SystemTime::duration_since`,
/// from `UNIX_EPOCH`), or std's error text when `t` is earlier. Nothing is
/// stated of which: it rests on the clock.
#[verifier::external_body]
fn since_unix_epoch(t: std::time::SystemTime) -> (r: Result<std::time::Duration, String>) {
    t.duration_since(std::time::UNIX_EPOCH).map_err(|e| e.to_string())
}

/// The whole milliseconds of `d` (std's `Duration::as_millis`). Nothing is
/// stated of the value: only a clock reading reaches this function.
#[verifier::external_body]
fn whole_millis(d: std::time::Duration) -> (n: u128) {
    d.as_millis()
}

/// The time now, as milliseconds since the Unix epoch; on a clock set
/// before the epoch, std's error text.
fn current_time_millis() -> (r: Result<u128, String>) {
    let now = system_time_now();
    match since_unix_epoch(now) {
        Ok(d) => Ok(whole_millis(d)),
        Err(e) => Err(e),
    }
}

/// The storage engine over a filesystem.
pub struct LocalStorageEngine<F: FileSystem> {
    pub file_system: F,
    pub configuration: LocalStorageConfiguration,
    pub partitions: Vec<PartitionEntry>,
}

impl<F: FileSystem> LocalStorageEngine<F> {
    pub open spec fn wf(&self) -> bool {
        &&& self.file_system.inv()
        &&& forall|i: int, j: int|
            0 <= i < j < self.partitions@.len() ==> #[trigger] self.partitions@[i].partition@
                != #[trigger] self.partitions@[j].partition@
    }

    pub open spec fn root(&self) -> Seq<char> {
        self.configuration.root_directory@
    }

    pub open spec fn files(&self) -> Map<Seq<char>, Seq<u8>> {
        self.file_system.files()
    }

    pub open spec fn dirs(&self) -> Set<Seq<char>> {
        self.file_system.directories()
    }

    /// Whether the engine holds the state of partition `p`.
    pub open spec fn loaded(&self, p: PartitionKey) -> bool {
        exists|i: int| 0 <= i < self.partitions@.len() && #[trigger] self.partitions@[i].partition@ == p
    }

    pub open spec fn index_of(&self, p: PartitionKey) -> int {
        choose|i: int| 0 <= i < self.partitions@.len() && #[trigger] self.partitions@[i].partition@ == p
    }

    /// The state the engine holds for partition `p`.
    pub open spec fn state_of(&self, p: PartitionKey) -> (SegmentView, u64) {
        state_view(self.partitions@[self.index_of(p)].state)
    }

    /// `st0` is the state partition `p` starts from in an operation: the one
    /// held, or one it recovers to from the files.
    pub open spec fn starting_state(&self, p: PartitionKey, st0: (SegmentView, u64)) -> bool {
        if self.loaded(p) {
            st0 == self.state_of(p)
        } else {
            exists|d: Set<Seq<char>>| #[trigger] recovered(self.files(), d, self.root(), p, st0)
        }
    }

    /// Two engines with the same partition states agree, against a third, on
    /// which other partitions keep their states.
    proof fn lemma_same_partitions(a: &Self, b: &Self, c: &Self, p: PartitionKey)
        requires
            a.partitions == b.partitions,
            b.others_same(c, p),
        ensures
            a.others_same(c, p),
            a.loaded(p) == b.loaded(p),
            a.state_of(p) == b.state_of(p),
    {
        assert forall|q: PartitionKey| q != p implies (#[trigger] a.loaded(q) == c.loaded(q) && (a.loaded(q)
            ==> a.state_of(q) == c.state_of(q))) by {
            assert(a.loaded(q) == b.loaded(q));
            assert(b.loaded(q) == c.loaded(q));
        }
    }

    /// The states of the partitions other than `p` are the same in `self` and
    /// `other`.
    pub open spec fn others_same(&self, other: &Self, p: PartitionKey) -> bool {
        forall|q: PartitionKey|
            q != p ==> (#[trigger] self.loaded(q) == other.loaded(q) && (self.loaded(q)
                ==> self.state_of(q) == other.state_of(q)))
    }

    pub fn new(file_system: F, configuration: LocalStorageConfiguration) -> (e: Self)
        requires
            file_system.inv(),
        ensures
            e.wf(),
            e.file_system == file_system,
            e.configuration == configuration,
            forall|p: PartitionKey| !e.loaded(p),
    {
        LocalStorageEngine { file_system, configuration, partitions: Vec::new() }
    }

    proof fn lemma_index_of(&self, i: int)
        requires
            self.wf(),
            0 <= i < self.partitions@.len(),
        ensures
            self.loaded(self.partitions@[i].partition@),
            self.index_of(self.partitions@[i].partition@) == i,
    {
        let p = self.partitions@[i].partition@;
        assert(self.loaded(p));
        let j = self.index_of(p);
        if j < i {
            assert(self.partitions@[j].partition@ != self.partitions@[i].partition@);
        } else if j > i {
            assert(self.partitions@[i].partition@ != self.partitions@[j].partition@);
        }
    }

    /// The directory of partition `p`.
    pub fn partition_directory(&self, p: &TopicPartition) -> (d: String)
        ensures
            d@ == partition_directory_path(self.root(), p@),
    {
        let name = partition_directory_name_of(p.partition_id.value);
        let topic_dir = join_path(self.configuration.root_directory.as_str(), p.topic.as_str());
        join_path(topic_dir.as_str(), name.as_str())
    }

    /// The directory of the segment files of partition `p`.
    pub fn segments_directory(&self, p: &TopicPartition) -> (d: String)
        ensures
            d@ == segments_directory_path(self.root(), p@),
    {
        let dir = self.partition_directory(p);
        join_path(dir.as_str(), "segments")
    }

    fn create_directory(&mut self, path: &str) -> (r: Result<(), StorageError>)
        requires
            old(self).wf(),
        ensures
            final(self).wf(),
            final(self).configuration == old(self).configuration,
            final(self).partitions == old(self).partitions,
            final(self).files() == old(self).files(),
            old(self).dirs().subset_of(final(self).dirs()),
            r is Ok ==> final(self).dirs().contains(path@),
            old(self).dirs().contains(path@) ==> final(self).dirs() == old(self).dirs(),
            forall|d: Seq<char>|
                #[trigger] final(self).dirs().contains(d) ==> old(self).dirs().contains(d) || is_under(d, path@),
    {
        match self.file_system.create_directory(path) {
            Ok(()) => Ok(()),
            Err(e) => Err(StorageError { message: e.message }),
        }
    }

    /// The segment whose file is `path`: `None` when its name is not a
    /// segment name.
    fn segment_from_path(&self, path: &str) -> (r: Result<Option<Segment>, StorageError>)
        requires
            self.wf(),
        ensures
            segment_id_of(path@) is None ==> r matches Ok(None),
            segment_id_of(path@) matches Some(Err(k)) ==> r is Err,
            r matches Ok(Some(s)) ==> segment_id_of(path@) == Some(Ok::<u64, IntErrorKind>(s.id))
                && s.path@ == path@ && self.files().contains_key(path@) && s.size_bytes
                == self.files()[path@].len(),
            r matches Ok(None) ==> segment_id_of(path@) is None,
    {
        let id = match SegmentNamer::parse_id(path) {
            Ok(Some(id)) => id,
            Ok(None) => return Ok(None),
            Err(e) => return Err(e),
        };
        let size = match self.file_system.file_size(path) {
            Ok(n) => n,
            Err(e) => return Err(StorageError { message: e.message }),
        };
        Ok(Some(Segment::new(id, string_from_str(path), size)))
    }

    /// The segments among `entries` (entries of directory `dir`), in their
    /// order.
    #[verifier::rlimit(80)]
    #[verifier::spinoff_prover]
    fn collect_segments(&self, entries: &Vec<String>, dir: &str) -> (r: Result<Vec<Segment>, StorageError>)
        requires
            self.wf(),
            forall|i: int, j: int| 0 <= i < j < entries@.len() ==> #[trigger] entries@[i]@ != #[trigger] entries@[j]@,
            forall|i: int| 0 <= i < entries@.len() ==> is_child(dir@, #[trigger] entries@[i]@),
        ensures
            r matches Ok(found) ==> {
                &&& forall|i: int, j: int|
                    0 <= i < j < found@.len() ==> #[trigger] found@[i].path@ != #[trigger] found@[j].path@
                &&& forall|i: int|
                    0 <= i < found@.len() ==> {
                        &&& is_child(dir@, (#[trigger] found@[i]).path@)
                        &&& self.files().contains_key(found@[i].path@)
                        &&& segment_id_of(found@[i].path@) == Some(Ok::<u64, IntErrorKind>(found@[i].id))
                        &&& found@[i].size_bytes == self.files()[found@[i].path@].len()
                    }
                &&& forall|j: int|
                    0 <= j < entries@.len() && (segment_id_of(#[trigger] entries@[j]@) matches Some(Ok(_))) ==> exists|i: int|
                        0 <= i < found@.len() && #[trigger] found@[i].path@ == entries@[j]@
            },
            (forall|j: int| 0 <= j < entries@.len() ==> segment_id_of(#[trigger] entries@[j]@) is None) ==> (r matches Ok(
                found,
            ) && found@.len() == 0),
            (exists|j: int| 0 <= j < entries@.len() && (segment_id_of(#[trigger] entries@[j]@) matches Some(Err(_))))
                ==> r is Err,
    {
        let mut found: Vec<Segment> = Vec::new();
        let mut k: usize = 0;
        while k < entries.len()
            invariant
                self.wf(),
                k <= entries@.len(),
                forall|i: int| 0 <= i < entries@.len() ==> is_child(dir@, #[trigger] entries@[i]@),
                forall|i: int, j: int|
                    0 <= i < j < entries@.len() ==> #[trigger] entries@[i]@ != #[trigger] entries@[j]@,
                forall|i: int|
                    0 <= i < found@.len() ==> exists|j: int|
                        0 <= j < k && #[trigger] entries@[j]@ == (#[trigger] found@[i]).path@,
                forall|i: int, j: int|
                    0 <= i < j < found@.len() ==> #[trigger] found@[i].path@ != #[trigger] found@[j].path@,
                forall|i: int|
                    0 <= i < found@.len() ==> {
                        &&& is_child(dir@, (#[trigger] found@[i]).path@)
                        &&& self.files().contains_key(found@[i].path@)
                        &&& segment_id_of(found@[i].path@) == Some(Ok::<u64, IntErrorKind>(found@[i].id))
                        &&& found@[i].size_bytes == self.files()[found@[i].path@].len()
                    },
                forall|j: int|
                    0 <= j < k && (segment_id_of(#[trigger] entries@[j]@) matches Some(Ok(_))) ==> exists|i: int|
                        0 <= i < found@.len() && #[trigger] found@[i].path@ == entries@[j]@,
                forall|j: int| 0 <= j < k ==> !(segment_id_of(#[trigger] entries@[j]@) matches Some(Err(_))),
                (forall|j: int| 0 <= j < k ==> segment_id_of(#[trigger] entries@[j]@) is None) ==> found@.len() == 0,
            decreases entries@.len() - k,
        {
            let ghost before = found@;
            match self.segment_from_path(entries[k].as_str()) {
                Ok(Some(s)) => {
                    found.push(s);
                    proof {
                        assert forall|i: int| 0 <= i < found@.len() implies exists|j: int|
                            0 <= j < k + 1 && #[trigger] entries@[j]@ == (#[trigger] found@[i]).path@ by {
                            if i < before.len() {
                                assert(found@[i] == before[i]);
                            } else {
                                assert(entries@[k as int]@ == found@[i].path@);
                            }
                        }
                        assert forall|i: int, j: int|
                            0 <= i < j < found@.len() implies #[trigger] found@[i].path@ != #[trigger] found@[j].path@ by {
                            if j < before.len() {
                                assert(found@[i] == before[i] && found@[j] == before[j]);
                            } else {
                                assert(found@[i] == before[i]);
                                let jj = choose|jj: int| 0 <= jj < k && #[trigger] entries@[jj]@ == before[i].path@;
                                assert(entries@[jj]@ != entries@[k as int]@);
                            }
                        }
                        assert forall|j: int|
                            0 <= j < k + 1 && (segment_id_of(#[trigger] entries@[j]@) matches Some(Ok(_))) implies exists|i: int|
                                0 <= i < found@.len() && #[trigger] found@[i].path@ == entries@[j]@ by {
                            if j < k {
                                let i = choose|i: int| 0 <= i < before.len() && #[trigger] before[i].path@ == entries@[j]@;
                                assert(found@[i] == before[i]);
                            } else {
                                assert(found@[before.len() as int].path@ == entries@[j]@);
                            }
                        }
                    }
                },
                Ok(None) => {},
                Err(e) => return Err(e),
            }
            k = k + 1;
        }
        Ok(found)
    }

    /// The segments of directory `dir`, in order of their numbers; none when
    /// it does not exist.
    fn load_segments(&self, dir: &str) -> (r: Result<Vec<Segment>, StorageError>)
        requires
            self.wf(),
        ensures
            r matches Ok(segs) ==> if self.files().contains_key(dir@) || self.dirs().contains(dir@) {
                segment_listing(self.files(), self.dirs(), dir@, segment_views(segs@))
            } else {
                segs@.len() == 0
            },
            !(self.files().contains_key(dir@) || self.dirs().contains(dir@)) ==> (r matches Ok(segs) && segs@.len() == 0),
    {
        if !self.file_system.path_exists(dir) {
            return Ok(Vec::new());
        }
        let entries = match self.file_system.read_directory(dir) {
            Ok(e) => e,
            Err(e) => return Err(StorageError { message: e.message }),
        };
        let ghost files = self.files();
        let ghost dirs = self.dirs();
        let found = match self.collect_segments(&entries, dir) {
            Ok(f) => f,
            Err(e) => return Err(e),
        };
        let ghost unsorted = found@;
        let sorted = sort_segments(found);
        proof {
            let sv = segment_views(sorted@);
            let uv = segment_views(unsorted);
            assert forall|i: int| 0 <= i < sv.len() implies uv.contains(#[trigger] sv[i]) by {
                assert(sv.to_multiset().count(sv[i]) > 0);
            }
            assert forall|i: int| 0 <= i < uv.len() implies sv.contains(#[trigger] uv[i]) by {
                assert(uv.to_multiset().count(uv[i]) > 0);
            }
            assert forall|i: int|
                0 <= i < sv.len() implies {
                    &&& is_child(dir@, #[trigger] sv[i].1)
                    &&& files.contains_key(sv[i].1)
                    &&& segment_id_of(sv[i].1) == Some(Ok::<u64, IntErrorKind>(sv[i].0))
                    &&& sv[i].2 == files[sv[i].1].len()
                } by {
                assert(uv.contains(sv[i]));
                let j = choose|j: int| 0 <= j < uv.len() && uv[j] == sv[i];
                assert(uv[j] == segment_view(unsorted[j]));
            }
            assert forall|i: int, j: int| 0 <= i < j < sv.len() implies #[trigger] sv[i].1 != #[trigger] sv[j].1 by {
                if sv[i].1 == sv[j].1 {
                    let a = choose|a: int| 0 <= a < uv.len() && uv[a] == sv[i];
                    let b = choose|b: int| 0 <= b < uv.len() && uv[b] == sv[j];
                    assert(uv[a] == segment_view(unsorted[a]));
                    assert(uv[b] == segment_view(unsorted[b]));
                    if a == b {
                        assert(sv[i] == sv[j]);
                        lemma_count_two(sv, i, j);
                        assert(uv.to_multiset().count(sv[i]) >= 2);
                        lemma_unique_count(uv, a);
                    } else if a < b {
                        assert(unsorted[a].path@ != unsorted[b].path@);
                    } else {
                        assert(unsorted[b].path@ != unsorted[a].path@);
                    }
                }
            }
            assert forall|e: Seq<char>|
                #[trigger] is_child(dir@, e) && (files.contains_key(e) || dirs.contains(e)) && (segment_id_of(e) matches Some(Ok(_)))
                    implies exists|i: int| 0 <= i < sv.len() && #[trigger] sv[i].1 == e by {
                assert(listed(entries@, e));
                let j = choose|j: int| 0 <= j < entries@.len() && #[trigger] entries@[j]@ == e;
                let i = choose|i: int| 0 <= i < unsorted.len() && #[trigger] unsorted[i].path@ == entries@[j]@;
                assert(uv[i] == segment_view(unsorted[i]));
                assert(sv.contains(uv[i]));
                let m = choose|m: int| 0 <= m < sv.len() && sv[m] == uv[i];
                assert(sv[m].1 == e);
            }
        }
        Ok(sorted)
    }

    /// The records segment `seg` of partition `p` holds.
    fn read_segment_records(&self, p: &TopicPartition, seg: &Segment) -> (r: Result<Vec<Record>, StorageError>)
        requires
            self.wf(),
        ensures
            r matches Ok(rs) ==> segment_records(self.files(), segment_view(*seg), p@.0, p@.1) == Ok::<
                Seq<RecordView>,
                CodecFault,
            >(record_views(rs@)),
            self.files().contains_key(seg.path@) && seg.size_bytes > 0 ==> (segment_records(
                self.files(),
                segment_view(*seg),
                p@.0,
                p@.1,
            ) is Err ==> r is Err),
            holds_no_records(self.files(), self.dirs(), *seg) ==> (r matches Ok(rs) && rs@.len() == 0),
    {
        if seg.size_bytes == 0 || !self.file_system.path_exists(seg.path.as_str()) {
            let none: Vec<Record> = Vec::new();
            proof {
                assert(record_views(none@) =~= Seq::<RecordView>::empty());
            }
            return Ok(none);
        }
        let bytes = match self.file_system.read_file(seg.path.as_str()) {
            Ok(b) => b,
            Err(e) => return Err(StorageError { message: e.message }),
        };
        RecordCodec::decode_all(bytes.as_slice(), &p.topic, p.partition_id)
    }

    /// The offset that follows the records of `segs`.
    fn next_offset_from_segments(&self, p: &TopicPartition, segs: &Vec<Segment>) -> (r: Result<Offset, StorageError>)
        requires
            self.wf(),
        ensures
            r matches Ok(o) ==> log_of(self.files(), segment_views(segs@), p@.0, p@.1) matches Ok(all)
                && next_offset_after(all) == Some(o.value),
            log_of(self.files(), segment_views(segs@), p@.0, p@.1) matches Ok(all) && next_offset_after(all) is None
                ==> r is Err,
            (forall|i: int| 0 <= i < segs@.len() ==> holds_no_records(self.files(), self.dirs(), #[trigger] segs@[i]))
                ==> (r matches Ok(o) && o.value == 0),
    {
        let ghost blank = forall|i: int| 0 <= i < segs@.len() ==> holds_no_records(self.files(), self.dirs(), #[trigger] segs@[i]);
        let mut last: Option<u64> = None;
        let mut k: usize = 0;
        let ghost views = segment_views(segs@);
        proof {
            assert(views.take(0) =~= Seq::<SegmentView>::empty());
        }
        while k < segs.len()
            invariant
                self.wf(),
                k <= segs@.len(),
                views == segment_views(segs@),
                log_of(self.files(), views.take(k as int), p@.0, p@.1) matches Ok(all) && last == (if all.len() == 0 {
                    None::<u64>
                } else {
                    Some(all.last().offset)
                }),
                blank == forall|i: int| 0 <= i < segs@.len() ==> holds_no_records(self.files(), self.dirs(), #[trigger] segs@[i]),
                blank ==> last is None,
            decreases segs@.len() - k,
        {
            let records = match self.read_segment_records(p, &segs[k]) {
                Ok(rs) => rs,
                Err(e) => return Err(e),
            };
            proof {
                assert(views.take(k + 1).drop_last() =~= views.take(k as int));
                assert(views.take(k + 1).last() == segment_view(segs@[k as int]));
            }
            if records.len() > 0 {
                last = Some(records[records.len() - 1].offset.value);
                proof {
                    let all = log_of(self.files(), views.take(k as int), p@.0, p@.1)->Ok_0;
                    let b = record_views(records@);
                    assert((all + b).last() == b.last());
                }
            } else {
                proof {
                    let all = log_of(self.files(), views.take(k as int), p@.0, p@.1)->Ok_0;
                    assert(all + record_views(records@) =~= all);
                }
            }
            k = k + 1;
        }
        proof {
            assert(views.take(segs@.len() as int) =~= views);
        }
        match last {
            None => Ok(Offset::zero()),
            Some(v) => if v == u64::MAX {
                Err(StorageError { message: string_from_str("Record offset overflow") })
            } else {
                Ok(Offset::new(v + 1))
            },
        }
    }

    /// The records of every segment of partition `p`, in order.
    fn read_partition_records(&self, p: &TopicPartition) -> (r: Result<Vec<Record>, StorageError>)
        requires
            self.wf(),
        ensures
            r matches Ok(rs) ==> partition_log(self.files(), self.dirs(), self.root(), p@, record_views(rs@)),
            !(self.files().contains_key(segments_directory_path(self.root(), p@)) || self.dirs().contains(
                segments_directory_path(self.root(), p@),
            )) ==> (r matches Ok(rs) && rs@.len() == 0),
    {
        let dir = self.segments_directory(p);
        let segs = match self.load_segments(dir.as_str()) {
            Ok(s) => s,
            Err(e) => return Err(e),
        };
        let ghost views = segment_views(segs@);
        let mut out: Vec<Record> = Vec::new();
        let mut k: usize = 0;
        proof {
            assert(views.take(0) =~= Seq::<SegmentView>::empty());
            assert(record_views(out@) =~= Seq::<RecordView>::empty());
        }
        while k < segs.len()
            invariant
                self.wf(),
                k <= segs@.len(),
                views == segment_views(segs@),
                log_of(self.files(), views.take(k as int), p@.0, p@.1) == Ok::<Seq<RecordView>, CodecFault>(
                    record_views(out@),
                ),
                !(self.files().contains_key(segments_directory_path(self.root(), p@)) || self.dirs().contains(
                    segments_directory_path(self.root(), p@),
                )) ==> segs@.len() == 0,
            decreases segs@.len() - k,
        {
            let mut records = match self.read_segment_records(p, &segs[k]) {
                Ok(rs) => rs,
                Err(e) => return Err(e),
            };
            proof {
                assert(views.take(k + 1).drop_last() =~= views.take(k as int));
                assert(views.take(k + 1).last() == segment_view(segs@[k as int]));
            }
            let ghost before = record_views(out@);
            let ghost added = record_views(records@);
            out.append(&mut records);
            proof {
                assert(record_views(out@) =~= before + added);
            }
            k = k + 1;
        }
        proof {
            assert(views.take(segs@.len() as int) =~= views);
        }
        Ok(out)
    }

    /// The state partition `p` recovers to from its segment files; its
    /// segment directory is created first.
    fn recover_partition(&mut self, p: &TopicPartition) -> (r: Result<PartitionState, StorageError>)
        requires
            old(self).wf(),
        ensures
            final(self).wf(),
            final(self).configuration == old(self).configuration,
            final(self).partitions == old(self).partitions,
            final(self).files() == old(self).files(),
            r matches Ok(st) ==> recovered(final(self).files(), final(self).dirs(), final(self).root(), p@, state_view(st)),
            old(self).dirs().subset_of(final(self).dirs()),
            old(self).dirs().contains(segments_directory_path(old(self).root(), p@)) ==> final(self).dirs() == old(self).dirs(),
            r is Ok ==> final(self).dirs().contains(segments_directory_path(old(self).root(), p@)),
            grows_on_paths(old(self).dirs(), final(self).dirs(), old(self).root()),
    {
        p.topic.lemma_valid();
        let dir = self.segments_directory(p);
        let made = self.create_directory(dir.as_str());
        proof {
            lemma_grows_toward(old(self).dirs(), self.dirs(), self.root(), p@, dir@);
        }
        match made {
            Ok(()) => {},
            Err(e) => return Err(e),
        }
        let segs = match self.load_segments(dir.as_str()) {
            Ok(s) => s,
            Err(e) => return Err(e),
        };
        let next_offset = match self.next_offset_from_segments(p, &segs) {
            Ok(o) => o,
            Err(e) => return Err(e),
        };
        let active = if segs.len() == 0 {
            Segment::new(1, SegmentNamer::path(dir.as_str(), 1), 0)
        } else {
            segs[segs.len() - 1].duplicate()
        };
        let st = PartitionState { active_segment: active, next_offset };
        proof {
            let views = segment_views(segs@);
            assert(segment_listing(self.files(), self.dirs(), segments_directory_path(self.root(), p@), views));
            if segs@.len() > 0 {
                assert(views.last() == segment_view(segs@[segs@.len() - 1]));
            }
        }
        Ok(st)
    }

    /// The position of the state of partition `p`, recovering it first if
    /// the engine does not hold it.
    fn ensure_partition_state(&mut self, p: &TopicPartition) -> (r: Result<usize, StorageError>)
        requires
            old(self).wf(),
        ensures
            final(self).wf(),
            final(self).configuration == old(self).configuration,
            final(self).files() == old(self).files(),
            old(self).loaded(p@) ==> *final(self) == *old(self) && r is Ok,
            r is Err ==> final(self).partitions == old(self).partitions,
            old(self).dirs().subset_of(final(self).dirs()),
            old(self).dirs().contains(segments_directory_path(old(self).root(), p@)) ==> final(self).dirs() == old(self).dirs(),
            r is Ok && !old(self).loaded(p@) ==> final(self).dirs().contains(segments_directory_path(old(self).root(), p@)),
            grows_on_paths(old(self).dirs(), final(self).dirs(), old(self).root()),
            r matches Ok(i) ==> {
                &&& i < final(self).partitions@.len()
                &&& final(self).loaded(p@)
                &&& final(self).index_of(p@) == i
                &&& old(self).starting_state(p@, final(self).state_of(p@))
                &&& final(self).others_same(old(self), p@)
            },
    {
        let mut k: usize = 0;
        while k < self.partitions.len()
            invariant
                self.wf(),
                k <= self.partitions@.len(),
                forall|j: int| 0 <= j < k ==> #[trigger] self.partitions@[j].partition@ != p@,
            decreases self.partitions@.len() - k,
        {
            if self.partitions[k].partition.same_as(p) {
                proof {
                    self.lemma_index_of(k as int);
                    assert(self.others_same(self, p@));
                }
                return Ok(k);
            }
            k = k + 1;
        }
        proof {
            if self.loaded(p@) {
                let j = choose|j: int| 0 <= j < self.partitions@.len() && #[trigger] self.partitions@[j].partition@ == p@;
                assert(self.partitions@[j].partition@ != p@);
            }
        }
        let ghost before = *self;
        let st = match self.recover_partition(p) {
            Ok(st) => st,
            Err(e) => return Err(e),
        };
        let ghost stv = state_view(st);
        let ghost mid_dirs = self.dirs();
        self.partitions.push(PartitionEntry { partition: p.duplicate(), state: st });
        let i = self.partitions.len() - 1;
        proof {
            let ps = self.partitions@;
            let old_ps = before.partitions@;
            assert forall|a: int, b: int| 0 <= a < b < ps.len() implies #[trigger] ps[a].partition@ != #[trigger] ps[b].partition@ by {
                if b < old_ps.len() {
                    assert(ps[a] == old_ps[a] && ps[b] == old_ps[b]);
                } else {
                    assert(ps[a] == old_ps[a]);
                }
            }
            self.lemma_index_of(i as int);
            assert(recovered(before.files(), mid_dirs, before.root(), p@, stv));
            assert(self.state_of(p@) == stv);
            assert forall|q: PartitionKey| q != p@ implies (#[trigger] self.loaded(q) == before.loaded(q) && (self.loaded(q)
                ==> self.state_of(q) == before.state_of(q))) by {
                if before.loaded(q) {
                    let j = before.index_of(q);
                    assert(ps[j] == old_ps[j]);
                    before.lemma_index_of(j);
                    self.lemma_index_of(j);
                }
                if self.loaded(q) {
                    let j = choose|j: int| 0 <= j < ps.len() && #[trigger] ps[j].partition@ == q;
                    if j < old_ps.len() {
                        assert(ps[j] == old_ps[j]);
                    }
                }
            }
        }
        Ok(i)
    }

    /// Puts state `st` at position `i`, for partition `p` held there.
    fn set_state(&mut self, i: usize, p: &TopicPartition, st: PartitionState)
        requires
            old(self).wf(),
            i < old(self).partitions@.len(),
            old(self).partitions@[i as int].partition@ == p@,
        ensures
            final(self).wf(),
            final(self).configuration == old(self).configuration,
            final(self).file_system == old(self).file_system,
            final(self).loaded(p@),
            final(self).index_of(p@) == i,
            final(self).state_of(p@) == state_view(st),
            final(self).others_same(old(self), p@),
    {
        let ghost before = *self;
        self.partitions.set(i, PartitionEntry { partition: p.duplicate(), state: st });
        proof {
            let ps = self.partitions@;
            let old_ps = before.partitions@;
            assert forall|a: int, b: int| 0 <= a < b < ps.len() implies #[trigger] ps[a].partition@ != #[trigger] ps[b].partition@ by {
                if a != i {
                    assert(ps[a] == old_ps[a]);
                }
                if b != i {
                    assert(ps[b] == old_ps[b]);
                }
            }
            self.lemma_index_of(i as int);
            assert forall|q: PartitionKey| q != p@ implies (#[trigger] self.loaded(q) == before.loaded(q) && (self.loaded(q)
                ==> self.state_of(q) == before.state_of(q))) by {
                if before.loaded(q) {
                    let j = before.index_of(q);
                    assert(j != i);
                    assert(ps[j] == old_ps[j]);
                    before.lemma_index_of(j);
                    self.lemma_index_of(j);
                }
                if self.loaded(q) {
                    let j = choose|j: int| 0 <= j < ps.len() && #[trigger] ps[j].partition@ == q;
                    assert(j != i);
                    assert(ps[j] == old_ps[j]);
                }
            }
        }
    }

    /// Starts a new, empty segment for partition `p`, numbered one past the
    /// active one.
    fn rotate_partition(&mut self, p: &TopicPartition) -> (r: Result<(), StorageError>)
        requires
            old(self).wf(),
        ensures
            final(self).wf(),
            final(self).configuration == old(self).configuration,
            final(self).files() == old(self).files(),
            old(self).dirs().subset_of(final(self).dirs()),
            old(self).dirs().contains(segments_directory_path(old(self).root(), p@)) ==> final(self).dirs() == old(self).dirs(),
            grows_on_paths(old(self).dirs(), final(self).dirs(), old(self).root()),
            r is Err ==> forall|q: PartitionKey| #[trigger] final(self).loaded(q) == old(self).loaded(q) && (old(self).loaded(q) ==> final(self).state_of(q) == old(self).state_of(q)),
            r is Ok ==> final(self).loaded(p@) && final(self).others_same(old(self), p@) && exists|st0: (SegmentView, u64)|
                #[trigger] old(self).starting_state(p@, st0) && final(self).state_of(p@) == (
                    rotated(segments_directory_path(old(self).root(), p@), st0.0),
                    st0.1,
                ),
    {
        p.topic.lemma_valid();
        let dir = self.segments_directory(p);
        let ghost before = *self;
        let made = self.create_directory(dir.as_str());
        proof {
            lemma_grows_toward(old(self).dirs(), self.dirs(), self.root(), p@, dir@);
        }
        match made {
            Ok(()) => {},
            Err(e) => return Err(e),
        }
        proof {
            assert forall|q: PartitionKey| #[trigger] self.loaded(q) == before.loaded(q) by {}
        }
        let ghost mid = *self;
        let i = match self.ensure_partition_state(p) {
            Ok(i) => i,
            Err(e) => return Err(e),
        };
        let ghost st0 = self.state_of(p@);
        let id = self.partitions[i].state.active_segment.id;
        let next_id = id.saturating_add(1);
        let next_offset = self.partitions[i].state.next_offset;
        let seg = Segment::new(next_id, SegmentNamer::path(dir.as_str(), next_id), 0);
        self.set_state(i, p, PartitionState { active_segment: seg, next_offset });
        proof {
            assert(before.starting_state(p@, st0)) by {
                if !before.loaded(p@) {
                    assert(!mid.loaded(p@));
                    let d = choose|d: Set<Seq<char>>| #[trigger] recovered(mid.files(), d, mid.root(), p@, st0);
                    assert(recovered(before.files(), d, before.root(), p@, st0));
                }
            }
            assert(self.others_same(&before, p@)) by {
                assert forall|q: PartitionKey| q != p@ implies (#[trigger] self.loaded(q) == before.loaded(q) && (self.loaded(q)
                    ==> self.state_of(q) == before.state_of(q))) by {
                    assert(mid.loaded(q) == before.loaded(q));
                }
            }
        }
        Ok(())
    }

    /// Appends a record with timestamp `timestamp_millis` to partition `p`:
    /// it gets the partition's next offset and its frame goes at the end of
    /// the active segment, or of a new one when the active segment is not
    /// empty and the frame would take it past the size limit.
    #[verifier::rlimit(40)]
    pub fn append_at(
        &mut self,
        p: &TopicPartition,
        key: Option<RecordKey>,
        payload: RecordPayload,
        timestamp_millis: u128,
    ) -> (r: Result<StoredRecordMetadata, StorageError>)
        requires
            old(self).wf(),
        ensures
            final(self).wf(),
            final(self).configuration == old(self).configuration,
            r matches Ok(m) ==> m.partition@ == p@ && final(self).loaded(p@) && final(self).others_same(old(self), p@)
                && exists|st0: (SegmentView, u64)|
                #[trigger] old(self).starting_state(p@, st0) && {
                    let rec = appended_record(p@, st0.1, key_view(key), payload.bytes@, timestamp_millis);
                    &&& m.offset.value == st0.1
                    &&& st0.1 < u64::MAX
                    &&& encode_fault(rec) is None
                    &&& appended(
                        old(self).files(),
                        final(self).files(),
                        old(self).root(),
                        p@,
                        st0,
                        rec,
                        old(self).configuration.segment_max_bytes,
                        final(self).state_of(p@),
                    )
                },
            old(self).loaded(p@) && old(self).state_of(p@).1 == u64::MAX ==> r is Err && final(self).files() == old(self).files(),
            r is Err ==> final(self).others_same(old(self), p@),
            r is Err && old(self).loaded(p@) ==> final(self).loaded(p@),
            r is Err && final(self).loaded(p@) ==> exists|st0: (SegmentView, u64)|
                #[trigger] old(self).starting_state(p@, st0) && final(self).state_of(p@).1 == st0.1,
            old(self).dirs().subset_of(final(self).dirs()),
            old(self).dirs().contains(segments_directory_path(old(self).root(), p@)) ==> final(self).dirs() == old(self).dirs(),
            grows_on_paths(old(self).dirs(), final(self).dirs(), old(self).root()),
            old(self).loaded(p@) && is_child(segments_directory_path(old(self).root(), p@), old(self).state_of(p@).0.1)
                ==> outside_same(old(self).files(), final(self).files(), segments_directory_path(old(self).root(), p@)),
            old(self).loaded(p@) && old(self).state_of(p@).1 < u64::MAX ==> (encode_fault(
                appended_record(p@, old(self).state_of(p@).1, key_view(key), payload.bytes@, timestamp_millis),
            ) matches Some(f) ==> (r matches Err(e) && e.message@ == fault_message(f) && final(self).files()
                == old(self).files())),
    {
        let ghost before = *self;
        let ghost kv = key_view(key);
        let ghost pv = payload.bytes@;
        let i = match self.ensure_partition_state(p) {
            Ok(i) => i,
            Err(e) => return Err(e),
        };
        let ghost st0 = self.state_of(p@);
        let ghost after_ensure = *self;
        let next = self.partitions[i].state.next_offset;
        if next.value == u64::MAX {
            return Err(StorageError { message: string_from_str("Record offset overflow") });
        }
        let record = Record::new(p.topic.duplicate(), p.partition_id, next, key, payload, timestamp_millis);
        let encoded = match RecordCodec::encode(&record) {
            Ok(b) => b,
            Err(e) => return Err(e),
        };
        let ghost rec = record@;
        assert(rec == appended_record(p@, st0.1, kv, pv, timestamp_millis));
        let size = encoded.len() as u64;
        let active_size = self.partitions[i].state.active_segment.size_bytes;
        let should_rotate = active_size > 0 && active_size.saturating_add(size) > self.configuration.segment_max_bytes;
        if should_rotate {
            match self.rotate_partition(p) {
                Ok(()) => {},
                Err(e) => return Err(e),
            }
        }
        let ghost after_rotate = *self;
        let j = match self.ensure_partition_state(p) {
            Ok(j) => j,
            Err(e) => return Err(e),
        };
        let path = self.partitions[j].state.active_segment.path.clone();
        let ghost target = self.state_of(p@).0;
        proof {
            if should_rotate {
                let st_r = choose|st_r: (SegmentView, u64)| #[trigger] after_ensure.starting_state(p@, st_r) && after_rotate.state_of(p@) == (
                    rotated(segments_directory_path(after_ensure.root(), p@), st_r.0),
                    st_r.1,
                );
                assert(st_r == st0);
            }
            assert(target == (if must_rotate(st0.0, encoded@.len() as int, before.configuration.segment_max_bytes) {
                rotated(segments_directory_path(before.root(), p@), st0.0)
            } else {
                st0.0
            }));
            assert(self.others_same(&before, p@)) by {
                assert forall|q: PartitionKey| q != p@ implies (#[trigger] self.loaded(q) == before.loaded(q) && (self.loaded(q)
                    ==> self.state_of(q) == before.state_of(q))) by {
                    assert(after_ensure.loaded(q) == before.loaded(q));
                    assert(after_rotate.loaded(q) == after_ensure.loaded(q));
                }
            }
            assert(self.state_of(p@).1 == st0.1);
            assert(path@ == target.1);
            if before.loaded(p@) && is_child(segments_directory_path(before.root(), p@), before.state_of(p@).0.1) {
                assert(st0 == before.state_of(p@));
                if must_rotate(st0.0, encoded@.len() as int, before.configuration.segment_max_bytes) {
                    lemma_segment_path(segments_directory_path(before.root(), p@), target.0);
                }
                assert(is_child(segments_directory_path(before.root(), p@), path@));
            }
        }
        let ghost pre_append = *self;
        match self.file_system.append_file(path.as_str(), encoded.as_slice()) {
            Ok(()) => {},
            Err(e) => {
                proof {
                    Self::lemma_same_partitions(self, &pre_append, &before, p@);
                }
                return Err(StorageError { message: e.message });
            },
        }
        let active = &self.partitions[j].state.active_segment;
        let grown = active.with_size(active.size_bytes.saturating_add(size));
        self.set_state(j, p, PartitionState { active_segment: grown, next_offset: Offset::new(next.value + 1) });
        proof {
            assert(self.others_same(&before, p@)) by {
                assert forall|q: PartitionKey| q != p@ implies (#[trigger] self.loaded(q) == before.loaded(q) && (self.loaded(q)
                    ==> self.state_of(q) == before.state_of(q))) by {
                    assert(after_ensure.loaded(q) == before.loaded(q));
                    assert(after_rotate.loaded(q) == after_ensure.loaded(q));
                }
            }
        }
        Ok(StoredRecordMetadata::new(p.duplicate(), next))
    }

    /// At most `max_records` records of partition `p` from offset `offset`
    /// on, in log order.
    pub fn read_records(&mut self, p: &TopicPartition, offset: Offset, max_records: usize) -> (r: Result<
        Vec<Record>,
        StorageError,
    >)
        requires
            old(self).wf(),
        ensures
            final(self).wf(),
            final(self).configuration == old(self).configuration,
            final(self).files() == old(self).files(),
            grows_on_paths(old(self).dirs(), final(self).dirs(), old(self).root()),
            final(self).others_same(old(self), p@),
            r is Ok ==> final(self).loaded(p@) && final(self).others_same(old(self), p@) && exists|st0: (SegmentView, u64)|
                #[trigger] old(self).starting_state(p@, st0) && final(self).state_of(p@) == st0,
            r matches Ok(rs) ==> (max_records == 0 ==> rs@.len() == 0) && (max_records > 0 ==> exists|all: Seq<RecordView>|
                #[trigger] partition_log(final(self).files(), final(self).dirs(), final(self).root(), p@, all)
                    && record_views(rs@) == read_window(all, offset.value, max_records as nat)),
            old(self).loaded(p@) && (max_records == 0 || !(old(self).files().contains_key(
                segments_directory_path(old(self).root(), p@),
            ) || old(self).dirs().contains(segments_directory_path(old(self).root(), p@)))) ==> (r matches Ok(rs)
                && rs@.len() == 0),
            old(self).loaded(p@) ==> *final(self) == *old(self),
    {
        let ghost before = *self;
        match self.ensure_partition_state(p) {
            Ok(_) => {},
            Err(e) => return Err(e),
        }
        proof {
            let st0 = self.state_of(p@);
            assert(before.starting_state(p@, st0));
        }
        if max_records == 0 {
            return Ok(Vec::new());
        }
        let mut all = match self.read_partition_records(p) {
            Ok(rs) => rs,
            Err(e) => return Err(e),
        };
        let ghost whole = record_views(all@);
        let ghost o = offset.value;
        let ghost max = max_records as nat;
        let mut out: Vec<Record> = Vec::new();
        let ghost mut seen: Seq<RecordView> = Seq::empty();
        proof {
            assert(at_or_after(seen, o) =~= Seq::<RecordView>::empty()) by {
                reveal(Seq::filter);
            }
            assert(record_views(out@) =~= read_window(seen, o, max));
            assert(seen + record_views(all@) =~= whole);
        }
        while all.len() > 0
            invariant
                seen + record_views(all@) == whole,
                record_views(out@) == read_window(seen, o, max),
                max == max_records as nat,
                max > 0,
                o == offset.value,
            decreases all@.len(),
        {
            let ghost rest0 = record_views(all@);
            let rec = all.remove(0);
            let ghost rv = rec@;
            proof {
                assert(rest0 =~= seq![rv] + record_views(all@));
                seen.lemma_filter_push(rv, |x: RecordView| x.offset >= o);
                assert(seen.push(rv) + record_views(all@) =~= seen + rest0);
            }
            let ghost out_before = record_views(out@);
            if rec.offset.value >= offset.value && out.len() < max_records {
                out.push(rec);
                proof {
                    assert(record_views(out@) =~= out_before.push(rv));
                    let f0 = at_or_after(seen, o);
                    assert(at_or_after(seen.push(rv), o) == f0.push(rv));
                    assert(f0.len() <= max);
                    assert(read_window(seen, o, max) == f0);
                }
            } else {
                proof {
                    let f0 = at_or_after(seen, o);
                    if rv.offset >= o {
                        assert(at_or_after(seen.push(rv), o) == f0.push(rv));
                        assert(out_before.len() >= max);
                        if f0.len() <= max {
                            assert(f0.len() == max);
                            assert(f0.push(rv).take(max as int) =~= f0);
                        } else {
                            assert(f0.push(rv).take(max as int) =~= f0.take(max as int));
                        }
                    } else {
                        assert(at_or_after(seen.push(rv), o) == f0);
                    }
                }
            }
            proof {
                seen = seen.push(rv);
            }
        }
        proof {
            assert(seen + record_views(all@) =~= seen);
        }
        Ok(out)
    }

    /// The partitions under topic directory `topic_directory`: one per
    /// subdirectory whose name reads as a partition number. The directory's
    /// name must be a valid topic name.
    #[verifier::spinoff_prover]
    fn discover_topic_partitions(&self, topic_directory: &str) -> (r: Result<Vec<TopicPartition>, StorageError>)
        requires
            self.wf(),
        ensures
            r matches Ok(ps) ==> {
                &&& file_name(topic_directory@) is Some
                &&& valid_name(file_name(topic_directory@)->0)
                &&& forall|i: int| 0 <= i < ps@.len() ==> (#[trigger] ps@[i])@.0 == file_name(topic_directory@)->0
                    && holds_partition_directory(self.dirs(), topic_directory@, ps@[i]@.1)
                &&& forall|id: u32|
                    #[trigger] holds_partition_directory(self.dirs(), topic_directory@, id) ==> includes_partition(ps@, (file_name(topic_directory@)->0, id))
            },
            !(file_name(topic_directory@) matches Some(n) && valid_name(n)) ==> r is Err,
    {
        let name = match file_name_of(topic_directory) {
            Some(n) => n,
            None => return Err(StorageError { message: string_from_str("Invalid topic directory name") }),
        };
        let topic = match TopicName::new(name) {
            Ok(t) => t,
            Err(e) => return Err(StorageError { message: e.message }),
        };
        let entries = match self.file_system.read_directory(topic_directory) {
            Ok(e) => e,
            Err(e) => return Err(StorageError { message: e.message }),
        };
        let ghost tn = topic@;
        let mut found: Vec<TopicPartition> = Vec::new();
        let mut k: usize = 0;
        while k < entries.len()
            invariant
                self.wf(),
                k <= entries@.len(),
                tn == topic@,
                file_name(topic_directory@) == Some(tn),
                valid_name(tn),
                forall|i: int|
                    0 <= i < entries@.len() ==> is_child(topic_directory@, #[trigger] entries@[i]@),
                forall|e: Seq<char>|
                    #[trigger] is_child(topic_directory@, e) && (self.files().contains_key(e)
                        || self.dirs().contains(e)) ==> listed(entries@, e),
                forall|i: int| 0 <= i < found@.len() ==> (#[trigger] found@[i])@.0 == tn
                    && holds_partition_directory(self.dirs(), topic_directory@, found@[i]@.1),
                forall|j: int|
                    0 <= j < k && self.dirs().contains(#[trigger] entries@[j]@) && (partition_id_of(entries@[j]@) matches Some(Ok(_)))
                        ==> exists|i: int| 0 <= i < found@.len() && Some(Ok::<u32, IntErrorKind>((#[trigger] found@[i])@.1))
                        == partition_id_of(entries@[j]@),
            decreases entries@.len() - k,
        {
            let entry = entries[k].as_str();
            if self.file_system.is_directory(entry) {
                match parse_partition_id(entry) {
                    Ok(Some(id)) => {
                        let ghost before = found@;
                        found.push(TopicPartition::new(topic.duplicate(), PartitionId::new(id)));
                        proof {
                            assert(holds_partition_directory(self.dirs(), topic_directory@, id));
                            assert forall|i: int| 0 <= i < found@.len() implies (#[trigger] found@[i])@.0 == tn
                                && holds_partition_directory(self.dirs(), topic_directory@, found@[i]@.1) by {
                                if i < before.len() {
                                    assert(found@[i] == before[i]);
                                }
                            }
                            assert forall|jj: int|
                                0 <= jj < k + 1 && self.dirs().contains(#[trigger] entries@[jj]@) && (partition_id_of(entries@[jj]@) matches Some(Ok(_)))
                                    implies exists|i: int| 0 <= i < found@.len() && Some(Ok::<u32, IntErrorKind>((#[trigger] found@[i])@.1))
                                    == partition_id_of(entries@[jj]@) by {
                                if jj < k {
                                    let i = choose|i: int| 0 <= i < before.len() && Some(Ok::<u32, IntErrorKind>((#[trigger] before[i])@.1))
                                        == partition_id_of(entries@[jj]@);
                                    assert(found@[i] == before[i]);
                                } else {
                                    assert(found@[before.len() as int]@.1 == id);
                                }
                            }
                        }
                    },
                    Ok(None) => {},
                    Err(e) => return Err(e),
                }
            }
            k = k + 1;
        }
        proof {
            assert forall|id: u32|
                #[trigger] holds_partition_directory(self.dirs(), topic_directory@, id) implies includes_partition(found@, (file_name(topic_directory@)->0, id)) by {
                let e = choose|e: Seq<char>| is_child(topic_directory@, e) && self.dirs().contains(e)
                    && #[trigger] partition_id_of(e) == Some(Ok::<u32, IntErrorKind>(id));
                assert(is_child(topic_directory@, e));
                assert(listed(entries@, e));
                let j = choose|j: int| 0 <= j < entries@.len() && #[trigger] entries@[j]@ == e;
                let i = choose|i: int| 0 <= i < found@.len() && Some(Ok::<u32, IntErrorKind>((#[trigger] found@[i])@.1))
                    == partition_id_of(entries@[j]@);
                assert(found@[i]@ == (tn, id));
                assert(includes_partition(found@, (tn, id)));
            }
        }
        Ok(found)
    }

    /// The partitions stored under the root directory: those of every topic
    /// directory, in the order the directories are listed.
    #[verifier::spinoff_prover]
    fn discover_partitions(&self) -> (r: Result<Vec<TopicPartition>, StorageError>)
        requires
            self.wf(),
        ensures
            r matches Ok(ps) ==> forall|q: PartitionKey|
                #[trigger] has_partition_directory(self.dirs(), self.root(), q) && (self.files().contains_key(self.root())
                    || self.dirs().contains(self.root())) ==> includes_partition(ps@, q),
            !(self.files().contains_key(self.root()) || self.dirs().contains(self.root())) ==> (r matches Ok(ps)
                && ps@.len() == 0),
    {
        let mut found: Vec<TopicPartition> = Vec::new();
        let root = self.configuration.root_directory.as_str();
        if !self.file_system.path_exists(root) {
            return Ok(found);
        }
        let entries = match self.file_system.read_directory(root) {
            Ok(e) => e,
            Err(e) => return Err(StorageError { message: e.message }),
        };
        let mut k: usize = 0;
        while k < entries.len()
            invariant
                self.wf(),
                root@ == self.root(),
                self.files().contains_key(self.root()) || self.dirs().contains(self.root()),
                k <= entries@.len(),
                forall|e: Seq<char>|
                    #[trigger] is_child(self.root(), e) && (self.files().contains_key(e)
                        || self.dirs().contains(e)) ==> listed(entries@, e),
                forall|j: int, q: PartitionKey|
                    0 <= j < k && self.dirs().contains(#[trigger] entries@[j]@) && file_name(entries@[j]@) == Some(q.0)
                        && #[trigger] holds_partition_directory(self.dirs(), entries@[j]@, q.1) ==> includes_partition(found@, q),
            decreases entries@.len() - k,
        {
            let entry = entries[k].as_str();
            if self.file_system.is_directory(entry) {
                let mut more = match self.discover_topic_partitions(entry) {
                    Ok(ps) => ps,
                    Err(e) => return Err(e),
                };
                let ghost before = found@;
                let ghost added = more@;
                found.append(&mut more);
                proof {
                    assert(found@ =~= before + added);
                    assert forall|j: int, q: PartitionKey|
                        0 <= j < k + 1 && self.dirs().contains(#[trigger] entries@[j]@) && file_name(entries@[j]@) == Some(q.0)
                            && #[trigger] holds_partition_directory(self.dirs(), entries@[j]@, q.1) implies includes_partition(found@, q) by {
                        if j < k {
                            let i = choose|i: int| 0 <= i < before.len() && #[trigger] before[i]@ == q;
                            assert(found@[i] == before[i]);
                        } else {
                            let i = choose|i: int| 0 <= i < added.len() && #[trigger] added[i]@ == (file_name(entries@[j]@)->0, q.1);
                            assert(found@[before.len() + i] == added[i]);
                        }
                    }
                }
            }
            k = k + 1;
        }
        proof {
            assert forall|q: PartitionKey|
                #[trigger] has_partition_directory(self.dirs(), self.root(), q) && (self.files().contains_key(self.root())
                    || self.dirs().contains(self.root())) implies includes_partition(found@, q) by {
                let td = choose|td: Seq<char>| is_child(self.root(), td) && self.dirs().contains(td) && file_name(td) == Some(q.0)
                    && #[trigger] holds_partition_directory(self.dirs(), td, q.1);
                assert(is_child(self.root(), td));
                assert(listed(entries@, td));
                let j = choose|j: int| 0 <= j < entries@.len() && #[trigger] entries@[j]@ == td;
                assert(holds_partition_directory(self.dirs(), entries@[j]@, q.1));
            }
        }
        Ok(found)
    }

    /// Holds state `st` for partition `p`, in place of the one it held.
    fn put_state(&mut self, p: &TopicPartition, st: PartitionState)
        requires
            old(self).wf(),
        ensures
            final(self).wf(),
            final(self).configuration == old(self).configuration,
            final(self).file_system == old(self).file_system,
            final(self).loaded(p@),
            final(self).state_of(p@) == state_view(st),
            final(self).others_same(old(self), p@),
    {
        let mut k: usize = 0;
        while k < self.partitions.len()
            invariant
                self.wf(),
                *self == *old(self),
                k <= self.partitions@.len(),
                forall|j: int| 0 <= j < k ==> #[trigger] self.partitions@[j].partition@ != p@,
            decreases self.partitions@.len() - k,
        {
            if self.partitions[k].partition.same_as(p) {
                self.set_state(k, p, st);
                return;
            }
            k = k + 1;
        }
        let ghost before = *self;
        self.partitions.push(PartitionEntry { partition: p.duplicate(), state: st });
        proof {
            let ps = self.partitions@;
            let old_ps = before.partitions@;
            let i = old_ps.len() as int;
            assert forall|a: int, b: int| 0 <= a < b < ps.len() implies #[trigger] ps[a].partition@ != #[trigger] ps[b].partition@ by {
                if b < old_ps.len() {
                    assert(ps[a] == old_ps[a] && ps[b] == old_ps[b]);
                } else {
                    assert(ps[a] == old_ps[a]);
                }
            }
            self.lemma_index_of(i);
            assert forall|q: PartitionKey| q != p@ implies (#[trigger] self.loaded(q) == before.loaded(q) && (self.loaded(q)
                ==> self.state_of(q) == before.state_of(q))) by {
                if before.loaded(q) {
                    let j = before.index_of(q);
                    assert(ps[j] == old_ps[j]);
                    before.lemma_index_of(j);
                    self.lemma_index_of(j);
                }
                if self.loaded(q) {
                    let j = choose|j: int| 0 <= j < ps.len() && #[trigger] ps[j].partition@ == q;
                    if j < old_ps.len() {
                        assert(ps[j] == old_ps[j]);
                    }
                }
            }
        }
    }

    /// Makes sure the engine holds the state of partition `p`.
    pub fn flush_partition(&mut self, p: &TopicPartition) -> (r: Result<(), StorageError>)
        requires
            old(self).wf(),
        ensures
            final(self).wf(),
            final(self).configuration == old(self).configuration,
            final(self).files() == old(self).files(),
            old(self).loaded(p@) ==> *final(self) == *old(self) && r is Ok,
            r is Err ==> final(self).partitions == old(self).partitions,
            grows_on_paths(old(self).dirs(), final(self).dirs(), old(self).root()),
            r is Ok && !old(self).loaded(p@) ==> final(self).dirs().contains(segments_directory_path(old(self).root(), p@)),
            r is Ok ==> final(self).loaded(p@) && final(self).others_same(old(self), p@) && exists|st0: (SegmentView, u64)|
                #[trigger] old(self).starting_state(p@, st0) && final(self).state_of(p@) == st0,
    {
        match self.ensure_partition_state(p) {
            Ok(_) => Ok(()),
            Err(e) => Err(e),
        }
    }

    /// Recovers every partition that has a directory under the root
    /// directory, which is created first.
    #[verifier::spinoff_prover]
    pub fn recover_partitions(&mut self) -> (r: Result<(), StorageError>)
        requires
            old(self).wf(),
        ensures
            final(self).wf(),
            final(self).configuration == old(self).configuration,
            final(self).files() == old(self).files(),
            r is Ok ==> forall|q: PartitionKey|
                #[trigger] has_partition_directory(old(self).dirs(), old(self).root(), q) ==> final(self).loaded(q)
                    && exists|d: Set<Seq<char>>| #[trigger] recovered(final(self).files(), d, final(self).root(), q, final(self).state_of(q)),
            grows_on_paths(old(self).dirs(), final(self).dirs(), old(self).root()),
    {
        let ghost before = *self;
        let root = string_from_str(self.configuration.root_directory.as_str());
        let made = self.create_directory(root.as_str());
        proof {
            assert forall|d: Seq<char>| #[trigger] self.dirs().contains(d) implies before.dirs().contains(d) || made_for(
                before.root(),
                d,
            ) by {}
        }
        match made {
            Ok(()) => {},
            Err(e) => return Err(e),
        }
        let ps = match self.discover_partitions() {
            Ok(ps) => ps,
            Err(e) => return Err(e),
        };
        proof {
            assert forall|q: PartitionKey| #[trigger] has_partition_directory(before.dirs(), before.root(), q) implies has_partition_directory(
                self.dirs(),
                self.root(),
                q,
            ) by {
                let td = choose|td: Seq<char>| is_child(before.root(), td) && before.dirs().contains(td) && file_name(td) == Some(q.0)
                    && #[trigger] holds_partition_directory(before.dirs(), td, q.1);
                let e = choose|e: Seq<char>| is_child(td, e) && before.dirs().contains(e) && #[trigger] partition_id_of(e) == Some(
                    Ok::<u32, IntErrorKind>(q.1),
                );
                assert(holds_partition_directory(self.dirs(), td, q.1));
            }
        }
        let ghost files = self.files();
        let ghost root_v = self.root();
        let mut k: usize = 0;
        while k < ps.len()
            invariant
                self.wf(),
                self.files() == files,
                files == before.files(),
                before == *old(self),
                self.root() == root_v,
                self.configuration == before.configuration,
                grows_on_paths(before.dirs(), self.dirs(), before.root()),
                k <= ps@.len(),
                forall|i: int| 0 <= i < k ==> self.loaded(#[trigger] ps@[i]@) && exists|d: Set<Seq<char>>|
                    #[trigger] recovered(files, d, root_v, ps@[i]@, self.state_of(ps@[i]@)),
            decreases ps@.len() - k,
        {
            let ghost mid = *self;
            let st = match self.recover_partition(&ps[k]) {
                Ok(st) => st,
                Err(e) => return Err(e),
            };
            let ghost d = self.dirs();
            let ghost mid2 = *self;
            self.put_state(&ps[k], st);
            proof {
                assert(mid2.partitions == mid.partitions);
                assert(forall|q: PartitionKey| #[trigger] mid2.loaded(q) == mid.loaded(q));
                assert(forall|q: PartitionKey| #[trigger] mid2.state_of(q) == mid.state_of(q));
                assert(recovered(files, d, root_v, ps@[k as int]@, self.state_of(ps@[k as int]@)));
                assert forall|i: int| 0 <= i < k + 1 implies self.loaded(#[trigger] ps@[i]@) && exists|d: Set<Seq<char>>|
                    #[trigger] recovered(files, d, root_v, ps@[i]@, self.state_of(ps@[i]@)) by {
                    if i < k && ps@[i]@ != ps@[k as int]@ {
                        let q = ps@[i]@;
                        assert(mid.loaded(q));
                        assert(self.others_same(&mid2, ps@[k as int]@));
                        assert(self.loaded(q) == mid2.loaded(q));
                        assert(self.state_of(q) == mid2.state_of(q));
                        assert(self.state_of(q) == mid.state_of(q));
                    }
                }
            }
            k = k + 1;
        }
        proof {
            assert forall|q: PartitionKey|
                #[trigger] has_partition_directory(before.dirs(), before.root(), q) implies self.loaded(q)
                    && exists|d: Set<Seq<char>>| #[trigger] recovered(self.files(), d, self.root(), q, self.state_of(q)) by {
                assert(has_partition_directory(before.dirs(), before.root(), q));
                let i = choose|i: int| 0 <= i < ps@.len() && #[trigger] ps@[i]@ == q;
                assert(self.loaded(ps@[i]@));
            }
        }
        Ok(())
    }
}

/// `all` ends with `rec`, and every record before it has a smaller offset.
pub open spec fn ends_with_record(all: Seq<RecordView>, rec: RecordView) -> bool {
    &&& all.len() > 0
    &&& all.last() == rec
    &&& forall|k: int| 0 <= k < all.len() - 1 ==> (#[trigger] all[k]).offset < rec.offset
}

/// `f` ends with the bytes `b`.
pub open spec fn ends_with_bytes(f: Seq<u8>, b: Seq<u8>) -> bool {
    f.len() >= b.len() && f.subrange(f.len() - b.len(), f.len() as int) == b
}

/// The frame that `append` writes ends the file it goes to.
proof fn lemma_written_last(
    files0: Map<Seq<char>, Seq<u8>>,
    files1: Map<Seq<char>, Seq<u8>>,
    root: Seq<char>,
    p: PartitionKey,
    st0: (SegmentView, u64),
    rec: RecordView,
    max: u64,
    st1: (SegmentView, u64),
)
    requires
        appended(files0, files1, root, p, st0, rec, max, st1),
    ensures
        files1.contains_key(st1.0.1),
        ends_with_bytes(files1[st1.0.1], record_frame(rec)),
{
    let frame = record_frame(rec);
    let target = if must_rotate(st0.0, frame.len() as int, max) {
        rotated(segments_directory_path(root, p), st0.0)
    } else {
        st0.0
    };
    let old_content = if files0.contains_key(target.1) {
        files0[target.1]
    } else {
        Seq::<u8>::empty()
    };
    let c = old_content + frame;
    assert(c.subrange(c.len() - frame.len(), c.len() as int) =~= frame);
}

/// Appending to a partition whose state agrees with its files, with room in
/// the active segment for the largest frame, gives a log (in any listing of
/// the segment directory) that ends with the appended record.
proof fn lemma_tracked_append(
    files0: Map<Seq<char>, Seq<u8>>,
    dirs0: Set<Seq<char>>,
    files1: Map<Seq<char>, Seq<u8>>,
    dirs1: Set<Seq<char>>,
    root: Seq<char>,
    p: PartitionKey,
    st0: (SegmentView, u64),
    rec: RecordView,
    max: u64,
    st1: (SegmentView, u64),
)
    requires
        consistent(files0, dirs0, root, p, st0),
        st0.0.2 + u32::MAX + 4 <= usize::MAX,
        dirs0.subset_of(dirs1),
        appended(files0, files1, root, p, st0, rec, max, st1),
        rec.topic == p.0,
        rec.partition_id == p.1,
        rec.offset == st0.1,
        encode_fault(rec) is None,
        rec.timestamp_millis <= u64::MAX,
    ensures
        forall|all1: Seq<RecordView>| #[trigger] partition_log(files1, dirs1, root, p, all1) ==> ends_with_record(all1, rec),
        files1[st1.0.1].len() <= usize::MAX,
{
    let dir = segments_directory_path(root, p);
    let a = st0.0;
    let frame = record_frame(rec);
    let body = crate::record_codec::record_body(rec);
    crate::bytes::lemma_be32_roundtrip(body.len() as u32);
    assert(frame.len() == 4 + body.len());
    let rot = must_rotate(a, frame.len() as int, max);
    let target = if rot {
        rotated(dir, a)
    } else {
        a
    };
    let old_content = if files0.contains_key(target.1) {
        files0[target.1]
    } else {
        Seq::<u8>::empty()
    };
    assert(files1 == files0.insert(target.1, old_content + frame));
    if rot {
        lemma_segment_path(dir, a.0);
        lemma_segment_path(dir, target.0);
        assert(target.0 == a.0 + 1);
        assert(target.1 != a.1);
        assert(!files0.contains_key(target.1)) by {
            if files0.contains_key(target.1) {
                assert(is_child(dir, target.1));
            }
        }
    }
    assert(files1[st1.0.1].len() <= usize::MAX);
    assert forall|all1: Seq<RecordView>| #[trigger] partition_log(files1, dirs1, root, p, all1) implies ends_with_record(all1, rec) by {
        let segs = choose|segs: Seq<SegmentView>|
            {
                &&& #[trigger] log_of(files1, segs, p.0, p.1) == Ok::<Seq<RecordView>, CodecFault>(all1)
                &&& if files1.contains_key(dir) || dirs1.contains(dir) {
                    segment_listing(files1, dirs1, dir, segs)
                } else {
                    segs.len() == 0
                }
            };
        assert(dirs1.contains(dir));
        lemma_log_after_append(files0, dirs0, files1, dirs1, root, p, st0, rec, max, st1, segs);
        let all0 = choose|all0: Seq<RecordView>|
            #[trigger] all0.push(rec) == all1 && forall|k: int| 0 <= k < all0.len() ==> (#[trigger] all0[k]).offset < st0.1;
        assert forall|k: int| 0 <= k < all1.len() - 1 implies (#[trigger] all1[k]).offset < rec.offset by {
            assert(all1[k] == all0[k]);
        }
    }
}

/// The files `files1` agree with `files0` everywhere outside directory
/// `dir`'s entries.
pub open spec fn outside_same(files0: Map<Seq<char>, Seq<u8>>, files1: Map<Seq<char>, Seq<u8>>, dir: Seq<char>) -> bool {
    forall|x: Seq<char>|
        !is_child(dir, x) ==> #[trigger] files1.contains_key(x) == files0.contains_key(x) && files1[x] == files0[x]
}

/// Directories made on the way to `path`, the root or a partition's segment
/// directory, grow the directories on paths.
proof fn lemma_grows_toward(dirs0: Set<Seq<char>>, dirs1: Set<Seq<char>>, root: Seq<char>, p: PartitionKey, path: Seq<char>)
    requires
        valid_name(p.0),
        path == segments_directory_path(root, p) || path == root,
        dirs0.subset_of(dirs1),
        forall|d: Seq<char>| #[trigger] dirs1.contains(d) ==> dirs0.contains(d) || is_under(d, path),
    ensures
        grows_on_paths(dirs0, dirs1, root),
{
    assert forall|d: Seq<char>| #[trigger] dirs1.contains(d) implies dirs0.contains(d) || made_for(root, d) by {
        if !dirs0.contains(d) && path != root {
            assert(is_under(d, segments_directory_path(root, p)));
        }
    }
}

/// Directory `d` lies on the way to the storage root or to the segment
/// directory of a partition with a valid topic name.
pub open spec fn made_for(root: Seq<char>, d: Seq<char>) -> bool {
    ||| is_under(d, root)
    ||| exists|q: PartitionKey| valid_name(q.0) && #[trigger] is_under(d, segments_directory_path(root, q))
}

/// The directories `dirs1` are those of `dirs0` and new ones on the way to
/// the root or to segment directories.
pub open spec fn grows_on_paths(dirs0: Set<Seq<char>>, dirs1: Set<Seq<char>>, root: Seq<char>) -> bool {
    &&& dirs0.subset_of(dirs1)
    &&& forall|d: Seq<char>| #[trigger] dirs1.contains(d) ==> dirs0.contains(d) || made_for(root, d)
}

/// The files `files1` agree with `files0` on every entry of directory `dir`.
pub open spec fn same_entries(files0: Map<Seq<char>, Seq<u8>>, files1: Map<Seq<char>, Seq<u8>>, dir: Seq<char>) -> bool {
    forall|x: Seq<char>|
        #[trigger] is_child(dir, x) ==> files1.contains_key(x) == files0.contains_key(x) && files1[x] == files0[x]
}

/// An entry of a directory that does not end with `/` is the directory,
/// `/`, and a plain name.
proof fn lemma_child_shape(dir: Seq<char>, e: Seq<char>)
    requires
        is_child(dir, e),
        dir.len() > 0,
        dir.last() != '/',
    ensures
        e == dir + seq!['/'] + file_name(e)->0,
        slash_free(file_name(e)->0),
        file_name(e)->0.len() > 0,
{
    crate::paths::lemma_after_last_separator_bounds(e);
    let n = file_name(e)->0;
    assert(slash_free(n)) by {
        assert forall|i: int| 0 <= i < n.len() implies #[trigger] n[i] != '/' by {
            assert(n[i] == e[crate::paths::after_last_separator(e) + i]);
        }
    }
}

/// No directory on the way to the root or to a segment directory is an
/// entry of a segment directory.
#[verifier::rlimit(80)]
#[verifier::spinoff_prover]
proof fn lemma_not_entry_of_segdir(root: Seq<char>, q: PartitionKey, d: Seq<char>)
    requires
        valid_name(q.0),
        made_for(root, d),
    ensures
        !is_child(segments_directory_path(root, q), d),
{
    let qd = segments_directory_path(root, q);
    lemma_segdir_shape(root, q);
    let b = joined_base(root);
    let qn = partition_directory_name(q.1);
    let sg = "segments"@;
    assert(qd.len() > 0 && qd.last() == 's') by {
        reveal_strlit("segments");
        assert(qd.last() == qd[qd.len() - 1]);
    }
    if is_child(qd, d) {
        lemma_child_shape(qd, d);
        let n = file_name(d)->0;
        if is_under(d, root) {
            assert(d.len() <= root.len()) by {
                if d != root {
                    assert(has_prefix(root, d + seq!['/']));
                }
            }
            assert(false);
        } else {
            let p = choose|p: PartitionKey| valid_name(p.0) && #[trigger] is_under(d, segments_directory_path(root, p));
            let pd = segments_directory_path(root, p);
            lemma_segdir_shape(root, p);
            let pn = partition_directory_name(p.1);
            assert(has_prefix(pd, qd + seq!['/'])) by {
                if d == pd {
                    assert(pd.subrange(0, qd.len() + 1int) =~= qd + seq!['/']);
                } else {
                    assert(has_prefix(pd, d + seq!['/']));
                    assert(pd.subrange(0, qd.len() + 1int) =~= (d + seq!['/']).subrange(0, qd.len() + 1int));
                    assert((d + seq!['/']).subrange(0, qd.len() + 1int) =~= qd + seq!['/']);
                }
            }
            let s1 = p.0 + seq!['/'] + (pn + seq!['/'] + sg);
            let s2 = q.0 + seq!['/'] + (qn + seq!['/'] + (sg + seq!['/']));
            assert(pd =~= b + s1);
            assert(qd + seq!['/'] =~= b + s2);
            assert(has_prefix(s1, s2)) by {
                assert forall|i: int| 0 <= i < s2.len() implies s1.subrange(0, s2.len() as int)[i] == s2[i] by {
                    assert(pd[b.len() + i] == s1[i]);
                    assert((qd + seq!['/'])[b.len() + i] == s2[i]);
                    assert(pd.subrange(0, qd.len() + 1int)[b.len() + i] == pd[b.len() + i]);
                }
                assert(s1.subrange(0, s2.len() as int) =~= s2);
            }
            lemma_first_component(p.0, pn + seq!['/'] + sg, q.0, qn + seq!['/'] + (sg + seq!['/']));
            lemma_first_component(pn, sg, qn, sg + seq!['/']);
            assert(false);
        }
    }
}

/// Two segment directories of partitions with valid topic names that share
/// an entry are the same partition's.
#[verifier::spinoff_prover]
proof fn lemma_shared_entry(root: Seq<char>, p: PartitionKey, q: PartitionKey, x: Seq<char>)
    requires
        valid_name(p.0),
        valid_name(q.0),
        is_child(segments_directory_path(root, p), x),
        is_child(segments_directory_path(root, q), x),
    ensures
        p == q,
{
    let pd = segments_directory_path(root, p);
    let qd = segments_directory_path(root, q);
    lemma_segdir_shape(root, p);
    lemma_segdir_shape(root, q);
    let b = joined_base(root);
    let pn = partition_directory_name(p.1);
    let qn = partition_directory_name(q.1);
    let sg = "segments"@;
    reveal_strlit("segments");
    assert(pd.last() == pd[pd.len() - 1]);
    assert(qd.last() == qd[qd.len() - 1]);
    lemma_child_shape(pd, x);
    lemma_child_shape(qd, x);
    let n = file_name(x)->0;
    assert(pd.len() == qd.len());
    assert(pd =~= qd) by {
        assert forall|i: int| 0 <= i < pd.len() implies pd[i] == qd[i] by {
            assert((pd + seq!['/'] + n)[i] == (qd + seq!['/'] + n)[i]);
        }
    }
    let s1 = p.0 + seq!['/'] + (pn + seq!['/'] + sg);
    let s2 = q.0 + seq!['/'] + (qn + seq!['/'] + sg);
    assert(pd =~= b + s1);
    assert(qd =~= b + s2);
    assert(s1 =~= s2) by {
        assert forall|i: int| 0 <= i < s1.len() implies s1[i] == s2[i] by {
            assert(pd[b.len() + i] == s1[i]);
            assert(qd[b.len() + i] == s2[i]);
        }
    }
    assert(has_prefix(s1, s2)) by {
        assert(s1.subrange(0, s2.len() as int) =~= s2);
    }
    lemma_first_component(p.0, pn + seq!['/'] + sg, q.0, qn + seq!['/'] + sg);
    lemma_first_component(pn, sg, qn, sg);
    crate::partition_log::law_partition_directory_roundtrip(join(root, p.0), p.1);
    crate::partition_log::law_partition_directory_roundtrip(join(root, p.0), q.1);
    assert(p.0 == q.0);
    assert(pn == qn);
}

/// Growing the directories on the way to other places, and leaving the
/// entries of a partition's segment directory alone, keeps a state that
/// agrees with the files in agreement with them.
#[verifier::spinoff_prover]
proof fn lemma_frame_consistent(
    files0: Map<Seq<char>, Seq<u8>>,
    dirs0: Set<Seq<char>>,
    files1: Map<Seq<char>, Seq<u8>>,
    dirs1: Set<Seq<char>>,
    root: Seq<char>,
    q: PartitionKey,
    st: (SegmentView, u64),
)
    requires
        valid_name(q.0),
        consistent(files0, dirs0, root, q, st),
        grows_on_paths(dirs0, dirs1, root),
        same_entries(files0, files1, segments_directory_path(root, q)),
    ensures
        consistent(files1, dirs1, root, q, st),
{
    let dir = segments_directory_path(root, q);
    let a = st.0;
    lemma_segment_path(dir, a.0);
    assert forall|e: Seq<char>| #[trigger] is_child(dir, e) && dirs1.contains(e) implies dirs0.contains(e) by {
        if !dirs0.contains(e) {
            lemma_not_entry_of_segdir(root, q, e);
        }
    }
    assert(!dirs1.contains(a.1));
    assert(files1.contains_key(a.1) == files0.contains_key(a.1));
    assert forall|e: Seq<char>|
        #[trigger] is_child(dir, e) && (files1.contains_key(e) || dirs1.contains(e)) && e != a.1 implies (segment_id_of(
            e,
        ) matches Some(Ok(id)) ==> id < a.0) by {
        assert(files0.contains_key(e) || dirs0.contains(e));
    }
    assert forall|segs: Seq<SegmentView>| #[trigger] segment_listing(files1, dirs1, dir, segs) implies (log_of(
        files1,
        segs,
        q.0,
        q.1,
    ) matches Ok(all) && forall|i: int| 0 <= i < all.len() ==> (#[trigger] all[i]).offset < st.1) by {
        lemma_listing_frame(files0, dirs0, files1, dirs1, root, q, segs);
    }
}

/// A listing of a partition's segment directory after such a change is a
/// listing before it, and reads the same.
proof fn lemma_listing_frame(
    files0: Map<Seq<char>, Seq<u8>>,
    dirs0: Set<Seq<char>>,
    files1: Map<Seq<char>, Seq<u8>>,
    dirs1: Set<Seq<char>>,
    root: Seq<char>,
    q: PartitionKey,
    segs: Seq<SegmentView>,
)
    requires
        valid_name(q.0),
        grows_on_paths(dirs0, dirs1, root),
        same_entries(files0, files1, segments_directory_path(root, q)),
        segment_listing(files1, dirs1, segments_directory_path(root, q), segs),
    ensures
        segment_listing(files0, dirs0, segments_directory_path(root, q), segs),
        log_of(files1, segs, q.0, q.1) == log_of(files0, segs, q.0, q.1),
{
    let dir = segments_directory_path(root, q);
    assert forall|e: Seq<char>|
        #[trigger] is_child(dir, e) && (files0.contains_key(e) || dirs0.contains(e)) && (segment_id_of(
            e,
        ) matches Some(Ok(_))) implies exists|i: int| 0 <= i < segs.len() && #[trigger] segs[i].1 == e by {
        assert(files1.contains_key(e) || dirs1.contains(e));
    }
    assert forall|i: int| 0 <= i < segs.len() implies (files1.contains_key(#[trigger] segs[i].1) == files0.contains_key(
        segs[i].1,
    )) && (files1.contains_key(segs[i].1) ==> files1[segs[i].1] == files0[segs[i].1]) by {
        assert(is_child(dir, segs[i].1));
    }
    crate::partition_log::lemma_log_same_files(files1, files0, segs, q.0, q.1);
}

/// The converse direction: a listing before such a change is a listing
/// after it.
proof fn lemma_listing_frame_back(
    files0: Map<Seq<char>, Seq<u8>>,
    dirs0: Set<Seq<char>>,
    files1: Map<Seq<char>, Seq<u8>>,
    dirs1: Set<Seq<char>>,
    root: Seq<char>,
    q: PartitionKey,
    segs: Seq<SegmentView>,
)
    requires
        valid_name(q.0),
        grows_on_paths(dirs0, dirs1, root),
        same_entries(files0, files1, segments_directory_path(root, q)),
        segment_listing(files0, dirs0, segments_directory_path(root, q), segs),
    ensures
        segment_listing(files1, dirs1, segments_directory_path(root, q), segs),
{
    let dir = segments_directory_path(root, q);
    assert forall|e: Seq<char>|
        #[trigger] is_child(dir, e) && (files1.contains_key(e) || dirs1.contains(e)) && (segment_id_of(
            e,
        ) matches Some(Ok(_))) implies exists|i: int| 0 <= i < segs.len() && #[trigger] segs[i].1 == e by {
        if !dirs0.contains(e) && dirs1.contains(e) && !files1.contains_key(e) {
            lemma_not_entry_of_segdir(root, q, e);
        }
        assert(files0.contains_key(e) || dirs0.contains(e)) by {
            if dirs1.contains(e) && !dirs0.contains(e) && !files1.contains_key(e) {
            }
        }
    }
    assert forall|i: int| 0 <= i < segs.len() implies {
        &&& is_child(dir, #[trigger] segs[i].1)
        &&& files1.contains_key(segs[i].1)
        &&& segment_id_of(segs[i].1) == Some(Ok::<u64, IntErrorKind>(segs[i].0))
        &&& segs[i].2 == files1[segs[i].1].len()
    } by {
        assert(is_child(dir, segs[i].1));
    }
}

/// Such a change also keeps a well-stored partition well stored.
#[verifier::spinoff_prover]
proof fn lemma_frame_well_stored(
    files0: Map<Seq<char>, Seq<u8>>,
    dirs0: Set<Seq<char>>,
    files1: Map<Seq<char>, Seq<u8>>,
    dirs1: Set<Seq<char>>,
    root: Seq<char>,
    q: PartitionKey,
)
    requires
        valid_name(q.0),
        partition_well_stored(files0, dirs0, root, q),
        has_partition_directory(dirs0, root, q),
        grows_on_paths(dirs0, dirs1, root),
        same_entries(files0, files1, segments_directory_path(root, q)),
    ensures
        partition_well_stored(files1, dirs1, root, q),
        has_partition_directory(dirs1, root, q),
{
    let dir = segments_directory_path(root, q);
    assert forall|e: Seq<char>| #[trigger] is_child(dir, e) && dirs1.contains(e) implies dirs0.contains(e) by {
        if !dirs0.contains(e) {
            lemma_not_entry_of_segdir(root, q, e);
        }
    }
    assert forall|e: Seq<char>|
        #[trigger] is_child(dir, e) && (files1.contains_key(e) || dirs1.contains(e)) implies (segment_id_of(e) matches Some(
            Ok(id),
        ) ==> {
            &&& files1.contains_key(e)
            &&& !dirs1.contains(e)
            &&& e == join(dir, segment_file_name(id))
            &&& id + 1 < u64::MAX
            &&& files1[e].len() + u32::MAX + 4 <= usize::MAX
        }) by {
        assert(files0.contains_key(e) || dirs0.contains(e));
        if dirs1.contains(e) {
            assert(dirs0.contains(e));
        }
    }
    let all = choose|all: Seq<RecordView>| #[trigger] reads_as(files0, dirs0, dir, q, all);
    assert(reads_as(files1, dirs1, dir, q, all)) by {
        assert forall|segs: Seq<SegmentView>| #[trigger] segment_listing(files1, dirs1, dir, segs) implies log_of(
            files1,
            segs,
            q.0,
            q.1,
        ) == Ok::<Seq<RecordView>, CodecFault>(all) by {
            lemma_listing_frame(files0, dirs0, files1, dirs1, root, q, segs);
        }
    }
    let td = choose|td: Seq<char>|
        is_child(root, td) && dirs0.contains(td) && file_name(td) == Some(q.0) && #[trigger] holds_partition_directory(
            dirs0,
            td,
            q.1,
        );
    let e = choose|e: Seq<char>|
        is_child(td, e) && dirs0.contains(e) && #[trigger] partition_id_of(e) == Some(Ok::<u32, IntErrorKind>(q.1));
    assert(holds_partition_directory(dirs1, td, q.1));
}

/// The records of `all` come in strictly increasing order of offset.
pub open spec fn offsets_increasing(all: Seq<RecordView>) -> bool {
    forall|i: int, j: int| 0 <= i < j < all.len() ==> #[trigger] all[i].offset < #[trigger] all[j].offset
}

/// Every listing of segment directory `dir` reads as the log `all` of
/// partition `p`, whose offsets increase.
pub open spec fn reads_as(
    files: Map<Seq<char>, Seq<u8>>,
    dirs: Set<Seq<char>>,
    dir: Seq<char>,
    p: PartitionKey,
    all: Seq<RecordView>,
) -> bool {
    &&& offsets_increasing(all)
    &&& forall|segs: Seq<SegmentView>|
        #[trigger] segment_listing(files, dirs, dir, segs) ==> log_of(files, segs, p.0, p.1) == Ok::<
            Seq<RecordView>,
            CodecFault,
        >(all)
}

/// A state leaves room for one more segment and one more frame: its segment
/// number can grow by one, and a machine word can count the bytes of its
/// active segment with the largest frame added.
pub open spec fn has_room_for(st: (SegmentView, u64)) -> bool {
    st.0.0 + 1 < u64::MAX && st.0.2 + u32::MAX + 4 <= usize::MAX
}

/// Partition `p` is stored as this engine writes it: its segment directory
/// exists; each of its entries whose name reads as a segment number is a
/// file with the standard name of that number, with room for one more
/// segment and one more frame; and all listings of the directory read as one
/// log, whose offsets increase.
pub open spec fn partition_well_stored(files: Map<Seq<char>, Seq<u8>>, dirs: Set<Seq<char>>, root: Seq<char>, p: PartitionKey) -> bool {
    let dir = segments_directory_path(root, p);
    &&& dirs.contains(dir)
    &&& u32::MAX + 4 <= usize::MAX
    &&& forall|e: Seq<char>|
        #[trigger] is_child(dir, e) && (files.contains_key(e) || dirs.contains(e)) ==> (segment_id_of(e) matches Some(
            Ok(id),
        ) ==> {
            &&& files.contains_key(e)
            &&& !dirs.contains(e)
            &&& e == join(dir, segment_file_name(id))
            &&& id + 1 < u64::MAX
            &&& files[e].len() + u32::MAX + 4 <= usize::MAX
        })
    &&& exists|all: Seq<RecordView>| #[trigger] reads_as(files, dirs, dir, p, all)
}

/// No entry of directory `dir` has a segment's name.
pub open spec fn no_segment_entries(files: Map<Seq<char>, Seq<u8>>, dirs: Set<Seq<char>>, dir: Seq<char>) -> bool {
    forall|e: Seq<char>|
        #[trigger] is_child(dir, e) && (files.contains_key(e) || dirs.contains(e)) ==> !(segment_id_of(e) matches Some(
            Ok(_),
        ))
}

/// A partition whose segment directory exists and has no segment in it is
/// well stored.
proof fn lemma_empty_well_stored(files: Map<Seq<char>, Seq<u8>>, dirs: Set<Seq<char>>, root: Seq<char>, p: PartitionKey)
    requires
        dirs.contains(segments_directory_path(root, p)),
        no_segment_entries(files, dirs, segments_directory_path(root, p)),
        u32::MAX + 4 <= usize::MAX,
    ensures
        partition_well_stored(files, dirs, root, p),
{
    let dir = segments_directory_path(root, p);
    let empty = Seq::<RecordView>::empty();
    assert(reads_as(files, dirs, dir, p, empty)) by {
        assert forall|segs: Seq<SegmentView>| #[trigger] segment_listing(files, dirs, dir, segs) implies log_of(
            files,
            segs,
            p.0,
            p.1,
        ) == Ok::<Seq<RecordView>, CodecFault>(empty) by {
            if segs.len() > 0 {
                assert(is_child(dir, segs[0].1) && files.contains_key(segs[0].1));
                assert(false);
            }
        }
    }
}

/// Partition `q`'s tracking, and its holding nothing, survive a change that
/// grows the directories on paths and leaves the entries of its segment
/// directory and its state alone.
proof fn lemma_frame_partition<F: FileSystem>(a: &LocalStorageEngine<F>, b: &LocalStorageEngine<F>, q: PartitionKey)
    requires
        valid_name(q.0),
        a.root() == b.root(),
        grows_on_paths(a.dirs(), b.dirs(), a.root()),
        same_entries(a.files(), b.files(), segments_directory_path(a.root(), q)),
        b.loaded(q) == a.loaded(q),
        a.loaded(q) ==> b.state_of(q) == a.state_of(q),
    ensures
        a.tracks(q) ==> b.tracks(q),
        a.holds_nothing(q) ==> b.holds_nothing(q),
{
    if a.tracks(q) {
        lemma_frame_consistent(a.files(), a.dirs(), b.files(), b.dirs(), a.root(), q, a.state_of(q));
    }
    if a.holds_nothing(q) {
        lemma_frame_nothing(a.files(), a.dirs(), b.files(), b.dirs(), a.root(), q);
    }
}

/// A segment directory with no segment in it keeps none through a change
/// that grows the directories on paths and leaves its entries alone.
proof fn lemma_frame_nothing(
    files0: Map<Seq<char>, Seq<u8>>,
    dirs0: Set<Seq<char>>,
    files1: Map<Seq<char>, Seq<u8>>,
    dirs1: Set<Seq<char>>,
    root: Seq<char>,
    q: PartitionKey,
)
    requires
        valid_name(q.0),
        grows_on_paths(dirs0, dirs1, root),
        same_entries(files0, files1, segments_directory_path(root, q)),
        no_segment_entries(files0, dirs0, segments_directory_path(root, q)),
    ensures
        no_segment_entries(files1, dirs1, segments_directory_path(root, q)),
{
    let dir = segments_directory_path(root, q);
    assert forall|e: Seq<char>|
        #[trigger] is_child(dir, e) && (files1.contains_key(e) || dirs1.contains(e)) implies !(segment_id_of(
            e,
        ) matches Some(Ok(_))) by {
        if dirs1.contains(e) && !dirs0.contains(e) {
            lemma_not_entry_of_segdir(root, q, e);
        }
    }
}

/// A change that grows the directories on paths, leaves the entries of the
/// segment directory of every other partition with a valid topic name alone,
/// and keeps the other partitions' states, keeps every such partition
/// tracked, or holding nothing, as it was.
proof fn lemma_keeps_others<F: FileSystem>(a: &LocalStorageEngine<F>, b: &LocalStorageEngine<F>, p: PartitionKey)
    requires
        a.root() == b.root(),
        grows_on_paths(a.dirs(), b.dirs(), a.root()),
        forall|q: PartitionKey|
            q != p && valid_name(q.0) ==> #[trigger] same_entries(a.files(), b.files(), segments_directory_path(a.root(), q)),
        b.others_same(a, p),
    ensures
        forall|q: PartitionKey| q != p && valid_name(q.0) && #[trigger] a.tracks(q) ==> b.tracks(q),
        forall|q: PartitionKey| q != p && valid_name(q.0) && #[trigger] a.holds_nothing(q) ==> b.holds_nothing(q),
{
    assert forall|q: PartitionKey| q != p && valid_name(q.0) && #[trigger] a.tracks(q) implies b.tracks(q) by {
        assert(same_entries(a.files(), b.files(), segments_directory_path(a.root(), q)));
        assert(b.loaded(q) == a.loaded(q));
        lemma_frame_partition(a, b, q);
    }
    assert forall|q: PartitionKey| q != p && valid_name(q.0) && #[trigger] a.holds_nothing(q) implies b.holds_nothing(q) by {
        assert(same_entries(a.files(), b.files(), segments_directory_path(a.root(), q)));
        lemma_frame_nothing(a.files(), a.dirs(), b.files(), b.dirs(), a.root(), q);
    }
}

/// A well-stored partition recovers to a state that agrees with its files
/// and leaves room for one more segment and one more frame.
#[verifier::rlimit(40)]
#[verifier::spinoff_prover]
proof fn lemma_recovered_tracked(
    files: Map<Seq<char>, Seq<u8>>,
    dirs: Set<Seq<char>>,
    d: Set<Seq<char>>,
    root: Seq<char>,
    p: PartitionKey,
    st: (SegmentView, u64),
)
    requires
        partition_well_stored(files, dirs, root, p),
        recovered(files, d, root, p, st),
    ensures
        consistent(files, dirs, root, p, st),
        has_room_for(st),
{
    let dir = segments_directory_path(root, p);
    let segs = choose|segs: Seq<SegmentView>|
        #[trigger] segment_listing(files, d, dir, segs) && (log_of(files, segs, p.0, p.1) matches Ok(all)
            && next_offset_after(all) == Some(st.1)) && st.0 == active_after(dir, segs);
    let all_w = choose|all: Seq<RecordView>| #[trigger] reads_as(files, dirs, dir, p, all);
    assert(segment_listing(files, dirs, dir, segs)) by {
        assert forall|e: Seq<char>|
            #[trigger] is_child(dir, e) && (files.contains_key(e) || dirs.contains(e)) && (segment_id_of(
                e,
            ) matches Some(Ok(_))) implies exists|i: int| 0 <= i < segs.len() && #[trigger] segs[i].1 == e by {
            assert(files.contains_key(e));
        }
    }
    assert(log_of(files, segs, p.0, p.1) == Ok::<Seq<RecordView>, CodecFault>(all_w));
    lemma_segment_path(dir, 1);
    let a = st.0;
    if segs.len() > 0 {
        let k = segs.len() - 1;
        assert(is_child(dir, segs[k].1) && files.contains_key(segs[k].1));
        assert(segs.last() == segs[k]);
        assert(segment_id_of(segs[k].1) == Some(Ok::<u64, IntErrorKind>(segs[k].0)));
    } else {
        assert(a == first_segment(dir));
        if files.contains_key(a.1) {
            assert(is_child(dir, a.1));
            let i = choose|i: int| 0 <= i < segs.len() && #[trigger] segs[i].1 == a.1;
            assert(false);
        }
        if dirs.contains(a.1) {
            assert(is_child(dir, a.1));
            assert(false);
        }
    }
    assert forall|e: Seq<char>|
        #[trigger] is_child(dir, e) && (files.contains_key(e) || dirs.contains(e)) && e != a.1 implies (segment_id_of(
            e,
        ) matches Some(Ok(id)) ==> id < a.0) by {
        if segment_id_of(e) matches Some(Ok(id)) {
            assert(files.contains_key(e));
            let i = choose|i: int| 0 <= i < segs.len() && #[trigger] segs[i].1 == e;
            assert(segment_id_of(segs[i].1) == Some(Ok::<u64, IntErrorKind>(segs[i].0)));
            let k = segs.len() - 1;
            assert(segs[i].0 <= segs[k].0) by {
                if i < k {
                    assert(ids_ordered(segs));
                }
            }
            assert(segs.last() == segs[k]);
            assert(is_child(dir, segs[k].1) && files.contains_key(segs[k].1));
            assert(segment_id_of(segs[k].1) == Some(Ok::<u64, IntErrorKind>(segs[k].0)));
        }
    }
    assert forall|segs2: Seq<SegmentView>| #[trigger] segment_listing(files, dirs, dir, segs2) implies (log_of(
        files,
        segs2,
        p.0,
        p.1,
    ) matches Ok(all) && forall|i: int| 0 <= i < all.len() ==> (#[trigger] all[i]).offset < st.1) by {
        assert(log_of(files, segs2, p.0, p.1) == Ok::<Seq<RecordView>, CodecFault>(all_w));
        assert forall|i: int| 0 <= i < all_w.len() implies (#[trigger] all_w[i]).offset < st.1 by {
            let k = all_w.len() - 1;
            if i < k {
                assert(all_w[i].offset < all_w[k].offset);
            }
        }
    }
}

/// Starting a new segment keeps a state that agrees with the files in
/// agreement with them.
proof fn lemma_rotated_consistent(
    files: Map<Seq<char>, Seq<u8>>,
    dirs: Set<Seq<char>>,
    root: Seq<char>,
    p: PartitionKey,
    st: (SegmentView, u64),
)
    requires
        consistent(files, dirs, root, p, st),
        st.0.0 + 1 < u64::MAX,
    ensures
        consistent(files, dirs, root, p, (rotated(segments_directory_path(root, p), st.0), st.1)),
{
    let dir = segments_directory_path(root, p);
    let a = st.0;
    let b = rotated(dir, a);
    lemma_segment_path(dir, a.0);
    lemma_segment_path(dir, b.0);
    assert(b.0 == a.0 + 1);
    assert(b.1 != a.1);
    if dirs.contains(b.1) || files.contains_key(b.1) {
        assert(is_child(dir, b.1));
        assert(false);
    }
    assert forall|e: Seq<char>|
        #[trigger] is_child(dir, e) && (files.contains_key(e) || dirs.contains(e)) && e != b.1 implies (segment_id_of(
            e,
        ) matches Some(Ok(id)) ==> id < b.0) by {
        if e == a.1 {
        } else {
        }
    }
}

/// Once the log of partition `p` ends with an appended record, a read from
/// that record's offset gives back that record alone: what was produced is
/// what is fetched.
pub proof fn law_fetch_returns_produced<S: StorageEngine>(
    engine: &S,
    p: PartitionKey,
    rec: RecordView,
    all: Seq<RecordView>,
    n: nat,
)
    requires
        forall|all1: Seq<RecordView>| #[trigger] engine.holds_log(p, all1) ==> ends_with_record(all1, rec),
        engine.holds_log(p, all),
        n >= 1,
    ensures
        read_window(all, rec.offset, n) == seq![rec],
{
    let before = all.drop_last();
    assert(before.push(rec) =~= all);
    assert forall|i: int| 0 <= i < before.len() implies (#[trigger] before[i]).offset < rec.offset by {
        assert(before[i] == all[i]);
    }
    lemma_read_last(before, rec, n);
}

/// With frames no larger than the segment limit, the active segment never
/// grows past the limit: a frame that would take a non-empty segment past it
/// starts a new segment, and a frame goes whole into one segment.
pub proof fn law_segments_stay_within_limit(
    before: Map<Seq<char>, Seq<u8>>,
    after: Map<Seq<char>, Seq<u8>>,
    root: Seq<char>,
    p: PartitionKey,
    st0: (SegmentView, u64),
    rec: RecordView,
    max: u64,
    st1: (SegmentView, u64),
)
    requires
        appended(before, after, root, p, st0, rec, max, st1),
        st0.0.2 <= max,
        record_frame(rec).len() <= max,
    ensures
        st1.0.2 <= max,
        st1.0.2 == (if must_rotate(st0.0, record_frame(rec).len() as int, max) {
            record_frame(rec).len() as int
        } else {
            saturating(st0.0.2 as int, record_frame(rec).len() as int) as int
        }),
{
    let n = record_frame(rec).len() as int;
    let dir = segments_directory_path(root, p);
    if must_rotate(st0.0, n, max) {
        assert(rotated(dir, st0.0).2 == 0);
        assert(st1.0.2 == saturating(0, n));
    } else {
        assert(st1.0.2 == saturating(st0.0.2 as int, n));
    }
}

/// A store of partition logs.
pub trait StorageEngine: Sized {
    /// What the engine keeps true of itself.
    spec fn inv(&self) -> bool;

    /// `all` is a reading of partition `p`'s log: the records it holds, in
    /// order.
    spec fn holds_log(&self, p: PartitionKey, all: Seq<RecordView>) -> bool;

    /// The engine holds partition `p`'s state, and that state agrees with
    /// what is stored, so that an append lands at the end of the log.
    spec fn tracks(&self, p: PartitionKey) -> bool;

    /// `rec` is the last record written for partition `p`.
    spec fn last_written(&self, p: PartitionKey, rec: RecordView) -> bool;

    /// Partition `p` is stored as the engine writes it, so that recovering
    /// it gives a state the engine tracks.
    spec fn well_stored(&self, p: PartitionKey) -> bool;

    /// The engine's state of partition `p` leaves room for one more segment
    /// and one more record.
    spec fn has_room(&self, p: PartitionKey) -> bool;

    /// Nothing is stored yet for partition `p`.
    spec fn holds_nothing(&self, p: PartitionKey) -> bool;

    /// The offset the next record appended to partition `p` gets, when the
    /// engine holds the partition's state.
    spec fn next_offset(&self, p: PartitionKey) -> Option<u64>;

    /// Appends a record to a partition's log and tells where it went: at the
    /// partition's next offset, which moves one on.
    fn append(&mut self, partition: &TopicPartition, key: Option<RecordKey>, payload: RecordPayload) -> (r: Result<
        StoredRecordMetadata,
        StorageError,
    >)
        requires
            old(self).inv(),
        ensures
            final(self).inv(),
            r matches Ok(m) ==> {
                &&& m.partition@ == partition@
                &&& final(self).next_offset(partition@) matches Some(n) && n == m.offset.value + 1
                &&& old(self).next_offset(partition@) matches Some(o) ==> m.offset.value == o
            },
            r matches Ok(m) ==> exists|ts: u128|
                #![trigger appended_record(partition@, m.offset.value, key_view(key), payload.bytes@, ts)]
                {
                    let rec = appended_record(partition@, m.offset.value, key_view(key), payload.bytes@, ts);
                    &&& final(self).last_written(partition@, rec)
                    &&& old(self).tracks(partition@) && ts <= u64::MAX ==> forall|all1: Seq<RecordView>|
                        #[trigger] final(self).holds_log(partition@, all1) ==> ends_with_record(all1, rec)
                    &&& old(self).tracks(partition@) && ts <= u64::MAX && final(self).has_room(partition@)
                        ==> final(self).tracks(partition@)
                },
            forall|q: PartitionKey|
                old(self).tracks(partition@) && q != partition@ && valid_name(q.0) && #[trigger] old(self).tracks(q)
                    ==> final(self).tracks(q),
            forall|q: PartitionKey|
                old(self).tracks(partition@) && q != partition@ && valid_name(q.0) && #[trigger] old(self).holds_nothing(q)
                    ==> final(self).holds_nothing(q),
    ;

    /// At most `max_records` records of a partition from `offset` on.
    fn read(&mut self, partition: &TopicPartition, offset: Offset, max_records: usize) -> (r: Result<
        Vec<Record>,
        StorageError,
    >)
        requires
            old(self).inv(),
        ensures
            final(self).inv(),
            r matches Ok(rs) ==> rs@.len() <= max_records && forall|i: int|
                0 <= i < rs@.len() ==> (#[trigger] rs@[i])@.topic == partition@.0 && rs@[i]@.partition_id
                    == partition@.1 && rs@[i]@.offset >= offset.value,
            r is Ok ==> final(self).next_offset(partition@) is Some && (old(self).next_offset(partition@) is Some
                ==> final(self).next_offset(partition@) == old(self).next_offset(partition@)),
            r matches Ok(rs) ==> (max_records > 0 ==> exists|all: Seq<RecordView>|
                #[trigger] final(self).holds_log(partition@, all) && record_views(rs@) == read_window(
                    all,
                    offset.value,
                    max_records as nat,
                )),
            old(self).next_offset(partition@) is Some ==> *final(self) == *old(self),
            old(self).tracks(partition@) ==> final(self).tracks(partition@),
            forall|q: PartitionKey|
                q != partition@ && valid_name(q.0) && #[trigger] old(self).tracks(q) ==> final(self).tracks(q),
            forall|q: PartitionKey|
                q != partition@ && valid_name(q.0) && #[trigger] old(self).holds_nothing(q) ==> final(self).holds_nothing(q),
    ;

    /// Makes sure the engine holds a partition's state; the other partitions'
    /// next offsets stay.
    fn flush(&mut self, partition: &TopicPartition) -> (r: Result<(), StorageError>)
        requires
            old(self).inv(),
        ensures
            final(self).inv(),
            forall|q: PartitionKey| q != partition@ ==> #[trigger] final(self).next_offset(q) == old(self).next_offset(q),
            r is Ok && old(self).next_offset(partition@) is None && final(self).well_stored(partition@)
                ==> final(self).tracks(partition@),
            old(self).tracks(partition@) ==> r is Ok && final(self).tracks(partition@),
            r is Ok && old(self).next_offset(partition@) is None && old(self).holds_nothing(partition@)
                ==> final(self).tracks(partition@),
            forall|q: PartitionKey|
                q != partition@ && valid_name(q.0) && #[trigger] old(self).tracks(q) ==> final(self).tracks(q),
            forall|q: PartitionKey|
                q != partition@ && valid_name(q.0) && #[trigger] old(self).holds_nothing(q) ==> final(self).holds_nothing(q),
            r is Ok ==> final(self).next_offset(partition@) is Some && (old(self).next_offset(partition@) is Some
                ==> final(self).next_offset(partition@) == old(self).next_offset(partition@)),
    ;

    /// Starts a new segment for a partition.
    fn rotate(&mut self, partition: &TopicPartition) -> (r: Result<(), StorageError>)
        requires
            old(self).inv(),
        ensures
            final(self).inv(),
            r is Ok && old(self).tracks(partition@) && final(self).has_room(partition@) ==> final(self).tracks(partition@),
            forall|q: PartitionKey|
                q != partition@ && valid_name(q.0) && #[trigger] old(self).tracks(q) ==> final(self).tracks(q),
            forall|q: PartitionKey|
                q != partition@ && valid_name(q.0) && #[trigger] old(self).holds_nothing(q) ==> final(self).holds_nothing(q),
            r is Ok ==> final(self).next_offset(partition@) is Some && (old(self).next_offset(partition@) is Some
                ==> final(self).next_offset(partition@) == old(self).next_offset(partition@)),
    ;

    /// Recovers the state of every stored partition; each that is well
    /// stored is then tracked.
    fn recover(&mut self) -> (r: Result<(), StorageError>)
        requires
            old(self).inv(),
        ensures
            final(self).inv(),
            r is Ok ==> forall|q: PartitionKey| valid_name(q.0) && #[trigger] old(self).well_stored(q) ==> final(self).tracks(q),
    ;
}

impl<F: FileSystem> StorageEngine for LocalStorageEngine<F> {
    open spec fn inv(&self) -> bool {
        self.wf()
    }

    open spec fn holds_log(&self, p: PartitionKey, all: Seq<RecordView>) -> bool {
        partition_log(self.files(), self.dirs(), self.root(), p, all)
    }

    open spec fn tracks(&self, p: PartitionKey) -> bool {
        &&& self.loaded(p)
        &&& consistent(self.files(), self.dirs(), self.root(), p, self.state_of(p))
        &&& has_room_for(self.state_of(p))
    }

    open spec fn has_room(&self, p: PartitionKey) -> bool {
        self.loaded(p) && has_room_for(self.state_of(p))
    }

    /// No entry of the segment directory is a segment, and a machine word
    /// can count the bytes of the largest frame.
    open spec fn holds_nothing(&self, p: PartitionKey) -> bool {
        &&& u32::MAX + 4 <= usize::MAX
        &&& no_segment_entries(self.files(), self.dirs(), segments_directory_path(self.root(), p))
    }

    /// The partition has its directories under the root, and its segment
    /// directory is as the engine writes it.
    open spec fn well_stored(&self, p: PartitionKey) -> bool {
        has_partition_directory(self.dirs(), self.root(), p) && partition_well_stored(self.files(), self.dirs(), self.root(), p)
    }

    open spec fn last_written(&self, p: PartitionKey, rec: RecordView) -> bool {
        &&& self.loaded(p)
        &&& self.files().contains_key(self.state_of(p).0.1)
        &&& ends_with_bytes(self.files()[self.state_of(p).0.1], record_frame(rec))
    }

    open spec fn next_offset(&self, p: PartitionKey) -> Option<u64> {
        if self.loaded(p) {
            Some(self.state_of(p).1)
        } else {
            None
        }
    }

    /// Loads or creates the partition's state, then appends with the current
    /// time as the record's timestamp; a clock set before the Unix epoch is
    /// an error, after the state is loaded. Otherwise it is `append_at` with
    /// that time: the record gets the partition's next offset (from the held
    /// state, or the one recovered from the files) and its frame goes at the
    /// end of the segment the rotation rule picks.
    fn append(&mut self, partition: &TopicPartition, key: Option<RecordKey>, payload: RecordPayload) -> (r: Result<
        StoredRecordMetadata,
        StorageError,
    >)
        ensures
            final(self).configuration == old(self).configuration,
            r matches Ok(m) ==> final(self).loaded(partition@) && final(self).others_same(old(self), partition@)
                && exists|ts: u128, st0: (SegmentView, u64)|
                #![trigger old(self).starting_state(partition@, st0), appended_record(partition@, st0.1, key_view(key), payload.bytes@, ts)]
                old(self).starting_state(partition@, st0) && {
                    let rec = appended_record(partition@, st0.1, key_view(key), payload.bytes@, ts);
                    &&& m.offset.value == st0.1
                    &&& st0.1 < u64::MAX
                    &&& encode_fault(rec) is None
                    &&& appended(
                        old(self).files(),
                        final(self).files(),
                        old(self).root(),
                        partition@,
                        st0,
                        rec,
                        old(self).configuration.segment_max_bytes,
                        final(self).state_of(partition@),
                    )
                },
            old(self).loaded(partition@) && old(self).state_of(partition@).1 == u64::MAX ==> r is Err && final(self).files()
                == old(self).files(),
            old(self).loaded(partition@) && old(self).state_of(partition@).1 < u64::MAX && encode_fault(
                appended_record(partition@, old(self).state_of(partition@).1, key_view(key), payload.bytes@, 0),
            ) is Some ==> r is Err && final(self).files() == old(self).files(),
            r is Err ==> final(self).others_same(old(self), partition@),
            r is Err && old(self).loaded(partition@) ==> final(self).loaded(partition@),
            r is Err && final(self).loaded(partition@) ==> exists|st0: (SegmentView, u64)|
                #[trigger] old(self).starting_state(partition@, st0) && final(self).state_of(partition@).1 == st0.1,
    {
        proof {
            if old(self).loaded(partition@) {
                assert(old(self).starting_state(partition@, old(self).state_of(partition@)));
            }
        }
        partition.topic.lemma_valid();
        let ghost start = *self;
        match self.ensure_partition_state(partition) {
            Ok(_) => {},
            Err(e) => {
                proof {
                    Self::lemma_same_partitions(self, &start, &start, partition@);
                    if self.loaded(partition@) {
                        assert(start.starting_state(partition@, start.state_of(partition@)));
                    }
                }
                return Err(e);
            },
        }
        proof {
            assert(start.starting_state(partition@, self.state_of(partition@)));
        }
        let now = match current_time_millis() {
            Ok(t) => t,
            Err(text) => {
                return Err(
                    StorageError {
                        message: crate::text::concat("Record timestamp is before epoch: ", text.as_str()),
                    },
                )
            },
        };
        let ghost kv = key_view(key);
        let ghost pv = payload.bytes@;
        proof {
            lemma_fault_ignores_time(partition@, kv, pv, now);
        }
        let ghost before = *self;
        let r = self.append_at(partition, key, payload, now);
        proof {
            assert(self.others_same(&start, partition@)) by {
                assert forall|q: PartitionKey| q != partition@ implies (#[trigger] self.loaded(q) == start.loaded(q) && (self.loaded(q)
                    ==> self.state_of(q) == start.state_of(q))) by {
                    assert(self.loaded(q) == before.loaded(q));
                    assert(before.loaded(q) == start.loaded(q));
                }
            }
            if r is Err && self.loaded(partition@) {
                let st = choose|st: (SegmentView, u64)|
                    #[trigger] before.starting_state(partition@, st) && self.state_of(partition@).1 == st.1;
                assert(st == before.state_of(partition@));
                assert(start.starting_state(partition@, st));
            }
            if before.tracks(partition@) {
                let dir = segments_directory_path(before.root(), partition@);
                lemma_segment_path(dir, before.state_of(partition@).0.0);
                assert forall|q: PartitionKey| q != partition@ && valid_name(q.0) implies #[trigger] same_entries(
                    before.files(),
                    self.files(),
                    segments_directory_path(before.root(), q),
                ) by {
                    assert forall|x: Seq<char>| #[trigger] is_child(segments_directory_path(before.root(), q), x) implies self.files().contains_key(x)
                        == before.files().contains_key(x) && self.files()[x] == before.files()[x] by {
                        if is_child(dir, x) {
                            lemma_shared_entry(before.root(), partition@, q, x);
                        }
                    }
                }
                lemma_keeps_others(&before, self, partition@);
            }
            if r is Ok {
                let st0 = choose|st0: (SegmentView, u64)|
                    #[trigger] before.starting_state(partition@, st0) && r->Ok_0.offset.value == st0.1 && appended(
                        old(self).files(),
                        self.files(),
                        old(self).root(),
                        partition@,
                        st0,
                        appended_record(partition@, st0.1, key_view(key), payload.bytes@, now),
                        old(self).configuration.segment_max_bytes,
                        self.state_of(partition@),
                    );
                assert(st0 == before.state_of(partition@));
                assert(old(self).starting_state(partition@, st0));
                assert(self.state_of(partition@).1 == st0.1 + 1);
                let rec = appended_record(partition@, st0.1, kv, pv, now);
                let st1 = self.state_of(partition@);
                lemma_written_last(old(self).files(), self.files(), old(self).root(), partition@, st0, rec, old(self).configuration.segment_max_bytes, st1);
                if old(self).tracks(partition@) && now <= u64::MAX {
                    assert(*old(self) == before);
                    assert(st0 == old(self).state_of(partition@));
                    assert(self.dirs() == old(self).dirs());
                    lemma_tracked_append(
                        old(self).files(),
                        old(self).dirs(),
                        self.files(),
                        self.dirs(),
                        old(self).root(),
                        partition@,
                        st0,
                        rec,
                        old(self).configuration.segment_max_bytes,
                        st1,
                    );
                    if self.has_room(partition@) {
                        law_append_keeps_consistent(
                            old(self).files(),
                            old(self).dirs(),
                            self.files(),
                            old(self).root(),
                            partition@,
                            st0,
                            rec,
                            old(self).configuration.segment_max_bytes,
                            st1,
                        );
                        assert(self.tracks(partition@));
                    }
                }
                assert(self.last_written(partition@, rec));
                assert(old(self).starting_state(partition@, st0) && r->Ok_0.offset.value == st0.1 && st0.1 < u64::MAX
                    && encode_fault(rec) is None && appended(
                    old(self).files(),
                    self.files(),
                    old(self).root(),
                    partition@,
                    st0,
                    rec,
                    old(self).configuration.segment_max_bytes,
                    self.state_of(partition@),
                ));
            }
        }
        r
    }

    /// Held partitions read without fail when no record is asked for or
    /// their segment directory is gone.
    fn read(&mut self, partition: &TopicPartition, offset: Offset, max_records: usize) -> (r: Result<
        Vec<Record>,
        StorageError,
    >)
        ensures
            old(self).loaded(partition@) && (max_records == 0 || !(old(self).files().contains_key(
                segments_directory_path(old(self).root(), partition@),
            ) || old(self).dirs().contains(segments_directory_path(old(self).root(), partition@)))) ==> (r matches Ok(
                rs,
            ) && rs@.len() == 0),
            final(self).files() == old(self).files(),
            old(self).loaded(partition@) ==> *final(self) == *old(self),
            r matches Ok(rs) ==> (max_records == 0 ==> rs@.len() == 0) && (max_records > 0 ==> exists|all: Seq<RecordView>|
                #[trigger] partition_log(final(self).files(), final(self).dirs(), final(self).root(), partition@, all)
                    && record_views(rs@) == read_window(all, offset.value, max_records as nat)),
    {
        let ghost before = *self;
        let r = self.read_records(partition, offset, max_records);
        proof {
            lemma_keeps_others(&before, self, partition@);
            if r is Ok {
                let rs = r->Ok_0;
                if max_records > 0 {
                    let all = choose|all: Seq<RecordView>|
                        #[trigger] partition_log(self.files(), self.dirs(), self.root(), partition@, all)
                            && record_views(rs@) == read_window(all, offset.value, max_records as nat);
                    let segs = choose|segs: Seq<SegmentView>|
                        #[trigger] log_of(self.files(), segs, partition@.0, partition@.1) == Ok::<Seq<RecordView>, CodecFault>(all)
                            && if self.files().contains_key(segments_directory_path(self.root(), partition@)) || self.dirs().contains(
                            segments_directory_path(self.root(), partition@),
                        ) {
                            segment_listing(self.files(), self.dirs(), segments_directory_path(self.root(), partition@), segs)
                        } else {
                            segs.len() == 0
                        };
                    crate::partition_log::lemma_log_partition(self.files(), segs, partition@.0, partition@.1);
                    crate::partition_log::lemma_read_window(all, offset.value, max_records as nat, partition@.0, partition@.1);
                    assert forall|i: int| 0 <= i < rs@.len() implies (#[trigger] rs@[i])@.topic == partition@.0
                        && rs@[i]@.partition_id == partition@.1 && rs@[i]@.offset >= offset.value by {
                        assert(record_views(rs@)[i] == rs@[i]@);
                    }
                    assert(self.holds_log(partition@, all));
                }
            }
        }
        r
    }

    fn flush(&mut self, partition: &TopicPartition) -> (r: Result<(), StorageError>)
        ensures
            final(self).files() == old(self).files(),
            r is Ok ==> final(self).loaded(partition@) && exists|st0: (SegmentView, u64)|
                #[trigger] old(self).starting_state(partition@, st0) && final(self).state_of(partition@) == st0,
            old(self).loaded(partition@) ==> r is Ok && *final(self) == *old(self),
    {
        partition.topic.lemma_valid();
        let ghost before = *self;
        let r = self.flush_partition(partition);
        proof {
            if r is Err {
                Self::lemma_same_partitions(self, &before, &before, partition@);
            }
            lemma_keeps_others(&before, self, partition@);
            if r is Ok && !before.loaded(partition@) && before.holds_nothing(partition@) {
                let st0 = choose|st0: (SegmentView, u64)|
                    #[trigger] before.starting_state(partition@, st0) && self.state_of(partition@) == st0;
                let d = choose|d: Set<Seq<char>>| #[trigger] recovered(before.files(), d, before.root(), partition@, st0);
                lemma_frame_nothing(before.files(), before.dirs(), self.files(), self.dirs(), self.root(), partition@);
                lemma_empty_well_stored(self.files(), self.dirs(), self.root(), partition@);
                lemma_recovered_tracked(self.files(), self.dirs(), d, self.root(), partition@, st0);
            }
            if r is Ok && !old(self).loaded(partition@) && self.well_stored(partition@) {
                let st0 = choose|st0: (SegmentView, u64)|
                    #[trigger] old(self).starting_state(partition@, st0) && self.state_of(partition@) == st0;
                let d = choose|d: Set<Seq<char>>| #[trigger] recovered(old(self).files(), d, old(self).root(), partition@, st0);
                lemma_recovered_tracked(self.files(), self.dirs(), d, self.root(), partition@, st0);
            }
            if r is Err {
                assert forall|q: PartitionKey| q != partition@ implies #[trigger] self.next_offset(q) == old(self).next_offset(q) by {
                    assert(self.loaded(q) == old(self).loaded(q));
                }
            } else {
                assert forall|q: PartitionKey| q != partition@ implies #[trigger] self.next_offset(q) == old(self).next_offset(q) by {
                    assert(self.loaded(q) == old(self).loaded(q));
                }
            }
        }
        r
    }

    fn rotate(&mut self, partition: &TopicPartition) -> (r: Result<(), StorageError>)
        ensures
            final(self).files() == old(self).files(),
            r is Ok ==> final(self).loaded(partition@) && exists|st0: (SegmentView, u64)|
                #[trigger] old(self).starting_state(partition@, st0) && final(self).state_of(partition@) == (
                    rotated(segments_directory_path(old(self).root(), partition@), st0.0),
                    st0.1,
                ),
    {
        let ghost before = *self;
        let r = self.rotate_partition(partition);
        proof {
            lemma_keeps_others(&before, self, partition@);
            if r is Ok && old(self).tracks(partition@) && self.has_room(partition@) {
                let st0 = old(self).state_of(partition@);
                assert(old(self).starting_state(partition@, st0));
                lemma_rotated_consistent(old(self).files(), old(self).dirs(), old(self).root(), partition@, st0);
            }
        }
        r
    }

    fn recover(&mut self) -> (r: Result<(), StorageError>)
        ensures
            final(self).files() == old(self).files(),
            r is Ok ==> forall|q: PartitionKey|
                #[trigger] has_partition_directory(old(self).dirs(), old(self).root(), q) ==> final(self).loaded(q)
                    && exists|d: Set<Seq<char>>| #[trigger] recovered(final(self).files(), d, final(self).root(), q, final(self).state_of(q)),
    {
        let r = self.recover_partitions();
        proof {
            if r is Ok {
                assert forall|q: PartitionKey| valid_name(q.0) && #[trigger] old(self).well_stored(q) implies self.tracks(q) by {
                    assert(has_partition_directory(old(self).dirs(), old(self).root(), q));
                    lemma_frame_well_stored(old(self).files(), old(self).dirs(), self.files(), self.dirs(), self.root(), q);
                    let d = choose|d: Set<Seq<char>>| #[trigger] recovered(self.files(), d, self.root(), q, self.state_of(q));
                    lemma_recovered_tracked(self.files(), self.dirs(), d, self.root(), q, self.state_of(q));
                }
            }
        }
        r
    }
}

/// What the engine's state of partition `p` keeps true of the files it
/// appends to: the segment directory exists; the active segment's file is
/// named after its number (one below the largest), is not a directory, and
/// its size is the file's length (0 while there is no file); every other
/// segment entry of the directory has a smaller number; and every listing
/// of the directory reads cleanly into records that all come before the
/// next offset.
pub open spec fn consistent(
    files: Map<Seq<char>, Seq<u8>>,
    dirs: Set<Seq<char>>,
    root: Seq<char>,
    p: PartitionKey,
    st: (SegmentView, u64),
) -> bool {
    let dir = segments_directory_path(root, p);
    let a = st.0;
    &&& dirs.contains(dir)
    &&& a.1 == join(dir, segment_file_name(a.0))
    &&& a.0 < u64::MAX
    &&& !dirs.contains(a.1)
    &&& if files.contains_key(a.1) {
        files[a.1].len() == a.2
    } else {
        a.2 == 0
    }
    &&& forall|e: Seq<char>|
        #[trigger] is_child(dir, e) && (files.contains_key(e) || dirs.contains(e)) && e != a.1 ==> (segment_id_of(e) matches Some(
            Ok(id),
        ) ==> id < a.0)
    &&& forall|segs: Seq<SegmentView>|
        #[trigger] segment_listing(files, dirs, dir, segs) ==> (log_of(files, segs, p.0, p.1) matches Ok(all)
            && forall|i: int| 0 <= i < all.len() ==> (#[trigger] all[i]).offset < st.1)
}

/// After an append to a consistent partition, every listing of its segment
/// directory reads as the records that were there, all before the appended
/// one's offset, followed by the appended record.
#[verifier::rlimit(80)]
#[verifier::spinoff_prover]
proof fn lemma_log_after_append(
    files0: Map<Seq<char>, Seq<u8>>,
    dirs0: Set<Seq<char>>,
    files1: Map<Seq<char>, Seq<u8>>,
    dirs1: Set<Seq<char>>,
    root: Seq<char>,
    p: PartitionKey,
    st0: (SegmentView, u64),
    rec: RecordView,
    max: u64,
    st1: (SegmentView, u64),
    segs1: Seq<SegmentView>,
)
    requires
        consistent(files0, dirs0, root, p, st0),
        dirs0.subset_of(dirs1),
        appended(files0, files1, root, p, st0, rec, max, st1),
        rec.topic == p.0,
        rec.partition_id == p.1,
        rec.offset == st0.1,
        encode_fault(rec) is None,
        rec.timestamp_millis <= u64::MAX,
        files1[st1.0.1].len() <= usize::MAX,
        segment_listing(files1, dirs1, segments_directory_path(root, p), segs1),
    ensures
        log_of(files1, segs1, p.0, p.1) matches Ok(all1) && exists|all0: Seq<RecordView>|
            #[trigger] all0.push(rec) == all1 && forall|k: int| 0 <= k < all0.len() ==> (#[trigger] all0[k]).offset < st0.1,
{
    let dir = segments_directory_path(root, p);
    let a = st0.0;
    let frame = record_frame(rec);
    let rot = must_rotate(a, frame.len() as int, max);
    let target = if rot {
        rotated(dir, a)
    } else {
        a
    };
    let old_content = if files0.contains_key(target.1) {
        files0[target.1]
    } else {
        Seq::<u8>::empty()
    };
    assert(files1 == files0.insert(target.1, old_content + frame));
    assert(st1.0.1 == target.1);
    assert(target.1 == join(dir, segment_file_name(target.0)));
    lemma_segment_path(dir, target.0);
    lemma_segment_path(dir, a.0);
    crate::record_codec::law_frame_roundtrip(rec);
    assert(frame.len() > 0) by {
        assert(frame.len() == 4 + crate::record_codec::record_body(rec).len());
    }
    assert(segs1.len() > 0 ==> segs1.last() == segs1[segs1.len() - 1]);
    // The target file is listed, and last.
    assert(files1.contains_key(target.1));
    let i = choose|i: int| 0 <= i < segs1.len() && #[trigger] segs1[i].1 == target.1;
    assert(segs1[i].0 == target.0);
    assert forall|j: int| 0 <= j < segs1.len() && j != i implies (#[trigger] segs1[j]).0 < target.0 by {
        assert(segs1[j].1 != target.1) by {
            if j < i {
                assert(segs1[j].1 != segs1[i].1);
            } else {
                assert(segs1[i].1 != segs1[j].1);
            }
        }
        let e = segs1[j].1;
        assert(files1.contains_key(e) && is_child(dir, e));
        assert(files0.contains_key(e));
        if e == a.1 {
            assert(rot);
        } else {
            assert(segment_id_of(e) == Some(Ok::<u64, IntErrorKind>(segs1[j].0)));
        }
    }
    let last = segs1.len() - 1;
    assert(i == last) by {
        if i < last {
            assert(segs1[i].0 <= segs1[last].0);
            assert(segs1[last].0 < target.0);
        }
    }
    let d = segs1.drop_last();
    assert forall|j: int| 0 <= j < d.len() implies (files1.contains_key(#[trigger] d[j].1) == files0.contains_key(d[j].1))
        && (files1.contains_key(d[j].1) ==> files1[d[j].1] == files0[d[j].1]) by {
        assert(d[j] == segs1[j]);
        assert(segs1[j].1 != segs1[last].1);
    }
    lemma_log_same_files(files1, files0, d, p.0, p.1);
    assert(segs1.last() == segs1[last]);
    assert(segs1[last].2 == files1[target.1].len());
    // A listing of the files before the append.
    let with_active = !rot && files0.contains_key(a.1);
    let segs0 = if with_active {
        d.push(a)
    } else {
        d
    };
    assert(segment_listing(files0, dirs0, dir, segs0)) by {
        assert forall|j: int|
            0 <= j < segs0.len() implies {
                &&& is_child(dir, #[trigger] segs0[j].1)
                &&& files0.contains_key(segs0[j].1)
                &&& segment_id_of(segs0[j].1) == Some(Ok::<u64, IntErrorKind>(segs0[j].0))
                &&& segs0[j].2 == files0[segs0[j].1].len()
            } by {
            if j < d.len() {
                assert(segs0[j] == segs1[j]);
                assert(segs1[j].1 != segs1[last].1);
            }
        }
        assert forall|x: int, y: int| 0 <= x < y < segs0.len() implies #[trigger] segs0[x].1 != #[trigger] segs0[y].1 by {
            if y < d.len() {
                assert(segs0[x] == segs1[x] && segs0[y] == segs1[y]);
            } else {
                assert(segs0[x] == segs1[x]);
                assert(segs1[x].1 != segs1[last].1);
            }
        }
        assert forall|x: int, y: int| 0 <= x < y < segs0.len() implies #[trigger] segs0[x].0 <= #[trigger] segs0[y].0 by {
            if y < d.len() {
                assert(segs0[x] == segs1[x] && segs0[y] == segs1[y]);
            } else {
                assert(segs0[x] == segs1[x]);
            }
        }
        assert forall|e: Seq<char>|
            #[trigger] is_child(dir, e) && (files0.contains_key(e) || dirs0.contains(e)) && (segment_id_of(e) matches Some(
                Ok(_),
            )) implies exists|k: int| 0 <= k < segs0.len() && #[trigger] segs0[k].1 == e by {
            assert(files1.contains_key(e) || dirs1.contains(e));
            let k = choose|k: int| 0 <= k < segs1.len() && #[trigger] segs1[k].1 == e;
            if k == last {
                assert(e == target.1);
                if rot {
                    assert(e != a.1) by {
                        if e == a.1 {
                            assert(segment_id_of(a.1) == Some(Ok::<u64, IntErrorKind>(a.0)));
                        }
                    }
                    assert(false);
                } else {
                    assert(e == a.1);
                    assert(segs0[d.len() as int].1 == e);
                }
            } else {
                assert(segs0[k] == segs1[k]);
            }
        }
    }
    let all0 = log_of(files0, segs0, p.0, p.1)->Ok_0;
    assert(log_of(files0, segs0, p.0, p.1) is Ok);
    assert forall|k: int| 0 <= k < all0.len() implies (#[trigger] all0[k]).offset < st0.1 by {}
    if with_active {
        assert(segs0.drop_last() =~= d);
        assert(segs0.last() == a);
        let x = log_of(files0, d, p.0, p.1)->Ok_0;
        let y = segment_records(files0, a, p.0, p.1)->Ok_0;
        assert(all0 == x + y);
        assert(decode_all_spec(files0[a.1], p.0, p.1) == Ok::<Seq<RecordView>, CodecFault>(y)) by {
            if a.2 == 0 {
                assert(files0[a.1].len() == 0);
            }
        }
        crate::record_codec::law_append_then_decode(files0[a.1], rec);
        assert(log_of(files1, segs1, p.0, p.1) == Ok::<Seq<RecordView>, CodecFault>(x + y.push(rec)));
        assert(x + y.push(rec) =~= all0.push(rec));
    } else {
        assert(segs0 == d);
        assert(old_content == Seq::<u8>::empty()) by {
            if rot {
                if files0.contains_key(target.1) {
                    assert(target.1 != a.1) by {
                        if target.1 == a.1 {
                            assert(segment_id_of(target.1) == Some(Ok::<u64, IntErrorKind>(a.0)));
                        }
                    }
                }
            }
        }
        assert(old_content + frame =~= frame);
        assert(log_of(files1, segs1, p.0, p.1) == Ok::<Seq<RecordView>, CodecFault>(all0 + seq![rec]));
        assert(all0 + seq![rec] =~= all0.push(rec));
    }
}

/// In a consistent partition, appending a record and then reading from the
/// offset it got gives back that record, and only it: the record lands at
/// the end of the log, after every record that was there.
pub proof fn law_append_then_read(
    files0: Map<Seq<char>, Seq<u8>>,
    dirs0: Set<Seq<char>>,
    files1: Map<Seq<char>, Seq<u8>>,
    dirs1: Set<Seq<char>>,
    root: Seq<char>,
    p: PartitionKey,
    st0: (SegmentView, u64),
    rec: RecordView,
    max: u64,
    st1: (SegmentView, u64),
    all1: Seq<RecordView>,
    n: nat,
)
    requires
        consistent(files0, dirs0, root, p, st0),
        dirs0.subset_of(dirs1),
        appended(files0, files1, root, p, st0, rec, max, st1),
        rec.topic == p.0,
        rec.partition_id == p.1,
        rec.offset == st0.1,
        encode_fault(rec) is None,
        rec.timestamp_millis <= u64::MAX,
        files1[st1.0.1].len() <= usize::MAX,
        partition_log(files1, dirs1, root, p, all1),
        n >= 1,
    ensures
        read_window(all1, st0.1, n) == seq![rec],
{
    let dir = segments_directory_path(root, p);
    assert(dirs1.contains(dir));
    let segs1 = choose|segs: Seq<SegmentView>|
        {
            &&& #[trigger] log_of(files1, segs, p.0, p.1) == Ok::<Seq<RecordView>, CodecFault>(all1)
            &&& if files1.contains_key(dir) || dirs1.contains(dir) {
                segment_listing(files1, dirs1, dir, segs)
            } else {
                segs.len() == 0
            }
        };
    lemma_log_after_append(files0, dirs0, files1, dirs1, root, p, st0, rec, max, st1, segs1);
    let all0 = choose|all0: Seq<RecordView>|
        #[trigger] all0.push(rec) == all1 && forall|k: int| 0 <= k < all0.len() ==> (#[trigger] all0[k]).offset < st0.1;
    lemma_read_last(all0, rec, n);
}

/// Appending to a consistent partition leaves it consistent, with the next
/// offset one on, so appends can follow one another.
pub proof fn law_append_keeps_consistent(
    files0: Map<Seq<char>, Seq<u8>>,
    dirs: Set<Seq<char>>,
    files1: Map<Seq<char>, Seq<u8>>,
    root: Seq<char>,
    p: PartitionKey,
    st0: (SegmentView, u64),
    rec: RecordView,
    max: u64,
    st1: (SegmentView, u64),
)
    requires
        consistent(files0, dirs, root, p, st0),
        appended(files0, files1, root, p, st0, rec, max, st1),
        rec.topic == p.0,
        rec.partition_id == p.1,
        rec.offset == st0.1,
        encode_fault(rec) is None,
        rec.timestamp_millis <= u64::MAX,
        files1[st1.0.1].len() <= usize::MAX,
        st0.0.0 + 1 < u64::MAX,
        st0.1 < u64::MAX,
    ensures
        st1.1 == st0.1 + 1,
        consistent(files1, dirs, root, p, st1),
{
    let dir = segments_directory_path(root, p);
    let a = st0.0;
    let frame = record_frame(rec);
    let rot = must_rotate(a, frame.len() as int, max);
    let target = if rot {
        rotated(dir, a)
    } else {
        a
    };
    let old_content = if files0.contains_key(target.1) {
        files0[target.1]
    } else {
        Seq::<u8>::empty()
    };
    assert(files1 == files0.insert(target.1, old_content + frame));
    lemma_segment_path(dir, target.0);
    lemma_segment_path(dir, a.0);
    assert(!dirs.contains(target.1)) by {
        if rot && dirs.contains(target.1) {
            assert(target.1 != a.1) by {
                if target.1 == a.1 {
                    assert(segment_id_of(target.1) == Some(Ok::<u64, IntErrorKind>(a.0)));
                }
            }
        }
    }
    assert(old_content.len() == target.2) by {
        if rot && files0.contains_key(target.1) {
            assert(target.1 != a.1) by {
                if target.1 == a.1 {
                    assert(segment_id_of(target.1) == Some(Ok::<u64, IntErrorKind>(a.0)));
                }
            }
        }
    }
    assert(files1[target.1].len() == target.2 + frame.len());
    assert forall|e: Seq<char>|
        #[trigger] is_child(dir, e) && (files1.contains_key(e) || dirs.contains(e)) && e != st1.0.1 implies (segment_id_of(e) matches Some(
            Ok(id),
        ) ==> id < st1.0.0) by {
        assert(files0.contains_key(e) || dirs.contains(e));
        if e == a.1 {
            assert(segment_id_of(e) == Some(Ok::<u64, IntErrorKind>(a.0)));
        }
    }
    assert forall|segs: Seq<SegmentView>|
        #[trigger] segment_listing(files1, dirs, dir, segs) implies (log_of(files1, segs, p.0, p.1) matches Ok(all)
            && forall|i: int| 0 <= i < all.len() ==> (#[trigger] all[i]).offset < st1.1) by {
        lemma_log_after_append(files0, dirs, files1, dirs, root, p, st0, rec, max, st1, segs);
        let all1 = log_of(files1, segs, p.0, p.1)->Ok_0;
        let all0 = choose|all0: Seq<RecordView>|
            #[trigger] all0.push(rec) == all1 && forall|k: int| 0 <= k < all0.len() ==> (#[trigger] all0[k]).offset < st0.1;
        assert forall|i: int| 0 <= i < all1.len() implies (#[trigger] all1[i]).offset < st1.1 by {
            if i < all0.len() {
                assert(all1[i] == all0[i]);
            } else {
                assert(all1[i] == rec);
            }
        }
    }
}

/// A value occurring at two positions of a sequence counts at least twice.
proof fn lemma_count_two<T>(s: Seq<T>, i: int, j: int)
    requires
        0 <= i < j < s.len(),
        s[i] == s[j],
    ensures
        s.to_multiset().count(s[i]) >= 2,
{
    let x = s[i];
    let r = s.remove(j);
    assert(r[i] == x);
    assert(r.to_multiset().count(x) >= 1);
    assert(s.to_multiset() =~= r.to_multiset().insert(x)) by {
        assert(r.insert(j, x) =~= s);
        assert(r.insert(j, x).to_multiset() =~= r.to_multiset().insert(x)) by {
            let t = r.insert(j, x);
            assert(t.remove(j) =~= r);
            assert(t.to_multiset().remove(x) =~= r.to_multiset());
            assert(t.to_multiset().count(x) > 0);
        }
    }
}

/// In a sequence of segments with distinct paths, each view counts once.
proof fn lemma_unique_count(s: Seq<SegmentView>, a: int)
    requires
        0 <= a < s.len(),
        forall|i: int, j: int| 0 <= i < j < s.len() ==> #[trigger] s[i].1 != #[trigger] s[j].1,
    ensures
        s.to_multiset().count(s[a]) == 1,
    decreases s.len(),
{
    let x = s[a];
    let l = s.len() - 1;
    assert(s =~= s.drop_last().push(s.last()));
    if a == l {
        let d = s.drop_last();
        assert(!d.contains(x)) by {
            if d.contains(x) {
                let i = choose|i: int| 0 <= i < d.len() && d[i] == x;
                assert(s[i].1 != s[l].1);
            }
        }
        assert(d.to_multiset().count(x) == 0);
    } else {
        lemma_unique_count(s.drop_last(), a);
        assert(s.last() != x) by {
            assert(s[a].1 != s[l].1);
        }
    }
}

} // verus!
