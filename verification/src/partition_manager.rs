//! The partitions of the topics a broker serves, and the routing of appends
//! and reads to the storage engine.
use vstd::prelude::*;

use crate::model::{
    BrokerError, Offset, Partition, PartitionId, PartitionKey, PartitionView, Record, RecordKey,
    RecordPayload, StoredRecordMetadata, Topic, TopicName, TopicPartition,
};
use crate::model::{key_view, RecordView};
use crate::partition_log::read_window;
use crate::record_codec::record_views;
use crate::storage::{appended_record, ends_with_record, StorageEngine};
use crate::text::{concat, concat3, decimal, decimal_chars, string_from_chars, valid_name};

verus! {

broadcast use vstd::seq_lib::group_to_multiset_ensures;

/// The key of a partition: its topic and number.
pub open spec fn partition_key(v: PartitionView) -> PartitionKey {
    (v.0, v.1)
}

pub open spec fn partition_views(s: Seq<Partition>) -> Seq<PartitionView> {
    s.map_values(|p: Partition| p@)
}

/// No partition occurs twice.
pub open spec fn distinct_keys(s: Seq<PartitionView>) -> bool {
    forall|i: int, j: int| 0 <= i < j < s.len() ==> partition_key(#[trigger] s[i]) != partition_key(#[trigger] s[j])
}

/// Whether some partition of `s` has key `k`.
pub open spec fn keyed(s: Seq<PartitionView>, k: PartitionKey) -> bool {
    exists|i: int| 0 <= i < s.len() && #[trigger] partition_key(s[i]) == k
}

/// The partitions of `s` by key.
pub open spec fn partition_map(s: Seq<PartitionView>) -> Map<PartitionKey, PartitionView> {
    Map::new(
        |k: PartitionKey| keyed(s, k),
        |k: PartitionKey| s[choose|i: int| 0 <= i < s.len() && #[trigger] partition_key(s[i]) == k],
    )
}

/// The partitions of a topic: numbered from 0, as many as it has, with its
/// segment size.
pub open spec fn topic_partitions(t: (Seq<char>, u32, u64)) -> Seq<PartitionView> {
    Seq::new(t.1 as nat, |i: int| (t.0, i as u32, t.2))
}

/// `m` with the partitions of `ps` put in, later ones replacing earlier ones
/// of the same key.
pub open spec fn with_partitions(m: Map<PartitionKey, PartitionView>, ps: Seq<PartitionView>) -> Map<
    PartitionKey,
    PartitionView,
>
    decreases ps.len(),
{
    if ps.len() == 0 {
        m
    } else {
        with_partitions(m, ps.drop_last()).insert(partition_key(ps.last()), ps.last())
    }
}

/// Whether a partition is of a topic other than `n`.
pub open spec fn not_of_topic(n: Seq<char>) -> spec_fn(PartitionView) -> bool {
    |v: PartitionView| v.0 != n
}

/// Whether a key is of a topic other than `n`.
pub open spec fn key_not_of_topic(n: Seq<char>) -> spec_fn(PartitionKey) -> bool {
    |k: PartitionKey| k.0 != n
}

/// The message for a partition that does not exist.
pub open spec fn missing_partition_message(k: PartitionKey) -> Seq<char> {
    "Partition '"@ + k.0 + ":"@ + decimal(k.1 as nat) + "' does not exist"@
}

proof fn lemma_partition_map_at(s: Seq<PartitionView>, i: int)
    requires
        distinct_keys(s),
        0 <= i < s.len(),
    ensures
        partition_map(s).contains_key(partition_key(s[i])),
        partition_map(s)[partition_key(s[i])] == s[i],
{
    let k = partition_key(s[i]);
    assert(keyed(s, k));
    let j = choose|j: int| 0 <= j < s.len() && #[trigger] partition_key(s[j]) == k;
    if j < i {
        assert(partition_key(s[j]) != partition_key(s[i]));
    } else if j > i {
        assert(partition_key(s[i]) != partition_key(s[j]));
    }
}

proof fn lemma_partition_replaced(before: Seq<PartitionView>, after: Seq<PartitionView>, k: int, v: PartitionView)
    requires
        distinct_keys(before),
        distinct_keys(after),
        0 <= k < before.len(),
        partition_key(before[k]) == partition_key(v),
        after == before.update(k, v),
    ensures
        partition_map(after) == partition_map(before).insert(partition_key(v), v),
{
    let m = partition_map(before).insert(partition_key(v), v);
    assert forall|n: PartitionKey| #[trigger] partition_map(after).contains_key(n) == m.contains_key(n) by {
        if keyed(before, n) {
            let j = choose|j: int| 0 <= j < before.len() && #[trigger] partition_key(before[j]) == n;
            assert(partition_key(after[j]) == n);
        }
        if keyed(after, n) {
            let j = choose|j: int| 0 <= j < after.len() && #[trigger] partition_key(after[j]) == n;
            assert(partition_key(before[j]) == n);
        }
    }
    assert forall|n: PartitionKey| partition_map(after).contains_key(n) implies #[trigger] partition_map(after)[n] == m[n] by {
        let j = choose|j: int| 0 <= j < after.len() && #[trigger] partition_key(after[j]) == n;
        lemma_partition_map_at(after, j);
        if j != k {
            lemma_partition_map_at(before, j);
            assert(after[j] == before[j]);
        }
    }
    assert(partition_map(after) =~= m);
}

proof fn lemma_partition_appended(before: Seq<PartitionView>, v: PartitionView)
    requires
        distinct_keys(before),
        distinct_keys(before.push(v)),
    ensures
        partition_map(before.push(v)) == partition_map(before).insert(partition_key(v), v),
{
    let after = before.push(v);
    let m = partition_map(before).insert(partition_key(v), v);
    assert forall|n: PartitionKey| #[trigger] partition_map(after).contains_key(n) == m.contains_key(n) by {
        if keyed(before, n) {
            let j = choose|j: int| 0 <= j < before.len() && #[trigger] partition_key(before[j]) == n;
            assert(partition_key(after[j]) == n);
        }
        if keyed(after, n) {
            let j = choose|j: int| 0 <= j < after.len() && #[trigger] partition_key(after[j]) == n;
            if j < before.len() {
                assert(partition_key(before[j]) == n);
            }
        }
        if n == partition_key(v) {
            assert(partition_key(after[before.len() as int]) == n);
        }
    }
    assert forall|n: PartitionKey| partition_map(after).contains_key(n) implies #[trigger] partition_map(after)[n] == m[n] by {
        let j = choose|j: int| 0 <= j < after.len() && #[trigger] partition_key(after[j]) == n;
        lemma_partition_map_at(after, j);
        if j < before.len() {
            lemma_partition_map_at(before, j);
            assert(after[j] == before[j]);
            assert(partition_key(after[j]) != partition_key(after[before.len() as int]));
        }
    }
    assert(partition_map(after) =~= m);
}

/// The position of the partition with key `k`, if any.
fn position_of_partition(ps: &Vec<Partition>, tp: &TopicPartition) -> (r: Option<usize>)
    ensures
        r matches Some(i) ==> i < ps@.len() && partition_key(ps@[i as int]@) == tp@,
        r is None ==> forall|j: int| 0 <= j < ps@.len() ==> partition_key(#[trigger] ps@[j]@) != tp@,
{
    let mut i: usize = 0;
    while i < ps.len()
        invariant
            i <= ps@.len(),
            forall|j: int| 0 <= j < i ==> partition_key(#[trigger] ps@[j]@) != tp@,
        decreases ps@.len() - i,
    {
        if ps[i].id.value == tp.partition_id.value && ps[i].topic.same_as(&tp.topic) {
            return Some(i);
        }
        i = i + 1;
    }
    None
}

/// Puts `p` among `ps`, in place of the partition of its key or at the end.
fn put_partition(ps: &mut Vec<Partition>, p: Partition)
    requires
        distinct_keys(partition_views(old(ps)@)),
    ensures
        distinct_keys(partition_views(final(ps)@)),
        partition_map(partition_views(final(ps)@)) == partition_map(partition_views(old(ps)@)).insert(
            partition_key(p@),
            p@,
        ),
{
    let ghost before = partition_views(ps@);
    let ghost pv = p@;
    let tp = TopicPartition::new(p.topic.duplicate(), p.id);
    match position_of_partition(ps, &tp) {
        Some(k) => {
            ps.set(k, p);
            proof {
                let after = partition_views(ps@);
                assert(after =~= before.update(k as int, pv));
                assert forall|a: int, b: int| 0 <= a < b < after.len() implies partition_key(#[trigger] after[a])
                    != partition_key(#[trigger] after[b]) by {
                    if a != k && b != k {
                        assert(after[a] == before[a] && after[b] == before[b]);
                    } else if a == k {
                        assert(after[b] == before[b]);
                        assert(partition_key(before[a]) != partition_key(before[b]));
                    } else {
                        assert(after[a] == before[a]);
                        assert(partition_key(before[a]) != partition_key(before[b]));
                    }
                }
                lemma_partition_replaced(before, after, k as int, pv);
            }
        },
        None => {
            ps.push(p);
            proof {
                let after = partition_views(ps@);
                assert(after =~= before.push(pv));
                assert forall|a: int, b: int| 0 <= a < b < after.len() implies partition_key(#[trigger] after[a])
                    != partition_key(#[trigger] after[b]) by {
                    if b < before.len() {
                        assert(after[a] == before[a] && after[b] == before[b]);
                    } else {
                        assert(after[a] == before[a]);
                    }
                }
                lemma_partition_appended(before, pv);
            }
        },
    }
}

/// The partitions of a broker, each backed by a log in the storage engine.
pub struct PartitionManager<S: StorageEngine> {
    pub storage_engine: S,
    pub partitions: Vec<Partition>,
}

impl<S: StorageEngine> PartitionManager<S> {
    pub open spec fn wf(&self) -> bool {
        &&& self.storage_engine.inv()
        &&& distinct_keys(partition_views(self.partitions@))
    }

    /// The partitions by key.
    pub open spec fn known(&self) -> Map<PartitionKey, PartitionView> {
        partition_map(partition_views(self.partitions@))
    }

    /// The offset the next record appended to partition `k` gets, when the
    /// storage engine holds the partition's state.
    pub open spec fn next_offset(&self, k: PartitionKey) -> Option<u64> {
        self.storage_engine.next_offset(k)
    }

    /// The storage engine tracks every known partition with a valid topic
    /// name, so that what is appended to it is read back.
    pub open spec fn all_tracked(&self) -> bool {
        forall|k: PartitionKey| #[trigger] self.known().contains_key(k) && valid_name(k.0) ==> self.storage_engine.tracks(k)
    }

    /// The storage engine tracks every known partition with a valid topic
    /// name other than `p`.
    pub open spec fn all_tracked_but(&self, p: PartitionKey) -> bool {
        forall|k: PartitionKey|
            #[trigger] self.known().contains_key(k) && valid_name(k.0) && k != p ==> self.storage_engine.tracks(k)
    }

    /// The storage engine tracks partition `k`, or holds neither a state
    /// nor anything stored for it.
    pub open spec fn ready_for(&self, k: PartitionKey) -> bool {
        ||| self.storage_engine.tracks(k)
        ||| self.storage_engine.next_offset(k) is None && self.storage_engine.holds_nothing(k)
    }

    pub fn new(storage_engine: S) -> (m: Self)
        requires
            storage_engine.inv(),
        ensures
            m.wf(),
            m.storage_engine == storage_engine,
            m.known() == Map::<PartitionKey, PartitionView>::empty(),
            m.all_tracked(),
    {
        let m = PartitionManager { storage_engine, partitions: Vec::new() };
        proof {
            assert(m.known() =~= Map::<PartitionKey, PartitionView>::empty());
        }
        m
    }

    /// Creates the partitions of `topic`, numbered from 0, each with its log
    /// made ready by the storage engine, and returns them.
    pub fn create_partitions_for_topic(&mut self, topic: &Topic) -> (r: Result<Vec<Partition>, BrokerError>)
        requires
            old(self).wf(),
        ensures
            final(self).wf(),
            r matches Ok(ps) ==> partition_views(ps@) == topic_partitions(topic@) && final(self).known()
                == with_partitions(old(self).known(), topic_partitions(topic@)),
            topic@.1 == 0 ==> (r matches Ok(ps) && ps@.len() == 0) && *final(self) == *old(self),
            r is Ok ==> forall|i: u32| i < topic@.1 ==> #[trigger] final(self).next_offset((topic@.0, i)) is Some,
            r is Err ==> exists|k: int|
                0 <= k < topic@.1 && final(self).known() == #[trigger] with_partitions(
                    old(self).known(),
                    topic_partitions(topic@).take(k),
                ),
            forall|q: PartitionKey|
                valid_name(q.0) && #[trigger] old(self).storage_engine.tracks(q) ==> final(self).storage_engine.tracks(q),
            old(self).all_tracked() && (forall|i: u32| i < topic@.1 ==> #[trigger] old(self).ready_for((topic@.0, i)))
                ==> final(self).all_tracked(),
    {
        topic.name.lemma_valid();
        let ghost ready = old(self).all_tracked() && (forall|i: u32|
            i < topic@.1 ==> #[trigger] old(self).ready_for((topic@.0, i)));
        let count = topic.configuration.partition_count;
        let pc = topic.configuration.partition_configuration;
        let mut created: Vec<Partition> = Vec::new();
        let mut i: u32 = 0;
        let ghost tps = topic_partitions(topic@);
        while i < count
            invariant
                i <= count,
                count == topic@.1,
                pc.segment_max_bytes == topic@.2,
                tps == topic_partitions(topic@),
                partition_views(created@) == tps.take(i as int),
            decreases count - i,
        {
            let ghost before = partition_views(created@);
            created.push(Partition::new(topic.name.duplicate(), PartitionId::new(i), pc));
            proof {
                assert(tps[i as int] == (topic@.0, i, topic@.2));
                assert(partition_views(created@) =~= before.push(tps[i as int]));
                assert(tps.take(i + 1) =~= tps.take(i as int).push(tps[i as int]));
            }
            i = i + 1;
        }
        proof {
            assert(tps.take(count as int) =~= tps);
        }
        let mut k: usize = 0;
        proof {
            assert(tps.take(0) =~= Seq::<PartitionView>::empty());
            if ready {
                assert forall|j: int| 0 <= j < tps.len() implies #[trigger] self.ready_for((tps[j].0, tps[j].1)) by {
                    assert(tps[j] == (topic@.0, j as u32, topic@.2));
                    assert(old(self).ready_for((topic@.0, j as u32)));
                }
            }
        }
        while k < created.len()
            invariant
                self.wf(),
                k <= created@.len(),
                partition_views(created@) == tps,
                self.known() == with_partitions(old(self).known(), tps.take(k as int)),
                created@.len() == 0 ==> *self == *old(self),
                tps == topic_partitions(topic@),
                forall|j: int| 0 <= j < k ==> #[trigger] self.next_offset((tps[j].0, tps[j].1)) is Some,
                valid_name(topic@.0),
                forall|q: PartitionKey|
                    valid_name(q.0) && #[trigger] old(self).storage_engine.tracks(q) ==> self.storage_engine.tracks(q),
                ready == (old(self).all_tracked() && (forall|i: u32|
                    i < topic@.1 ==> #[trigger] old(self).ready_for((topic@.0, i)))),
                ready ==> self.all_tracked(),
                ready ==> forall|j: int| k <= j < tps.len() ==> #[trigger] self.ready_for((tps[j].0, tps[j].1)),
            decreases created@.len() - k,
        {
            let ghost pre = *self;
            let tp = TopicPartition::new(created[k].topic.duplicate(), created[k].id);
            proof {
                assert(partition_views(created@).len() == created@.len());
                assert(tps.len() == topic@.1);
                assert(created@[k as int]@ == partition_views(created@)[k as int]);
                assert(tp@ == (tps[k as int].0, tps[k as int].1));
            }
            let flushed = self.storage_engine.flush(&tp);
            proof {
                assert(tp@.0 == topic@.0);
                assert forall|q: PartitionKey|
                    valid_name(q.0) && #[trigger] old(self).storage_engine.tracks(q) implies self.storage_engine.tracks(q) by {
                    assert(pre.storage_engine.tracks(q));
                }
                if ready {
                    assert forall|x: PartitionKey| #[trigger] self.known().contains_key(x) && valid_name(x.0) && x != tp@ implies self.storage_engine.tracks(x) by {
                        assert(pre.known().contains_key(x));
                        assert(pre.storage_engine.tracks(x));
                    }
                    assert forall|j: int| k < j < tps.len() implies #[trigger] self.ready_for((tps[j].0, tps[j].1)) by {
                        assert(tps[j] == (topic@.0, j as u32, topic@.2));
                        assert(tps[k as int] == (topic@.0, k as u32, topic@.2));
                        assert(pre.ready_for((tps[j].0, tps[j].1)));
                        assert((tps[j].0, tps[j].1) != tp@);
                        assert(self.storage_engine.next_offset((tps[j].0, tps[j].1)) == pre.storage_engine.next_offset((tps[j].0, tps[j].1)));
                    }
                    assert(pre.ready_for(tp@));
                    if flushed is Err {
                        if self.known().contains_key(tp@) {
                            assert(pre.known().contains_key(tp@));
                            assert(pre.storage_engine.tracks(tp@));
                        }
                    }
                }
            }
            match flushed {
                Ok(()) => {},
                Err(e) => {
                    proof {
                        assert(k < topic@.1);
                        assert(self.known() == with_partitions(old(self).known(), topic_partitions(topic@).take(k as int)));
                    }
                    return Err(BrokerError { message: e.message });
                },
            }
            let ghost mid = *self;
            let p = created[k].duplicate();
            put_partition(&mut self.partitions, p);
            proof {
                if ready {
                    assert forall|j: int| k < j < tps.len() implies #[trigger] self.ready_for((tps[j].0, tps[j].1)) by {
                        assert(mid.ready_for((tps[j].0, tps[j].1)));
                    }
                    assert(mid.storage_engine.tracks(tp@));
                    assert forall|x: PartitionKey| #[trigger] self.known().contains_key(x) && valid_name(x.0) implies self.storage_engine.tracks(x) by {
                        if x != tp@ {
                            assert(mid.known().contains_key(x));
                        }
                    }
                }
                assert(tps.take(k + 1).drop_last() =~= tps.take(k as int));
                assert(tps.take(k + 1).last() == created@[k as int]@);
                assert forall|j: int| 0 <= j < k + 1 implies #[trigger] self.next_offset((tps[j].0, tps[j].1)) is Some by {
                    if j < k {
                        assert(tps[j] == (topic@.0, j as u32, topic@.2));
                        assert(tps[k as int] == (topic@.0, k as u32, topic@.2));
                        assert(tps[j].1 != tps[k as int].1);
                        assert(pre.next_offset((tps[j].0, tps[j].1)) is Some);
                    }
                }
            }
            k = k + 1;
        }
        proof {
            assert(tps.take(created@.len() as int) =~= tps);
            assert forall|i: u32| i < topic@.1 implies #[trigger] self.next_offset((topic@.0, i)) is Some by {
                assert(partition_views(created@).len() == created@.len());
                assert(tps[i as int] == (topic@.0, i, topic@.2));
                assert(self.next_offset((tps[i as int].0, tps[i as int].1)) is Some);
            }
        }
        Ok(created)
    }

    /// Forgets the partitions of topic `topic_name`.
    pub fn delete_partitions_for_topic(&mut self, topic_name: &TopicName)
        requires
            old(self).wf(),
        ensures
            final(self).wf(),
            final(self).storage_engine == old(self).storage_engine,
            final(self).known() == old(self).known().restrict(
                old(self).known().dom().filter(key_not_of_topic(topic_name@)),
            ),
    {
        let ghost before = partition_views(self.partitions@);
        let mut all: Vec<Partition> = Vec::new();
        std::mem::swap(&mut all, &mut self.partitions);
        let mut kept: Vec<Partition> = Vec::new();
        let ghost mut taken: Seq<PartitionView> = Seq::empty();
        let ghost keep = not_of_topic(topic_name@);
        proof {
            assert(taken.filter(keep) =~= Seq::<PartitionView>::empty()) by {
                reveal(Seq::filter);
            }
            assert(taken + partition_views(all@) =~= before);
        }
        while all.len() > 0
            invariant
                taken + partition_views(all@) == before,
                partition_views(kept@) == taken.filter(keep),
                keep == not_of_topic(topic_name@),
            decreases all@.len(),
        {
            let ghost r0 = partition_views(all@);
            let p = all.remove(0);
            proof {
                assert(r0 =~= seq![p@] + partition_views(all@));
                taken.lemma_filter_push(p@, keep);
                assert(taken.push(p@) + partition_views(all@) =~= taken + r0);
            }
            let ghost pv = p@;
            if !p.topic.same_as(topic_name) {
                let ghost k0 = partition_views(kept@);
                kept.push(p);
                proof {
                    assert(partition_views(kept@) =~= k0.push(pv));
                }
            }
            proof {
                taken = taken.push(pv);
            }
        }
        proof {
            assert(taken + partition_views(all@) =~= taken);
            lemma_filter_map(before, topic_name@);
        }
        self.partitions = kept;
    }

    /// The message of a partition that does not exist.
    fn missing_partition(tp: &TopicPartition) -> (e: BrokerError)
        ensures
            e.message@ == missing_partition_message(tp@),
    {
        let digits = decimal_chars(tp.partition_id.value as u64);
        let number = string_from_chars(digits.as_slice());
        let head = concat3("Partition '", tp.topic.as_str(), ":");
        let body = concat(head.as_str(), number.as_str());
        BrokerError { message: concat(body.as_str(), "' does not exist") }
    }

    /// Whether partition `tp` is known, else the error that says it is not.
    fn ensure_partition_exists(&self, tp: &TopicPartition) -> (r: Result<(), BrokerError>)
        requires
            self.wf(),
        ensures
            r is Ok <==> self.known().contains_key(tp@),
            r matches Err(e) ==> e.message@ == missing_partition_message(tp@),
    {
        match position_of_partition(&self.partitions, tp) {
            Some(i) => {
                proof {
                    lemma_partition_map_at(partition_views(self.partitions@), i as int);
                }
                Ok(())
            },
            None => {
                proof {
                    if keyed(partition_views(self.partitions@), tp@) {
                        let j = choose|j: int|
                            0 <= j < partition_views(self.partitions@).len() && #[trigger] partition_key(
                                partition_views(self.partitions@)[j],
                            ) == tp@;
                        assert(partition_key(self.partitions@[j]@) == tp@);
                    }
                }
                Err(Self::missing_partition(tp))
            },
        }
    }

    /// Appends a record to a known partition.
    pub fn append(
        &mut self,
        topic_name: &TopicName,
        partition_id: PartitionId,
        key: Option<RecordKey>,
        payload: RecordPayload,
    ) -> (r: Result<StoredRecordMetadata, BrokerError>)
        requires
            old(self).wf(),
        ensures
            final(self).wf(),
            final(self).partitions == old(self).partitions,
            !old(self).known().contains_key((topic_name@, partition_id.value)) ==> (r matches Err(e)
                && e.message@ == missing_partition_message((topic_name@, partition_id.value)) && *final(self)
                == *old(self)),
            r matches Ok(m) ==> {
                &&& m.partition@ == (topic_name@, partition_id.value)
                &&& final(self).next_offset(m.partition@) matches Some(n) && n == m.offset.value + 1
                &&& old(self).next_offset(m.partition@) matches Some(o) ==> m.offset.value == o
            },
            r matches Ok(m) ==> exists|ts: u128|
                #![trigger appended_record(m.partition@, m.offset.value, key_view(key), payload.bytes@, ts)]
                {
                    let rec = appended_record(m.partition@, m.offset.value, key_view(key), payload.bytes@, ts);
                    &&& final(self).storage_engine.last_written(m.partition@, rec)
                    &&& old(self).storage_engine.tracks(m.partition@) && ts <= u64::MAX ==> forall|all1: Seq<RecordView>|
                        #[trigger] final(self).storage_engine.holds_log(m.partition@, all1) ==> ends_with_record(all1, rec)
                    &&& old(self).storage_engine.tracks(m.partition@) && ts <= u64::MAX && final(self).storage_engine.has_room(
                        m.partition@,
                    ) ==> final(self).storage_engine.tracks(m.partition@)
                },
            old(self).all_tracked() ==> final(self).all_tracked_but((topic_name@, partition_id.value)),
    {
        let tp = TopicPartition::new(topic_name.duplicate(), partition_id);
        match self.ensure_partition_exists(&tp) {
            Ok(()) => {},
            Err(e) => return Err(e),
        }
        topic_name.lemma_valid();
        let ghost before = *self;
        let r = self.storage_engine.append(&tp, key, payload);
        proof {
            if before.all_tracked() {
                assert(before.storage_engine.tracks(tp@));
                assert forall|x: PartitionKey| #[trigger] self.known().contains_key(x) && valid_name(x.0) && x != tp@ implies self.storage_engine.tracks(x) by {
                    assert(before.known().contains_key(x));
                    assert(before.storage_engine.tracks(x));
                }
            }
        }
        match r {
            Ok(m) => Ok(m),
            Err(e) => Err(BrokerError { message: e.message }),
        }
    }

    /// At most `max_records` records of a known partition from `offset` on.
    pub fn read(&mut self, topic_name: &TopicName, partition_id: PartitionId, offset: Offset, max_records: usize) -> (r:
        Result<Vec<Record>, BrokerError>)
        requires
            old(self).wf(),
        ensures
            final(self).wf(),
            final(self).partitions == old(self).partitions,
            !old(self).known().contains_key((topic_name@, partition_id.value)) ==> (r matches Err(e)
                && e.message@ == missing_partition_message((topic_name@, partition_id.value)) && *final(self)
                == *old(self)),
            r matches Ok(rs) ==> rs@.len() <= max_records && forall|i: int|
                0 <= i < rs@.len() ==> (#[trigger] rs@[i])@.topic == topic_name@ && rs@[i]@.partition_id
                    == partition_id.value && rs@[i]@.offset >= offset.value,
            r is Ok ==> final(self).next_offset((topic_name@, partition_id.value)) is Some && (old(self).next_offset(
                (topic_name@, partition_id.value),
            ) is Some ==> final(self).next_offset((topic_name@, partition_id.value)) == old(self).next_offset(
                (topic_name@, partition_id.value),
            )),
            r matches Ok(rs) ==> (max_records > 0 ==> exists|all: Seq<RecordView>|
                #[trigger] final(self).storage_engine.holds_log((topic_name@, partition_id.value), all) && record_views(rs@)
                    == read_window(all, offset.value, max_records as nat)),
            old(self).next_offset((topic_name@, partition_id.value)) is Some ==> *final(self) == *old(self),
            old(self).all_tracked() ==> final(self).all_tracked(),
    {
        let tp = TopicPartition::new(topic_name.duplicate(), partition_id);
        match self.ensure_partition_exists(&tp) {
            Ok(()) => {},
            Err(e) => return Err(e),
        }
        topic_name.lemma_valid();
        let ghost before = *self;
        let r = self.storage_engine.read(&tp, offset, max_records);
        proof {
            if before.all_tracked() {
                assert forall|x: PartitionKey| #[trigger] self.known().contains_key(x) && valid_name(x.0) implies self.storage_engine.tracks(x) by {
                    assert(before.known().contains_key(x));
                    assert(before.storage_engine.tracks(x));
                }
            }
        }
        match r {
            Ok(rs) => Ok(rs),
            Err(e) => Err(BrokerError { message: e.message }),
        }
    }

    /// The partition `partition_id` of topic `topic_name`, if known.
    pub fn get_partition(&self, topic_name: &TopicName, partition_id: PartitionId) -> (r: Option<&Partition>)
        requires
            self.wf(),
        ensures
            r matches Some(p) ==> self.known().contains_key((topic_name@, partition_id.value)) && self.known()[(
                topic_name@,
                partition_id.value,
            )] == p@,
            r is None ==> !self.known().contains_key((topic_name@, partition_id.value)),
    {
        let tp = TopicPartition::new(topic_name.duplicate(), partition_id);
        match position_of_partition(&self.partitions, &tp) {
            Some(i) => {
                proof {
                    lemma_partition_map_at(partition_views(self.partitions@), i as int);
                }
                Some(&self.partitions[i])
            },
            None => {
                proof {
                    if keyed(partition_views(self.partitions@), tp@) {
                        let j = choose|j: int|
                            0 <= j < partition_views(self.partitions@).len() && #[trigger] partition_key(
                                partition_views(self.partitions@)[j],
                            ) == tp@;
                        assert(partition_key(self.partitions@[j]@) == tp@);
                    }
                }
                None
            },
        }
    }

    /// The partitions of topic `topic_name`, by number.
    pub fn list_partitions(&self, topic_name: &TopicName) -> (r: Vec<Partition>)
        requires
            self.wf(),
        ensures
            partition_views(r@).to_multiset() == partition_views(self.partitions@).filter(
                |v: PartitionView| v.0 == topic_name@,
            ).to_multiset(),
            forall|i: int, j: int| 0 <= i < j < r@.len() ==> (#[trigger] r@[i]).id.value < (#[trigger] r@[j]).id.value,
    {
        let ghost of_topic = |v: PartitionView| v.0 == topic_name@;
        let ghost all = partition_views(self.partitions@);
        let mut out: Vec<Partition> = Vec::new();
        let mut k: usize = 0;
        proof {
            assert(all.take(0).filter(of_topic) =~= Seq::<PartitionView>::empty()) by {
                reveal(Seq::filter);
            }
        }
        while k < self.partitions.len()
            invariant
                self.wf(),
                all == partition_views(self.partitions@),
                of_topic == (|v: PartitionView| v.0 == topic_name@),
                k <= all.len(),
                partition_views(out@).to_multiset() == all.take(k as int).filter(of_topic).to_multiset(),
                forall|i: int| 0 <= i < out@.len() ==> (#[trigger] out@[i])@.0 == topic_name@,
                forall|i: int, j: int|
                    0 <= i < j < out@.len() ==> (#[trigger] out@[i]).id.value < (#[trigger] out@[j]).id.value,
                forall|i: int| 0 <= i < out@.len() ==> exists|m: int| 0 <= m < k && (#[trigger] out@[i])@ == all[m],
            decreases all.len() - k,
        {
            proof {
                assert(all.take(k + 1) =~= all.take(k as int).push(all[k as int]));
                all.take(k as int).lemma_filter_push(all[k as int], of_topic);
            }
            if self.partitions[k].topic.same_as(topic_name) {
                let p = self.partitions[k].duplicate();
                let id = p.id.value;
                let mut pos: usize = 0;
                while pos < out.len() && out[pos].id.value < id
                    invariant
                        pos <= out@.len(),
                        forall|j: int| 0 <= j < pos ==> (#[trigger] out@[j]).id.value < id,
                    decreases out@.len() - pos,
                {
                    pos = pos + 1;
                }
                let ghost before = out@;
                proof {
                    if pos < out@.len() {
                        let m = choose|m: int| 0 <= m < k && out@[pos as int]@ == all[m];
                        assert(out@[pos as int]@.0 == topic_name@);
                        assert(partition_key(all[m]) != partition_key(all[k as int]));
                        assert(out@[pos as int].id.value != id);
                    }
                }
                out.insert(pos, p);
                proof {
                    assert(partition_views(out@) =~= partition_views(before).insert(pos as int, all[k as int]));
                    lemma_insert_multiset(partition_views(before), pos as int, all[k as int]);
                    assert forall|i: int, j: int|
                        0 <= i < j < out@.len() implies (#[trigger] out@[i]).id.value < (#[trigger] out@[j]).id.value by {
                        if j < pos {
                            assert(out@[i] == before[i] && out@[j] == before[j]);
                        } else if j == pos {
                            assert(out@[i] == before[i]);
                        } else if i == pos {
                            assert(out@[j] == before[j - 1]);
                            if j - 1 > pos {
                                assert(before[pos as int].id.value < before[j - 1].id.value);
                            }
                        } else if i < pos {
                            assert(out@[i] == before[i] && out@[j] == before[j - 1]);
                        } else {
                            assert(out@[i] == before[i - 1] && out@[j] == before[j - 1]);
                        }
                    }
                    assert forall|i: int| 0 <= i < out@.len() implies exists|m: int| 0 <= m < k + 1 && (#[trigger] out@[i])@ == all[m] by {
                        if i < pos {
                            assert(out@[i] == before[i]);
                        } else if i > pos {
                            assert(out@[i] == before[i - 1]);
                        } else {
                            assert(out@[i]@ == all[k as int]);
                        }
                    }
                }
            }
            k = k + 1;
        }
        proof {
            assert(all.take(all.len() as int) =~= all);
        }
        out
    }

    /// Recovers the storage engine, then recreates the partitions of
    /// `topics`.
    pub fn recover(&mut self, topics: &[Topic]) -> (r: Result<(), BrokerError>)
        requires
            old(self).wf(),
        ensures
            final(self).wf(),
            r is Ok ==> final(self).known() == with_partitions(
                Map::<PartitionKey, PartitionView>::empty(),
                all_topic_partitions(topics@.map_values(|t: Topic| t@)),
            ),
            r is Ok ==> forall|q: PartitionKey|
                valid_name(q.0) && #[trigger] old(self).storage_engine.well_stored(q) ==> final(self).storage_engine.tracks(q),
    {
        match self.storage_engine.recover() {
            Ok(()) => {},
            Err(e) => return Err(BrokerError { message: e.message }),
        }
        self.partitions = Vec::new();
        let ghost views = topics@.map_values(|t: Topic| t@);
        let mut k: usize = 0;
        proof {
            assert(self.known() =~= Map::<PartitionKey, PartitionView>::empty());
            assert(views.take(0) =~= Seq::<(Seq<char>, u32, u64)>::empty());
        }
        while k < topics.len()
            invariant
                self.wf(),
                k <= topics@.len(),
                views == topics@.map_values(|t: Topic| t@),
                self.known() == with_partitions(Map::<PartitionKey, PartitionView>::empty(), all_topic_partitions(views.take(k as int))),
                forall|q: PartitionKey|
                    valid_name(q.0) && #[trigger] old(self).storage_engine.well_stored(q) ==> self.storage_engine.tracks(q),
            decreases topics@.len() - k,
        {
            let ghost before = self.known();
            let ghost pre = *self;
            match self.create_partitions_for_topic(&topics[k]) {
                Ok(_) => {},
                Err(e) => return Err(e),
            }
            proof {
                assert forall|q: PartitionKey|
                    valid_name(q.0) && #[trigger] old(self).storage_engine.well_stored(q) implies self.storage_engine.tracks(q) by {
                    assert(pre.storage_engine.tracks(q));
                }
                assert(views.take(k + 1).drop_last() =~= views.take(k as int));
                assert(views.take(k + 1).last() == topics@[k as int]@);
                lemma_with_partitions_concat(
                    Map::<PartitionKey, PartitionView>::empty(),
                    all_topic_partitions(views.take(k as int)),
                    topic_partitions(topics@[k as int]@),
                );
            }
            k = k + 1;
        }
        proof {
            assert(views.take(topics@.len() as int) =~= views);
        }
        Ok(())
    }

    /// Gives back the storage engine.
    pub fn into_storage_engine(self) -> (s: S)
        ensures
            s == self.storage_engine,
    {
        self.storage_engine
    }
}

/// The partitions of every topic of `ts`, one topic after the other.
pub open spec fn all_topic_partitions(ts: Seq<(Seq<char>, u32, u64)>) -> Seq<PartitionView>
    decreases ts.len(),
{
    if ts.len() == 0 {
        Seq::empty()
    } else {
        all_topic_partitions(ts.drop_last()) + topic_partitions(ts.last())
    }
}

proof fn lemma_with_partitions_concat(m: Map<PartitionKey, PartitionView>, a: Seq<PartitionView>, b: Seq<PartitionView>)
    ensures
        with_partitions(m, a + b) == with_partitions(with_partitions(m, a), b),
    decreases b.len(),
{
    if b.len() == 0 {
        assert(a + b =~= a);
    } else {
        assert((a + b).drop_last() =~= a + b.drop_last());
        lemma_with_partitions_concat(m, a, b.drop_last());
    }
}

proof fn lemma_insert_multiset<T>(s: Seq<T>, k: int, x: T)
    requires
        0 <= k <= s.len(),
    ensures
        s.insert(k, x).to_multiset() =~= s.to_multiset().insert(x),
{
    broadcast use vstd::seq_lib::group_to_multiset_ensures;

    let t = s.insert(k, x);
    assert(t.remove(k) =~= s);
    assert(t[k] == x);
    assert(t.to_multiset().remove(x) =~= s.to_multiset());
    assert(t.to_multiset().count(x) > 0);
}

/// Filtering keeps distinct keys distinct.
proof fn lemma_filter_sub(s: Seq<PartitionView>, p: spec_fn(PartitionView) -> bool)
    requires
        distinct_keys(s),
    ensures
        distinct_keys(s.filter(p)),
        forall|i: int| 0 <= i < s.filter(p).len() ==> s.contains(#[trigger] s.filter(p)[i]),
        forall|i: int| 0 <= i < s.len() && p(#[trigger] s[i]) ==> s.filter(p).contains(s[i]),
        forall|i: int| 0 <= i < s.filter(p).len() ==> p(#[trigger] s.filter(p)[i]),
    decreases s.len(),
{
    reveal(Seq::filter);
    if s.len() > 0 {
        let d = s.drop_last();
        assert forall|i: int, j: int| 0 <= i < j < d.len() implies partition_key(#[trigger] d[i]) != partition_key(#[trigger] d[j]) by {
            assert(d[i] == s[i] && d[j] == s[j]);
        }
        lemma_filter_sub(d, p);
        let f = s.filter(p);
        let fd = d.filter(p);
        assert forall|i: int| 0 <= i < fd.len() implies s.contains(#[trigger] fd[i]) by {
            let m = choose|m: int| 0 <= m < d.len() && d[m] == fd[i];
            assert(s[m] == d[m]);
        }
        if p(s.last()) {
            assert(f == fd.push(s.last()));
            assert forall|a: int, b: int| 0 <= a < b < f.len() implies partition_key(#[trigger] f[a]) != partition_key(#[trigger] f[b]) by {
                if b < fd.len() {
                    assert(f[a] == fd[a] && f[b] == fd[b]);
                } else {
                    assert(f[a] == fd[a]);
                    let m = choose|m: int| 0 <= m < d.len() && d[m] == fd[a];
                    assert(s[m] == d[m]);
                    assert(partition_key(s[m]) != partition_key(s[s.len() - 1]));
                }
            }
            assert forall|i: int| 0 <= i < f.len() implies s.contains(#[trigger] f[i]) by {
                if i < fd.len() {
                    assert(f[i] == fd[i]);
                } else {
                    assert(f[i] == s[s.len() - 1]);
                }
            }
            assert forall|i: int| 0 <= i < s.len() && p(#[trigger] s[i]) implies f.contains(s[i]) by {
                if i < s.len() - 1 {
                    assert(d[i] == s[i]);
                    assert(fd.contains(d[i]));
                    let m = choose|m: int| 0 <= m < fd.len() && fd[m] == d[i];
                    assert(f[m] == fd[m]);
                } else {
                    assert(f[f.len() - 1] == s[i]);
                }
            }
            assert forall|i: int| 0 <= i < f.len() implies p(#[trigger] f[i]) by {
                if i < fd.len() {
                    assert(f[i] == fd[i]);
                }
            }
        } else {
            assert(f == fd);
            assert forall|i: int| 0 <= i < s.len() && p(#[trigger] s[i]) implies f.contains(s[i]) by {
                assert(i < s.len() - 1);
                assert(d[i] == s[i]);
                assert(fd.contains(d[i]));
            }
        }
    }
}

/// The map of the partitions that pass a test on their topic is the map of
/// all, restricted to the keys whose topic passes it.
proof fn lemma_filter_map(s: Seq<PartitionView>, n: Seq<char>)
    requires
        distinct_keys(s),
    ensures
        distinct_keys(s.filter(not_of_topic(n))),
        partition_map(s.filter(not_of_topic(n))) == partition_map(s).restrict(
            partition_map(s).dom().filter(key_not_of_topic(n)),
        ),
{
    let p = not_of_topic(n);
    lemma_filter_sub(s, p);
    let f = s.filter(p);
    let m = partition_map(s).restrict(partition_map(s).dom().filter(key_not_of_topic(n)));
    assert forall|k: PartitionKey| #[trigger] partition_map(f).contains_key(k) == m.contains_key(k) by {
        if keyed(f, k) {
            let j = choose|j: int| 0 <= j < f.len() && #[trigger] partition_key(f[j]) == k;
            assert(s.contains(f[j]));
            let i = choose|i: int| 0 <= i < s.len() && s[i] == f[j];
            assert(partition_key(s[i]) == k);
            assert(p(f[j]));
        }
        if m.contains_key(k) {
            let i = choose|i: int| 0 <= i < s.len() && #[trigger] partition_key(s[i]) == k;
            assert(f.contains(s[i]));
            let j = choose|j: int| 0 <= j < f.len() && f[j] == s[i];
            assert(partition_key(f[j]) == k);
        }
    }
    assert forall|k: PartitionKey| partition_map(f).contains_key(k) implies #[trigger] partition_map(f)[k] == m[k] by {
        let j = choose|j: int| 0 <= j < f.len() && #[trigger] partition_key(f[j]) == k;
        lemma_partition_map_at(f, j);
        assert(s.contains(f[j]));
        let i = choose|i: int| 0 <= i < s.len() && s[i] == f[j];
        lemma_partition_map_at(s, i);
    }
    assert(partition_map(f) =~= m);
}

} // verus!
