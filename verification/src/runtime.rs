//! The broker's runtime: its topics, partitions and consumer groups, and
//! the handling of each kind of request.
use vstd::prelude::*;
use vstd::utf8::encode_utf8;

use crate::consumer_group::ConsumerGroupManager;
use crate::filesystem::FileSystem;
use crate::model::{
    BrokerError, ConsumerGroupId, Offset, PartitionConfiguration, PartitionId, Record, RecordKey,
    RecordPayload, TopicName, TopicPartition,
};
use crate::model::{PartitionKey, PartitionView, Topic, TopicView};
use crate::order::{lemma_map_values_multiset, text_le};
use crate::offsets::{offsets_path, offsets_text};
use crate::partition_log::read_window;
use crate::record_codec::record_views;
use crate::storage::{appended_record, ends_with_record};
use crate::model::{key_view, RecordView};
use crate::partition_manager::{
    all_topic_partitions, missing_partition_message, topic_partitions, with_partitions, PartitionManager,
};
use crate::storage::StorageEngine;
use crate::topic_manager::{exists_message, topic_views, TopicManager};
use crate::text::valid_name;

verus! {

/// The names of a sequence of topic names.
pub open spec fn name_views(s: Seq<TopicName>) -> Seq<Seq<char>> {
    s.map_values(|n: TopicName| n@)
}

/// The names of a sequence of topics.
pub open spec fn topic_names(s: Seq<Topic>) -> Seq<Seq<char>> {
    s.map_values(|t: Topic| t.name@)
}

/// Engine `after` wrote, at offset `offset` of partition `p`, a record of
/// key `key` and payload `payload` (stamped with some time `ts`); when
/// `before` tracked the partition and the time fits in a `u64`, every
/// reading of the partition's log ends with that record, and `after` still
/// tracks the partition if its state leaves room for more.
pub open spec fn produced<S: StorageEngine>(
    before: S,
    after: S,
    p: PartitionKey,
    offset: u64,
    key: Option<Seq<u8>>,
    payload: Seq<u8>,
) -> bool {
    exists|ts: u128| #[trigger] produced_at(before, after, p, offset, key, payload, ts)
}

/// `produced`, with the time `ts` the record was stamped with.
pub open spec fn produced_at<S: StorageEngine>(
    before: S,
    after: S,
    p: PartitionKey,
    offset: u64,
    key: Option<Seq<u8>>,
    payload: Seq<u8>,
    ts: u128,
) -> bool {
    let rec = appended_record(p, offset, key, payload, ts);
    &&& after.last_written(p, rec)
    &&& before.tracks(p) && ts <= u64::MAX ==> forall|all1: Seq<RecordView>|
        #[trigger] after.holds_log(p, all1) ==> ends_with_record(all1, rec)
    &&& before.tracks(p) && ts <= u64::MAX && after.has_room(p) ==> after.tracks(p)
}

/// What a client asks of the broker.
pub enum RequestPayload {
    Produce { topic: TopicName, partition_id: PartitionId, key: Option<RecordKey>, payload: RecordPayload },
    Fetch { topic: TopicName, partition_id: PartitionId, offset: Offset, max_records: u32 },
    CreateTopic { topic: TopicName, partition_count: u32, segment_max_bytes: u64 },
    CommitOffset { group_id: ConsumerGroupId, topic: TopicName, partition_id: PartitionId, offset: Offset },
    ListTopics,
}

/// What the broker answers a request that succeeded.
pub enum ResponsePayload {
    Produce { partition: TopicPartition, offset: Offset },
    Fetch { records: Vec<Record> },
    CreateTopic { topic: TopicName },
    CommitOffset { offset: Offset },
    ListTopics { topics: Vec<TopicName> },
}

/// The broker's state and the handling of requests.
pub struct BrokerRuntime<F: FileSystem, S: StorageEngine, G: FileSystem> {
    pub topic_manager: TopicManager<F>,
    pub partition_manager: PartitionManager<S>,
    pub consumer_group_manager: ConsumerGroupManager<G>,
}

impl<F: FileSystem, S: StorageEngine, G: FileSystem> BrokerRuntime<F, S, G> {
    pub open spec fn wf(&self) -> bool {
        &&& self.topic_manager.wf()
        &&& self.partition_manager.wf()
        &&& self.consumer_group_manager.wf()
    }

    /// The storage engine tracks every partition the runtime knows, so that
    /// what is produced to one is what a fetch from it reads back.
    pub open spec fn tracking(&self) -> bool {
        self.partition_manager.all_tracked()
    }

    pub fn new(
        topic_manager: TopicManager<F>,
        partition_manager: PartitionManager<S>,
        consumer_group_manager: ConsumerGroupManager<G>,
    ) -> (r: Self)
        requires
            topic_manager.wf(),
            partition_manager.wf(),
            consumer_group_manager.wf(),
        ensures
            r.wf(),
            r.topic_manager == topic_manager,
            r.partition_manager == partition_manager,
            r.consumer_group_manager == consumer_group_manager,
            partition_manager.all_tracked() ==> r.tracking(),
    {
        BrokerRuntime { topic_manager, partition_manager, consumer_group_manager }
    }

    /// Recovers the topics from their metadata, then the partitions of
    /// every topic.
    pub fn recover(&mut self) -> (r: Result<(), BrokerError>)
        requires
            old(self).wf(),
        ensures
            final(self).wf(),
            final(self).consumer_group_manager == old(self).consumer_group_manager,
            r is Ok ==> exists|listed: Seq<Topic>|
                {
                    &&& #[trigger] topic_views(listed).to_multiset() == topic_views(final(self).topic_manager.topics@).to_multiset()
                    &&& final(self).partition_manager.known() == with_partitions(
                        Map::<PartitionKey, PartitionView>::empty(),
                        all_topic_partitions(listed.map_values(|t: Topic| t@)),
                    )
                },
            r is Ok ==> forall|q: PartitionKey|
                valid_name(q.0) && #[trigger] old(self).partition_manager.storage_engine.well_stored(q)
                    ==> final(self).partition_manager.storage_engine.tracks(q),
    {
        match self.topic_manager.recover() {
            Ok(()) => {},
            Err(e) => return Err(e),
        }
        let topics = self.topic_manager.list_topics();
        let r = self.partition_manager.recover(topics.as_slice());
        proof {
            if r is Ok {
                assert(topic_views(topics@).to_multiset() == topic_views(self.topic_manager.topics@).to_multiset());
            }
        }
        r
    }

    /// Handles one request.
    #[verifier::spinoff_prover]
    #[verifier::rlimit(40)]
    pub fn dispatch(&mut self, request: RequestPayload) -> (r: Result<ResponsePayload, BrokerError>)
        requires
            old(self).wf(),
        ensures
            final(self).wf(),
            match request {
                RequestPayload::Produce { topic, partition_id, key, payload } => {
                    &&& !old(self).partition_manager.known().contains_key((topic@, partition_id.value)) ==> (r matches Err(e)
                        && e.message@ == missing_partition_message((topic@, partition_id.value))
                        && final(self).partition_manager == old(self).partition_manager)
                    &&& r matches Ok(resp) ==> (resp matches ResponsePayload::Produce { partition, offset }
                        && produced(
                        old(self).partition_manager.storage_engine,
                        final(self).partition_manager.storage_engine,
                        partition@,
                        offset.value,
                        key_view(key),
                        payload.bytes@,
                    ))
                    &&& r matches Ok(resp) ==> (resp matches ResponsePayload::Produce { partition, offset }
                        && partition@ == (topic@, partition_id.value) && (final(self).partition_manager.next_offset(
                        partition@,
                    ) matches Some(n) && n == offset.value + 1) && (old(self).partition_manager.next_offset(
                        partition@,
                    ) matches Some(o) ==> offset.value == o))
                    &&& r is Ok && old(self).tracking() ==> old(self).partition_manager.storage_engine.tracks(
                        (topic@, partition_id.value),
                    )
                    &&& old(self).tracking() ==> final(self).partition_manager.all_tracked_but((topic@, partition_id.value))
                    &&& old(self).tracking() && final(self).partition_manager.storage_engine.tracks(
                        (topic@, partition_id.value),
                    ) ==> final(self).tracking()
                    &&& final(self).topic_manager == old(self).topic_manager
                    &&& final(self).consumer_group_manager == old(self).consumer_group_manager
                },
                RequestPayload::Fetch { topic, partition_id, offset, max_records } => {
                    &&& !old(self).partition_manager.known().contains_key((topic@, partition_id.value)) ==> (r matches Err(e)
                        && e.message@ == missing_partition_message((topic@, partition_id.value)) && *final(self)
                        == *old(self))
                    &&& r matches Ok(resp) ==> (resp matches ResponsePayload::Fetch { records } && (max_records > 0
                        ==> exists|all: Seq<RecordView>|
                        #[trigger] final(self).partition_manager.storage_engine.holds_log((topic@, partition_id.value), all)
                            && record_views(records@) == read_window(all, offset.value, max_records as nat)))
                    &&& old(self).partition_manager.next_offset((topic@, partition_id.value)) is Some ==> final(self).partition_manager
                        == old(self).partition_manager
                    &&& r matches Ok(resp) ==> (resp matches ResponsePayload::Fetch { records } && records@.len()
                        <= max_records && forall|i: int|
                        0 <= i < records@.len() ==> (#[trigger] records@[i])@.topic == topic@ && records@[i]@.partition_id
                            == partition_id.value && records@[i]@.offset >= offset.value)
                    &&& old(self).tracking() ==> final(self).tracking()
                    &&& final(self).topic_manager == old(self).topic_manager
                    &&& final(self).consumer_group_manager == old(self).consumer_group_manager
                },
                RequestPayload::CreateTopic { topic, partition_count, segment_max_bytes } => {
                    &&& segment_max_bytes == 0 ==> (r matches Err(e) && e.message@
                        == "segment_max_bytes must be greater than zero"@ && *final(self) == *old(self))
                    &&& segment_max_bytes > 0 && (old(self).topic_manager.known().contains_key(topic@)
                        || old(self).topic_manager.has_metadata(topic@)) ==> (r matches Err(e) && e.message@ == exists_message(
                        topic@,
                    ) && *final(self) == *old(self))
                    &&& segment_max_bytes > 0 && !(old(self).topic_manager.known().contains_key(topic@)
                        || old(self).topic_manager.has_metadata(topic@)) && partition_count == 0 ==> (r matches Err(e)
                        && e.message@ == "partition_count must be greater than zero"@ && *final(self) == *old(self))
                    &&& final(self).topic_manager.known() != old(self).topic_manager.known() ==> final(self).topic_manager.known()
                        == old(self).topic_manager.known().insert(topic@, (topic@, partition_count, segment_max_bytes))
                    &&& r is Err && final(self).topic_manager.known() != old(self).topic_manager.known() ==> exists|k: int|
                        0 <= k < partition_count && final(self).partition_manager.known() == #[trigger] with_partitions(
                            old(self).partition_manager.known(),
                            topic_partitions((topic@, partition_count, segment_max_bytes)).take(k),
                        )
                    &&& r is Err && final(self).topic_manager.known() == old(self).topic_manager.known()
                        ==> final(self).partition_manager == old(self).partition_manager
                    &&& old(self).tracking() && (forall|i: u32|
                        i < partition_count ==> #[trigger] old(self).partition_manager.ready_for((topic@, i)))
                        ==> final(self).tracking()
                    &&& r is Ok ==> forall|i: u32|
                        i < partition_count ==> #[trigger] final(self).partition_manager.next_offset((topic@, i)) is Some
                    &&& r matches Ok(resp) ==> (resp matches ResponsePayload::CreateTopic { topic: t } && t@ == topic@
                        && final(self).topic_manager.known() == old(self).topic_manager.known().insert(
                        topic@,
                        (topic@, partition_count, segment_max_bytes),
                    ) && final(self).partition_manager.known() == with_partitions(
                        old(self).partition_manager.known(),
                        topic_partitions((topic@, partition_count, segment_max_bytes)),
                    ))
                    &&& final(self).consumer_group_manager == old(self).consumer_group_manager
                },
                RequestPayload::CommitOffset { group_id, topic, partition_id, offset } => final(self).topic_manager
                    == old(self).topic_manager && final(self).partition_manager == old(self).partition_manager && (r matches Ok(resp) ==> (
                resp matches ResponsePayload::CommitOffset { offset: o } && o == offset
                    && final(self).consumer_group_manager.loaded(group_id@)
                    && final(self).consumer_group_manager.committed(group_id@)
                    == old(self).consumer_group_manager.starting_offsets(group_id@).insert(
                    (topic@, partition_id.value),
                    offset.value,
                ) && exists|text: Seq<char>|
                    #![trigger encode_utf8(text)]
                    offsets_text(final(self).consumer_group_manager.committed_table(group_id@), text)
                        && final(self).consumer_group_manager.offset_store.file_system.files()
                        == old(self).consumer_group_manager.offset_store.file_system.files().insert(
                        offsets_path(old(self).consumer_group_manager.offset_store.root_directory@, group_id@),
                        encode_utf8(text),
                    ))),
                RequestPayload::ListTopics => r matches Ok(resp) && (resp matches ResponsePayload::ListTopics { topics }
                    && name_views(topics@).to_multiset() == topic_names(old(self).topic_manager.topics@).to_multiset()
                    && forall|i: int, j: int|
                    0 <= i < j < topics@.len() ==> text_le(#[trigger] topics@[i]@, #[trigger] topics@[j]@))
                    && *final(self) == *old(self),
            },
    {
        match request {
            RequestPayload::Produce { topic, partition_id, key, payload } => {
                let ghost kv = key_view(key);
                let ghost pv = payload.bytes@;
                let ghost before = self.partition_manager;
                topic.lemma_valid();
                proof {
                    if before.all_tracked() && before.known().contains_key((topic@, partition_id.value)) {
                        assert(before.storage_engine.tracks((topic@, partition_id.value)));
                    }
                }
                match self.partition_manager.append(&topic, partition_id, key, payload) {
                    Ok(m) => {
                        proof {
                            let ts = choose|ts: u128|
                                #![trigger appended_record(m.partition@, m.offset.value, kv, pv, ts)]
                                {
                                    let rec = appended_record(m.partition@, m.offset.value, kv, pv, ts);
                                    &&& self.partition_manager.storage_engine.last_written(m.partition@, rec)
                                    &&& before.storage_engine.tracks(m.partition@) && ts <= u64::MAX ==> forall|all1: Seq<RecordView>|
                                        #[trigger] self.partition_manager.storage_engine.holds_log(m.partition@, all1)
                                            ==> ends_with_record(all1, rec)
                                    &&& before.storage_engine.tracks(m.partition@) && ts <= u64::MAX
                                        && self.partition_manager.storage_engine.has_room(m.partition@)
                                        ==> self.partition_manager.storage_engine.tracks(m.partition@)
                                };
                            let rec = appended_record(m.partition@, m.offset.value, kv, pv, ts);
                            assert(self.partition_manager.storage_engine.last_written(m.partition@, rec));
                            assert(produced_at(before.storage_engine, self.partition_manager.storage_engine, m.partition@, m.offset.value, kv, pv, ts));
                        }
                        Ok(ResponsePayload::Produce { partition: m.partition, offset: m.offset })
                    },
                    Err(e) => Err(e),
                }
            },
            RequestPayload::Fetch { topic, partition_id, offset, max_records } => {
                match self.partition_manager.read(&topic, partition_id, offset, max_records as usize) {
                    Ok(records) => Ok(ResponsePayload::Fetch { records }),
                    Err(e) => Err(e),
                }
            },
            RequestPayload::CreateTopic { topic, partition_count, segment_max_bytes } => {
                let ghost name = topic@;
                let partition_config = match PartitionConfiguration::new(segment_max_bytes) {
                    Ok(c) => c,
                    Err(e) => return Err(BrokerError { message: e.message }),
                };
                let created = match self.topic_manager.create_topic(topic, partition_count, partition_config) {
                    Ok(t) => t,
                    Err(e) => return Err(e),
                };
                match self.partition_manager.create_partitions_for_topic(&created) {
                    Ok(_) => {},
                    Err(e) => return Err(e),
                }
                proof {
                    assert(self.topic_manager.known().contains_key(name));
                }
                Ok(ResponsePayload::CreateTopic { topic: created.name })
            },
            RequestPayload::CommitOffset { group_id, topic, partition_id, offset } => {
                let partition = TopicPartition::new(topic, partition_id);
                match self.consumer_group_manager.commit_offset(&group_id, partition, offset) {
                    Ok(o) => Ok(ResponsePayload::CommitOffset { offset: o }),
                    Err(e) => Err(e),
                }
            },
            RequestPayload::ListTopics => {
                let listed = self.topic_manager.list_topics();
                let mut topics: Vec<TopicName> = Vec::new();
                let mut k: usize = 0;
                while k < listed.len()
                    invariant
                        k <= listed@.len(),
                        topics@.len() == k,
                        forall|j: int| 0 <= j < k ==> #[trigger] topics@[j]@ == listed@[j].name@,
                    decreases listed@.len() - k,
                {
                    topics.push(listed[k].name.duplicate());
                    k = k + 1;
                }
                proof {
                    let a = topic_views(self.topic_manager.topics@);
                    let b = topic_views(listed@);
                    let name_of = |v: TopicView| v.0;
                    lemma_map_values_multiset(a, b, name_of);
                    assert(name_views(topics@) =~= b.map_values(name_of));
                    assert(topic_names(self.topic_manager.topics@) =~= a.map_values(name_of));
                }
                Ok(ResponsePayload::ListTopics { topics })
            },
        }
    }
}

/// A topic the broker knows is among the names that a listing of topics
/// answers: once a topic is created, listing the topics shows it.
pub proof fn law_known_topic_is_listed<F: FileSystem, S: StorageEngine, G: FileSystem>(
    runtime: &BrokerRuntime<F, S, G>,
    names: Seq<TopicName>,
    n: Seq<char>,
)
    requires
        runtime.wf(),
        runtime.topic_manager.known().contains_key(n),
        name_views(names).to_multiset() == topic_names(runtime.topic_manager.topics@).to_multiset(),
    ensures
        name_views(names).contains(n),
{
    broadcast use vstd::seq_lib::group_to_multiset_ensures;

    let ts = runtime.topic_manager.topics@;
    let s = topic_views(ts);
    let i = choose|i: int| 0 <= i < s.len() && #[trigger] s[i].0 == n;
    assert(topic_names(ts)[i] == n);
    assert(topic_names(ts).to_multiset().count(n) > 0);
    assert(name_views(names).to_multiset().count(n) > 0);
}

/// What a produce to a tracked partition stored is what a fetch from the
/// offset it was given answers (at least one record asked for): that record
/// alone, with the produced key and payload. A record stamped past
/// `u64::MAX` milliseconds cannot be read back, so the stamp must fit.
pub proof fn law_fetch_after_produce<S: StorageEngine>(
    before: S,
    after: S,
    p: PartitionKey,
    offset: u64,
    key: Option<Seq<u8>>,
    payload: Seq<u8>,
    ts: u128,
    all: Seq<RecordView>,
    n: nat,
)
    requires
        produced_at(before, after, p, offset, key, payload, ts),
        before.tracks(p),
        ts <= u64::MAX,
        after.holds_log(p, all),
        n >= 1,
    ensures
        read_window(all, offset, n) == seq![appended_record(p, offset, key, payload, ts)],
{
    crate::storage::law_fetch_returns_produced(&after, p, appended_record(p, offset, key, payload, ts), all, n);
}

} // verus!
