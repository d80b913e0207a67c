//! The broker's data model: identifiers, records, topics and partitions, and
//! the error values its components report.
use vstd::prelude::*;

use crate::text::{string_from_str, valid_name};

verus! {

/// An error reported by broker-level components.
#[derive(Debug)]
pub struct BrokerError {
    pub message: String,
}

/// An error reported by the storage layer.
#[derive(Debug)]
pub struct StorageError {
    pub message: String,
}

/// An error reported by the network layer.
#[derive(Debug)]
pub struct NetworkError {
    pub message: String,
}

/// A value that failed validation.
#[derive(Debug)]
pub struct ValidationError {
    pub message: String,
}

impl BrokerError {
    pub fn new(message: &str) -> (e: Self)
        ensures
            e.message@ == message@,
    {
        BrokerError { message: string_from_str(message) }
    }
}

impl StorageError {
    pub fn new(message: &str) -> (e: Self)
        ensures
            e.message@ == message@,
    {
        StorageError { message: string_from_str(message) }
    }
}

impl NetworkError {
    pub fn new(message: &str) -> (e: Self)
        ensures
            e.message@ == message@,
    {
        NetworkError { message: string_from_str(message) }
    }
}

/// The name of a topic. Names are non-empty and made of ASCII letters,
/// digits, `-`, `_` and `.`. This rule is this library's own: it keeps every
/// name a single, plain path component, which the storage layout and the
/// metadata files rely on.
pub struct TopicName {
    value: String,
}

impl View for TopicName {
    type V = Seq<char>;

    closed spec fn view(&self) -> Seq<char> {
        self.value@
    }
}

impl TopicName {
    #[verifier::type_invariant]
    spec fn well_formed(self) -> bool {
        valid_name(self.value@)
    }

    /// Every value of this type is a valid name.
    pub fn lemma_valid(&self)
        ensures
            valid_name(self@),
    {
        proof {
            use_type_invariant(self);
        }
    }

    pub fn new(value: String) -> (r: Result<TopicName, ValidationError>)
        ensures
            r is Ok <==> valid_name(value@),
            r matches Ok(t) ==> t@ == value@,
            r matches Err(e) ==> e.message@ == "Invalid topic name"@,
    {
        if crate::text::is_valid_name(value.as_str()) {
            Ok(TopicName { value })
        } else {
            Err(ValidationError { message: string_from_str("Invalid topic name") })
        }
    }

    pub fn as_str(&self) -> (s: &str)
        ensures
            s@ == self@,
    {
        self.value.as_str()
    }

    pub fn duplicate(&self) -> (r: Self)
        ensures
            r@ == self@,
    {
        proof {
            use_type_invariant(self);
        }
        TopicName { value: self.value.clone() }
    }

    pub fn same_as(&self, other: &TopicName) -> (b: bool)
        ensures
            b == (self@ == other@),
    {
        self.value == other.value
    }
}

/// The identifier of a consumer group. Identifiers follow the same rule as
/// topic names.
pub struct ConsumerGroupId {
    value: String,
}

impl View for ConsumerGroupId {
    type V = Seq<char>;

    closed spec fn view(&self) -> Seq<char> {
        self.value@
    }
}

impl ConsumerGroupId {
    #[verifier::type_invariant]
    spec fn well_formed(self) -> bool {
        valid_name(self.value@)
    }

    /// Every value of this type is a valid name.
    pub fn lemma_valid(&self)
        ensures
            valid_name(self@),
    {
        proof {
            use_type_invariant(self);
        }
    }

    pub fn new(value: String) -> (r: Result<ConsumerGroupId, ValidationError>)
        ensures
            r is Ok <==> valid_name(value@),
            r matches Ok(t) ==> t@ == value@,
            r matches Err(e) ==> e.message@ == "Invalid consumer group id"@,
    {
        if crate::text::is_valid_name(value.as_str()) {
            Ok(ConsumerGroupId { value })
        } else {
            Err(ValidationError { message: string_from_str("Invalid consumer group id") })
        }
    }

    pub fn as_str(&self) -> (s: &str)
        ensures
            s@ == self@,
    {
        self.value.as_str()
    }

    pub fn duplicate(&self) -> (r: Self)
        ensures
            r@ == self@,
    {
        proof {
            use_type_invariant(self);
        }
        ConsumerGroupId { value: self.value.clone() }
    }

    pub fn same_as(&self, other: &ConsumerGroupId) -> (b: bool)
        ensures
            b == (self@ == other@),
    {
        self.value == other.value
    }
}

/// The identifier of a consumer within its group. Identifiers follow the same
/// rule as topic names.
pub struct ConsumerId {
    value: String,
}

impl View for ConsumerId {
    type V = Seq<char>;

    closed spec fn view(&self) -> Seq<char> {
        self.value@
    }
}

impl ConsumerId {
    #[verifier::type_invariant]
    spec fn well_formed(self) -> bool {
        valid_name(self.value@)
    }

    /// Every value of this type is a valid name.
    pub fn lemma_valid(&self)
        ensures
            valid_name(self@),
    {
        proof {
            use_type_invariant(self);
        }
    }

    pub fn new(value: String) -> (r: Result<ConsumerId, ValidationError>)
        ensures
            r is Ok <==> valid_name(value@),
            r matches Ok(t) ==> t@ == value@,
            r matches Err(e) ==> e.message@ == "Invalid consumer id"@,
    {
        if crate::text::is_valid_name(value.as_str()) {
            Ok(ConsumerId { value })
        } else {
            Err(ValidationError { message: string_from_str("Invalid consumer id") })
        }
    }

    pub fn as_str(&self) -> (s: &str)
        ensures
            s@ == self@,
    {
        self.value.as_str()
    }

    pub fn duplicate(&self) -> (r: Self)
        ensures
            r@ == self@,
    {
        proof {
            use_type_invariant(self);
        }
        ConsumerId { value: self.value.clone() }
    }

    pub fn same_as(&self, other: &ConsumerId) -> (b: bool)
        ensures
            b == (self@ == other@),
    {
        self.value == other.value
    }
}

/// The index of a partition within its topic.
#[derive(Clone, Copy, PartialEq, Eq, Structural, Debug)]
pub struct PartitionId {
    pub value: u32,
}

impl PartitionId {
    pub fn new(value: u32) -> (p: Self)
        ensures
            p.value == value,
    {
        PartitionId { value }
    }

    pub fn value(&self) -> (v: u32)
        ensures
            v == self.value,
    {
        self.value
    }
}

/// The position of a record in its partition's log.
#[derive(Clone, Copy, PartialEq, Eq, Structural, Debug)]
pub struct Offset {
    pub value: u64,
}

impl Offset {
    pub fn new(value: u64) -> (o: Self)
        ensures
            o.value == value,
    {
        Offset { value }
    }

    pub fn zero() -> (o: Self)
        ensures
            o.value == 0,
    {
        Offset { value: 0 }
    }

    /// The offset that follows this one.
    pub fn next(&self) -> (o: Self)
        requires
            self.value < u64::MAX,
        ensures
            o.value == self.value + 1,
    {
        Offset { value: self.value + 1 }
    }

    pub fn value(&self) -> (v: u64)
        ensures
            v == self.value,
    {
        self.value
    }
}

/// A partition of a topic, named by the topic and its index.
pub struct TopicPartition {
    pub topic: TopicName,
    pub partition_id: PartitionId,
}

/// What identifies a partition: its topic's name and its index.
pub type PartitionKey = (Seq<char>, u32);

impl View for TopicPartition {
    type V = PartitionKey;

    open spec fn view(&self) -> PartitionKey {
        (self.topic@, self.partition_id.value)
    }
}

impl TopicPartition {
    pub fn new(topic: TopicName, partition_id: PartitionId) -> (p: Self)
        ensures
            p.topic@ == topic@,
            p.partition_id == partition_id,
    {
        TopicPartition { topic, partition_id }
    }

    pub fn topic(&self) -> (t: &TopicName)
        ensures
            t@ == self.topic@,
    {
        &self.topic
    }

    pub fn partition_id(&self) -> (p: PartitionId)
        ensures
            p == self.partition_id,
    {
        self.partition_id
    }

    pub fn duplicate(&self) -> (r: Self)
        ensures
            r@ == self@,
    {
        TopicPartition { topic: self.topic.duplicate(), partition_id: self.partition_id }
    }

    pub fn same_as(&self, other: &TopicPartition) -> (b: bool)
        ensures
            b == (self@ == other@),
    {
        self.partition_id.value == other.partition_id.value && self.topic.same_as(&other.topic)
    }
}

/// The key of a record: opaque bytes.
pub struct RecordKey {
    pub bytes: Vec<u8>,
}

/// The payload of a record: opaque bytes.
pub struct RecordPayload {
    pub bytes: Vec<u8>,
}

impl RecordKey {
    pub fn new(bytes: Vec<u8>) -> (k: Self)
        ensures
            k.bytes@ == bytes@,
    {
        RecordKey { bytes }
    }

    pub fn bytes(&self) -> (b: &[u8])
        ensures
            b@ == self.bytes@,
    {
        self.bytes.as_slice()
    }
}

impl RecordPayload {
    pub fn new(bytes: Vec<u8>) -> (p: Self)
        ensures
            p.bytes@ == bytes@,
    {
        RecordPayload { bytes }
    }

    pub fn bytes(&self) -> (b: &[u8])
        ensures
            b@ == self.bytes@,
    {
        self.bytes.as_slice()
    }
}

/// The abstract content of a record.
pub struct RecordView {
    pub topic: Seq<char>,
    pub partition_id: u32,
    pub offset: u64,
    pub key: Option<Seq<u8>>,
    pub payload: Seq<u8>,
    pub timestamp_millis: u128,
}

/// A record of a partition's log. Its timestamp is held as milliseconds
/// since the Unix epoch.
pub struct Record {
    pub topic: TopicName,
    pub partition_id: PartitionId,
    pub offset: Offset,
    pub key: Option<RecordKey>,
    pub payload: RecordPayload,
    pub timestamp_millis: u128,
}

pub open spec fn key_view(key: Option<RecordKey>) -> Option<Seq<u8>> {
    match key {
        Some(k) => Some(k.bytes@),
        None => None,
    }
}

impl View for Record {
    type V = RecordView;

    open spec fn view(&self) -> RecordView {
        RecordView {
            topic: self.topic@,
            partition_id: self.partition_id.value,
            offset: self.offset.value,
            key: key_view(self.key),
            payload: self.payload.bytes@,
            timestamp_millis: self.timestamp_millis,
        }
    }
}

impl Record {
    pub fn new(
        topic: TopicName,
        partition_id: PartitionId,
        offset: Offset,
        key: Option<RecordKey>,
        payload: RecordPayload,
        timestamp_millis: u128,
    ) -> (r: Self)
        ensures
            r@ == (RecordView {
                topic: topic@,
                partition_id: partition_id.value,
                offset: offset.value,
                key: key_view(key),
                payload: payload.bytes@,
                timestamp_millis,
            }),
    {
        Record { topic, partition_id, offset, key, payload, timestamp_millis }
    }

    pub fn offset(&self) -> (o: Offset)
        ensures
            o == self.offset,
    {
        self.offset
    }
}

/// Settings that every partition of a topic shares.
#[derive(Clone, Copy, PartialEq, Eq, Structural, Debug)]
pub struct PartitionConfiguration {
    pub segment_max_bytes: u64,
}

impl PartitionConfiguration {
    /// A segment size of zero is refused, with a message of this library's
    /// own wording.
    pub fn new(segment_max_bytes: u64) -> (r: Result<Self, ValidationError>)
        ensures
            r is Ok <==> segment_max_bytes > 0,
            r matches Ok(c) ==> c.segment_max_bytes == segment_max_bytes,
            r matches Err(e) ==> e.message@ == "segment_max_bytes must be greater than zero"@,
    {
        if segment_max_bytes == 0 {
            Err(
                ValidationError {
                    message: string_from_str("segment_max_bytes must be greater than zero"),
                },
            )
        } else {
            Ok(PartitionConfiguration { segment_max_bytes })
        }
    }

    pub fn segment_max_bytes(&self) -> (v: u64)
        ensures
            v == self.segment_max_bytes,
    {
        self.segment_max_bytes
    }
}

/// The settings of a topic.
#[derive(Clone, Copy, PartialEq, Eq, Structural, Debug)]
pub struct TopicConfiguration {
    pub partition_count: u32,
    pub partition_configuration: PartitionConfiguration,
}

impl TopicConfiguration {
    /// A topic without partitions is refused, with a message of this
    /// library's own wording.
    pub fn new(partition_count: u32, partition_configuration: PartitionConfiguration) -> (r: Result<
        Self,
        ValidationError,
    >)
        ensures
            r is Ok <==> partition_count > 0,
            r matches Ok(c) ==> c.partition_count == partition_count
                && c.partition_configuration == partition_configuration,
            r matches Err(e) ==> e.message@ == "partition_count must be greater than zero"@,
    {
        if partition_count == 0 {
            Err(
                ValidationError {
                    message: string_from_str("partition_count must be greater than zero"),
                },
            )
        } else {
            Ok(TopicConfiguration { partition_count, partition_configuration })
        }
    }

    pub fn partition_count(&self) -> (v: u32)
        ensures
            v == self.partition_count,
    {
        self.partition_count
    }

    pub fn partition_configuration(&self) -> (c: PartitionConfiguration)
        ensures
            c == self.partition_configuration,
    {
        self.partition_configuration
    }
}

/// The abstract content of a topic: its name, partition count and segment size.
pub type TopicView = (Seq<char>, u32, u64);

/// A topic and its configuration.
pub struct Topic {
    pub name: TopicName,
    pub configuration: TopicConfiguration,
}

impl View for Topic {
    type V = TopicView;

    open spec fn view(&self) -> TopicView {
        (
            self.name@,
            self.configuration.partition_count,
            self.configuration.partition_configuration.segment_max_bytes,
        )
    }
}

impl Topic {
    pub fn new(name: TopicName, configuration: TopicConfiguration) -> (t: Self)
        ensures
            t.name@ == name@,
            t.configuration == configuration,
    {
        Topic { name, configuration }
    }

    pub fn name(&self) -> (n: &TopicName)
        ensures
            n@ == self.name@,
    {
        &self.name
    }

    pub fn configuration(&self) -> (c: TopicConfiguration)
        ensures
            c == self.configuration,
    {
        self.configuration
    }

    pub fn duplicate(&self) -> (t: Self)
        ensures
            t@ == self@,
            t.configuration == self.configuration,
    {
        Topic { name: self.name.duplicate(), configuration: self.configuration }
    }
}

/// A partition of a topic together with its configuration.
pub struct Partition {
    pub topic: TopicName,
    pub id: PartitionId,
    pub configuration: PartitionConfiguration,
}

/// The abstract content of a partition: topic name, index and segment size.
pub type PartitionView = (Seq<char>, u32, u64);

impl View for Partition {
    type V = PartitionView;

    open spec fn view(&self) -> PartitionView {
        (self.topic@, self.id.value, self.configuration.segment_max_bytes)
    }
}

impl Partition {
    pub fn new(topic: TopicName, id: PartitionId, configuration: PartitionConfiguration) -> (p: Self)
        ensures
            p@ == (topic@, id.value, configuration.segment_max_bytes),
    {
        Partition { topic, id, configuration }
    }

    pub fn id(&self) -> (i: PartitionId)
        ensures
            i == self.id,
    {
        self.id
    }

    pub fn duplicate(&self) -> (p: Self)
        ensures
            p@ == self@,
    {
        Partition { topic: self.topic.duplicate(), id: self.id, configuration: self.configuration }
    }
}

/// Where a record was stored: its partition and offset.
pub struct StoredRecordMetadata {
    pub partition: TopicPartition,
    pub offset: Offset,
}

impl StoredRecordMetadata {
    pub fn new(partition: TopicPartition, offset: Offset) -> (m: Self)
        ensures
            m.partition@ == partition@,
            m.offset == offset,
    {
        StoredRecordMetadata { partition, offset }
    }

    pub fn partition(&self) -> (p: &TopicPartition)
        ensures
            p@ == self.partition@,
    {
        &self.partition
    }

    pub fn offset(&self) -> (o: Offset)
        ensures
            o == self.offset,
    {
        self.offset
    }
}

} // verus!
