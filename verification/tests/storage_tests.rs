use event_streaming::filesystem::{FileSystem, MemoryFileSystem};
use event_streaming::model::{
    Offset, PartitionId, Record, RecordKey, RecordPayload, TopicName, TopicPartition,
};
use event_streaming::partition_log::{parse_partition_id, partition_directory_name_of};
use event_streaming::record_codec::RecordCodec;
use event_streaming::segment::{Segment, SegmentNamer};
use event_streaming::storage::{LocalStorageConfiguration, LocalStorageEngine, StorageEngine};

fn topic(name: &str) -> TopicName {
    TopicName::new(name.to_string()).unwrap()
}

fn partition(name: &str, id: u32) -> TopicPartition {
    TopicPartition::new(topic(name), PartitionId::new(id))
}

fn engine(segment_max_bytes: u64) -> LocalStorageEngine<MemoryFileSystem> {
    let configuration =
        LocalStorageConfiguration::new("data/broker".to_string(), segment_max_bytes).unwrap();
    LocalStorageEngine::new(MemoryFileSystem::new(), configuration)
}

#[test]
fn record_frame_reads_back() {
    let record = Record::new(
        topic("demo"),
        PartitionId::new(2),
        Offset::new(7),
        Some(RecordKey::new(b"user-1".to_vec())),
        RecordPayload::new(b"hello world".to_vec()),
        1_700_000_000_000,
    );
    let frame = RecordCodec::encode(&record).unwrap();
    // 4 length bytes, then magic 4 + offset 8 + time 16 + flag 1 + key length 4 + key 6
    // + payload length 4 + payload 11.
    assert_eq!(frame.len(), 4 + 4 + 8 + 16 + 1 + 4 + 6 + 4 + 11);
    assert_eq!(&frame[0..4], &(54u32).to_be_bytes());
    assert_eq!(&frame[4..8], &[0x45, 0x53, 0x52, 0x31]);
    let records = RecordCodec::decode_all(&frame, &topic("demo"), PartitionId::new(2)).unwrap();
    assert_eq!(records.len(), 1);
    assert_eq!(records[0].offset.value, 7);
    assert_eq!(records[0].payload.bytes, b"hello world".to_vec());
    assert_eq!(records[0].key.as_ref().unwrap().bytes, b"user-1".to_vec());
    assert_eq!(records[0].timestamp_millis, 1_700_000_000_000);
    assert_eq!(records[0].topic.as_str(), "demo");
    assert_eq!(records[0].partition_id.value, 2);
}

#[test]
fn record_frames_concatenate() {
    let first = Record::new(topic("t"), PartitionId::new(0), Offset::new(0), None, RecordPayload::new(b"a".to_vec()), 1);
    let second = Record::new(topic("t"), PartitionId::new(0), Offset::new(1), None, RecordPayload::new(b"bc".to_vec()), 2);
    let mut bytes = RecordCodec::encode(&first).unwrap();
    bytes.extend(RecordCodec::encode(&second).unwrap());
    let records = RecordCodec::decode_all(&bytes, &topic("t"), PartitionId::new(0)).unwrap();
    assert_eq!(records.len(), 2);
    assert_eq!(records[1].offset.value, 1);
    assert_eq!(records[1].payload.bytes, b"bc".to_vec());
    assert!(records[0].key.is_none());
}

#[test]
fn record_decoding_errors() {
    let record = Record::new(topic("t"), PartitionId::new(0), Offset::new(0), None, RecordPayload::new(b"a".to_vec()), 1);
    let mut frame = RecordCodec::encode(&record).unwrap();
    let truncated = &frame[..frame.len() - 1];
    let error = RecordCodec::decode_all(truncated, &topic("t"), PartitionId::new(0)).err().unwrap();
    assert_eq!(error.message, "Record frame exceeds segment length");
    frame[4] = 0;
    let error = RecordCodec::decode_all(&frame, &topic("t"), PartitionId::new(0)).err().unwrap();
    assert_eq!(error.message, "Invalid record magic number");
    let error = RecordCodec::decode_all(&[0, 0], &topic("t"), PartitionId::new(0)).err().unwrap();
    assert_eq!(error.message, "Unexpected end of record");
    assert!(RecordCodec::decode_all(&[], &topic("t"), PartitionId::new(0)).unwrap().is_empty());
    assert_eq!(RecordCodec::frame_header_length(), 4);
}

#[test]
fn segment_names_and_numbers() {
    assert_eq!(SegmentNamer::file_name(1), "segment-000001.log");
    assert_eq!(SegmentNamer::file_name(1234567), "segment-1234567.log");
    assert_eq!(SegmentNamer::path("data/seg", 42), "data/seg/segment-000042.log");
    assert_eq!(SegmentNamer::parse_id("data/seg/segment-000042.log").unwrap(), Some(42));
    assert_eq!(SegmentNamer::parse_id("data/seg/notes.txt").unwrap(), None);
    let error = SegmentNamer::parse_id("data/seg/segment-x.log").err().unwrap();
    assert_eq!(error.message, "Invalid segment file 'segment-x.log': invalid digit found in string");
    let segment = Segment::new(3, "a/segment-000003.log".to_string(), 10);
    let grown = segment.with_size(25);
    assert_eq!(grown.id(), 3);
    assert_eq!(grown.size_bytes(), 25);
    assert_eq!(grown.path(), "a/segment-000003.log");
}

#[test]
fn partition_directory_names() {
    assert_eq!(partition_directory_name_of(3), "partition-000003");
    assert_eq!(parse_partition_id("data/demo/partition-000003").unwrap(), Some(3));
    assert_eq!(parse_partition_id("data/demo/other").unwrap(), None);
    let error = parse_partition_id("data/demo/partition-").err().unwrap();
    assert_eq!(error.message, "Invalid partition directory 'partition-': cannot parse integer from empty string");
}

#[test]
fn storage_configuration_refuses_zero() {
    let error = LocalStorageConfiguration::new("data".to_string(), 0).err().unwrap();
    assert_eq!(error.message, "storage segment_max_bytes must be greater than zero");
    let configuration = LocalStorageConfiguration::new("data".to_string(), 10).unwrap();
    assert_eq!(configuration.root_directory(), "data");
    assert_eq!(configuration.segment_max_bytes(), 10);
}

#[test]
fn append_then_read_gives_the_record_back() {
    let mut engine = engine(1024);
    let p = partition("demo", 0);
    let first = engine.append_at(&p, None, RecordPayload::new(b"first event".to_vec()), 10).unwrap();
    let second = engine
        .append_at(&p, Some(RecordKey::new(b"k".to_vec())), RecordPayload::new(b"second event".to_vec()), 11)
        .unwrap();
    assert_eq!(first.offset.value, 0);
    assert_eq!(second.offset.value, 1);
    let from_second = engine.read_records(&p, Offset::new(1), 10).unwrap();
    assert_eq!(from_second.len(), 1);
    assert_eq!(from_second[0].payload.bytes, b"second event".to_vec());
    let all = engine.read_records(&p, Offset::new(0), 10).unwrap();
    assert_eq!(all.len(), 2);
    assert_eq!(all[0].payload.bytes, b"first event".to_vec());
    let limited = engine.read_records(&p, Offset::new(0), 1).unwrap();
    assert_eq!(limited.len(), 1);
    assert!(engine.read_records(&p, Offset::new(0), 0).unwrap().is_empty());
    assert!(engine.read_records(&p, Offset::new(5), 10).unwrap().is_empty());
}

#[test]
fn full_segment_rotates() {
    let mut engine = engine(60);
    let p = partition("demo", 1);
    for i in 0..3u64 {
        let m = engine.append_at(&p, None, RecordPayload::new(vec![b'x'; 10]), i as u128).unwrap();
        assert_eq!(m.offset.value, i);
    }
    let dir = "data/broker/demo/partition-000001/segments";
    let entries = engine.file_system.read_directory(dir).unwrap();
    assert_eq!(entries.len(), 3);
    assert!(engine.file_system.path_exists("data/broker/demo/partition-000001/segments/segment-000003.log"));
    let all = engine.read_records(&p, Offset::zero(), 10).unwrap();
    assert_eq!(all.len(), 3);
    assert_eq!(all[2].offset.value, 2);
}

#[test]
fn explicit_rotation_starts_an_empty_segment() {
    let mut engine = engine(1024);
    let p = partition("demo", 0);
    engine.append_at(&p, None, RecordPayload::new(b"a".to_vec()), 1).unwrap();
    StorageEngine::rotate(&mut engine, &p).unwrap();
    engine.append_at(&p, None, RecordPayload::new(b"b".to_vec()), 2).unwrap();
    assert!(engine.file_system.path_exists("data/broker/demo/partition-000000/segments/segment-000002.log"));
    let all = StorageEngine::read(&mut engine, &p, Offset::zero(), 10).unwrap();
    assert_eq!(all.len(), 2);
    assert_eq!(all[1].payload.bytes, b"b".to_vec());
}

#[test]
fn recovery_continues_the_offsets() {
    let mut engine = engine(1024);
    let p = partition("demo", 0);
    engine.append_at(&p, None, RecordPayload::new(b"a".to_vec()), 1).unwrap();
    engine.append_at(&p, None, RecordPayload::new(b"b".to_vec()), 2).unwrap();
    let file_system = engine.file_system;
    let configuration = LocalStorageConfiguration::new("data/broker".to_string(), 1024).unwrap();
    let mut restarted = LocalStorageEngine::new(file_system, configuration);
    StorageEngine::recover(&mut restarted).unwrap();
    let m = restarted.append_at(&p, None, RecordPayload::new(b"c".to_vec()), 3).unwrap();
    assert_eq!(m.offset.value, 2);
    let all = restarted.read_records(&p, Offset::zero(), 10).unwrap();
    assert_eq!(all.len(), 3);
}

#[test]
fn trait_append_stamps_the_time() {
    let mut engine = engine(1024);
    let p = partition("clock", 0);
    let m = StorageEngine::append(&mut engine, &p, None, RecordPayload::new(b"now".to_vec())).unwrap();
    assert_eq!(m.offset.value, 0);
    assert_eq!(m.partition.topic.as_str(), "clock");
    let records = StorageEngine::read(&mut engine, &p, Offset::zero(), 1).unwrap();
    assert!(records[0].timestamp_millis > 1_600_000_000_000);
    assert!(StorageEngine::flush(&mut engine, &partition("clock", 1)).is_ok());
}

#[test]
fn segments_stay_within_the_limit() {
    let mut engine = engine(60);
    let p = partition("demo", 2);
    for i in 0..5u64 {
        engine.append_at(&p, None, RecordPayload::new(vec![b'y'; 10 + (i as usize % 3)]), i as u128).unwrap();
    }
    let dir = "data/broker/demo/partition-000002/segments";
    let entries = engine.file_system.read_directory(dir).unwrap();
    assert_eq!(entries.len(), 5);
    for entry in entries {
        let bytes = engine.file_system.read_file(&entry).unwrap();
        assert!(bytes.len() <= 60);
        assert!(!bytes.is_empty());
    }
}
