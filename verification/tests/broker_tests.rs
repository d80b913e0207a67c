use event_streaming::configuration::{config_path_from_args, BrokerConfiguration, BrokerServerConfiguration, Configuration, FrameReader};
use event_streaming::consumer_group::ConsumerGroupManager;
use event_streaming::filesystem::{FileSystem, MemoryFileSystem};
use event_streaming::model::{
    ConsumerGroupId, ConsumerId, Offset, PartitionConfiguration, PartitionId, RecordPayload,
    TopicName, TopicPartition,
};
use event_streaming::offsets::{upsert, CommittedOffset, OffsetStore};
use event_streaming::partition_manager::PartitionManager;
use event_streaming::runtime::{BrokerRuntime, RequestPayload, ResponsePayload};
use event_streaming::storage::{LocalStorageConfiguration, LocalStorageEngine};
use event_streaming::topic_manager::TopicManager;
use event_streaming::topic_store::TopicMetadataStore;

fn topic(name: &str) -> TopicName {
    TopicName::new(name.to_string()).unwrap()
}

fn group(name: &str) -> ConsumerGroupId {
    ConsumerGroupId::new(name.to_string()).unwrap()
}

fn consumer(name: &str) -> ConsumerId {
    ConsumerId::new(name.to_string()).unwrap()
}

fn topic_manager() -> TopicManager<MemoryFileSystem> {
    // On a disk, creating a topic's directory creates its parents; the
    // in-memory filesystem makes only the directory asked for.
    let mut fs = MemoryFileSystem::new();
    fs.create_directory("data/topics").unwrap();
    TopicManager::new(TopicMetadataStore::new(fs, "data/topics".to_string()))
}

fn partition_manager() -> PartitionManager<LocalStorageEngine<MemoryFileSystem>> {
    let configuration = LocalStorageConfiguration::new("data/broker".to_string(), 1024).unwrap();
    PartitionManager::new(LocalStorageEngine::new(MemoryFileSystem::new(), configuration))
}

fn group_manager() -> ConsumerGroupManager<MemoryFileSystem> {
    ConsumerGroupManager::new(OffsetStore::new(MemoryFileSystem::new(), "data/consumer-groups".to_string()))
}

#[test]
fn topics_are_created_listed_and_deleted() {
    let mut manager = topic_manager();
    let config = PartitionConfiguration::new(1024).unwrap();
    let created = manager.create_topic(topic("orders"), 3, config).unwrap();
    assert_eq!(created.name.as_str(), "orders");
    assert_eq!(created.configuration.partition_count, 3);
    manager.create_topic(topic("audit"), 1, config).unwrap();
    let listed = manager.list_topics();
    let names: Vec<&str> = listed.iter().map(|t| t.name.as_str()).collect();
    assert_eq!(names, vec!["audit", "orders"]);
    assert!(manager.contains_topic(&topic("orders")));
    assert_eq!(manager.get_topic(&topic("orders")).unwrap().configuration.partition_count, 3);
    let again = manager.create_topic(topic("orders"), 1, config).err().unwrap();
    assert_eq!(again.message, "Topic 'orders' already exists");
    let none = manager.create_topic(topic("empty"), 0, config).err().unwrap();
    assert_eq!(none.message, "partition_count must be greater than zero");
    manager.delete_topic(&topic("orders")).unwrap();
    assert!(!manager.contains_topic(&topic("orders")));
    assert!(manager.get_topic(&topic("orders")).is_none());
    let missing = manager.delete_topic(&topic("orders")).err().unwrap();
    assert_eq!(missing.message, "Topic 'orders' does not exist");
}

#[test]
fn topics_are_recovered_from_metadata() {
    let mut manager = topic_manager();
    let config = PartitionConfiguration::new(2048).unwrap();
    manager.create_topic(topic("orders"), 2, config).unwrap();
    let store = manager.metadata_store;
    assert!(store.metadata_exists(&topic("orders")));
    let loaded = store.load(&topic("orders")).unwrap().unwrap();
    assert_eq!(loaded.configuration.partition_configuration.segment_max_bytes, 2048);
    let mut restarted = TopicManager::new(store);
    assert!(!restarted.contains_topic(&topic("orders")));
    restarted.recover().unwrap();
    assert!(restarted.contains_topic(&topic("orders")));
    assert_eq!(restarted.get_topic(&topic("orders")).unwrap().configuration.partition_count, 2);
}

#[test]
fn topic_metadata_text() {
    let config = PartitionConfiguration::new(1048576).unwrap();
    let configuration = event_streaming::model::TopicConfiguration::new(2, config).unwrap();
    let t = event_streaming::model::Topic::new(topic("demo"), configuration);
    let text = TopicMetadataStore::<MemoryFileSystem>::encode_topic(&t);
    assert_eq!(text, "name = \"demo\"\npartition_count = 2\nsegment_max_bytes = 1048576\n");
    let back = TopicMetadataStore::<MemoryFileSystem>::decode_topic(&text).unwrap();
    assert_eq!(back.name.as_str(), "demo");
    let missing = TopicMetadataStore::<MemoryFileSystem>::decode_topic("name = \"demo\"\n").err().unwrap();
    assert_eq!(missing.message, "Topic metadata missing 'partition_count'");
}

#[test]
fn committed_offsets_are_saved_and_loaded() {
    let mut store = OffsetStore::new(MemoryFileSystem::new(), "groups".to_string());
    let mut table: Vec<CommittedOffset> = Vec::new();
    upsert(&mut table, TopicPartition::new(topic("orders"), PartitionId::new(1)), Offset::new(42));
    upsert(&mut table, TopicPartition::new(topic("audit"), PartitionId::new(0)), Offset::new(7));
    upsert(&mut table, TopicPartition::new(topic("orders"), PartitionId::new(1)), Offset::new(43));
    assert_eq!(table.len(), 2);
    store.save(&group("g1"), &table).unwrap();
    let bytes = store.file_system.read_file("groups/g1/offsets.toml").unwrap();
    assert_eq!(String::from_utf8(bytes).unwrap(), "audit.0 = 7\norders.1 = 43\n");
    let loaded = store.load(&group("g1")).unwrap();
    assert_eq!(loaded.len(), 2);
    let orders = loaded.iter().find(|e| e.partition.topic.as_str() == "orders").unwrap();
    assert_eq!(orders.offset.value, 43);
    assert!(store.load(&group("other")).unwrap().is_empty());
}

#[test]
fn consumer_group_membership_and_assignment() {
    let mut manager = group_manager();
    manager.register_consumer(group("g"), consumer("c2"), vec![topic("orders")]).unwrap();
    manager.register_consumer(group("g"), consumer("c1"), vec![topic("orders")]).unwrap();
    let partitions: Vec<TopicPartition> =
        (0..5).map(|i| TopicPartition::new(topic("orders"), PartitionId::new(i))).collect();
    let assignments = manager.assign_partitions(&group("g"), partitions).unwrap();
    assert_eq!(assignments.len(), 2);
    assert_eq!(assignments[0].consumer_id.as_str(), "c1");
    let first: Vec<u32> = assignments[0].partitions.iter().map(|p| p.partition_id.value).collect();
    let second: Vec<u32> = assignments[1].partitions.iter().map(|p| p.partition_id.value).collect();
    assert_eq!(first, vec![0, 2, 4]);
    assert_eq!(second, vec![1, 3]);
    manager.remove_consumer(&group("g"), &consumer("c1")).unwrap();
    let after = manager.assign_partitions(&group("g"), vec![TopicPartition::new(topic("orders"), PartitionId::new(0))]).unwrap();
    assert_eq!(after.len(), 1);
    assert_eq!(after[0].consumer_id.as_str(), "c2");
    manager.remove_consumer(&group("g"), &consumer("c2")).unwrap();
    assert!(manager.assign_partitions(&group("g"), vec![]).unwrap().is_empty());
}

#[test]
fn committed_offset_is_read_back() {
    let mut manager = group_manager();
    let p = TopicPartition::new(topic("orders"), PartitionId::new(0));
    assert!(manager.committed_offset(&group("g"), &p).unwrap().is_none());
    let committed = manager.commit_offset(&group("g"), p.duplicate(), Offset::new(5)).unwrap();
    assert_eq!(committed.value, 5);
    assert_eq!(manager.committed_offset(&group("g"), &p).unwrap().unwrap().value, 5);
    let store = manager.offset_store;
    let mut restarted = ConsumerGroupManager::new(store);
    assert_eq!(restarted.committed_offset(&group("g"), &p).unwrap().unwrap().value, 5);
}

#[test]
fn partitions_route_appends_and_reads() {
    let mut manager = partition_manager();
    let config = PartitionConfiguration::new(1024).unwrap();
    let configuration = event_streaming::model::TopicConfiguration::new(2, config).unwrap();
    let t = event_streaming::model::Topic::new(topic("orders"), configuration);
    let created = manager.create_partitions_for_topic(&t).unwrap();
    assert_eq!(created.len(), 2);
    assert_eq!(created[1].id.value, 1);
    let m = manager.append(&topic("orders"), PartitionId::new(1), None, RecordPayload::new(b"x".to_vec())).unwrap();
    assert_eq!(m.offset.value, 0);
    let records = manager.read(&topic("orders"), PartitionId::new(1), Offset::zero(), 10).unwrap();
    assert_eq!(records.len(), 1);
    let missing = manager.append(&topic("orders"), PartitionId::new(7), None, RecordPayload::new(vec![])).err().unwrap();
    assert_eq!(missing.message, "Partition 'orders:7' does not exist");
    let listed = manager.list_partitions(&topic("orders"));
    let ids: Vec<u32> = listed.iter().map(|p| p.id.value).collect();
    assert_eq!(ids, vec![0, 1]);
    assert!(manager.get_partition(&topic("orders"), PartitionId::new(0)).is_some());
    manager.delete_partitions_for_topic(&topic("orders"));
    assert!(manager.get_partition(&topic("orders"), PartitionId::new(0)).is_none());
    assert!(manager.list_partitions(&topic("orders")).is_empty());
    let gone = manager.read(&topic("orders"), PartitionId::new(1), Offset::zero(), 10).err().unwrap();
    assert_eq!(gone.message, "Partition 'orders:1' does not exist");
}

#[test]
fn runtime_serves_a_produce_and_consume_flow() {
    let mut runtime = BrokerRuntime::new(topic_manager(), partition_manager(), group_manager());
    let created = runtime
        .dispatch(RequestPayload::CreateTopic { topic: topic("demo"), partition_count: 1, segment_max_bytes: 1048576 })
        .unwrap();
    assert!(matches!(created, ResponsePayload::CreateTopic { .. }));
    for (i, message) in ["first event", "second event"].iter().enumerate() {
        let response = runtime
            .dispatch(RequestPayload::Produce {
                topic: topic("demo"),
                partition_id: PartitionId::new(0),
                key: None,
                payload: RecordPayload::new(message.as_bytes().to_vec()),
            })
            .unwrap();
        match response {
            ResponsePayload::Produce { offset, .. } => assert_eq!(offset.value, i as u64),
            _ => panic!("unexpected response"),
        }
    }
    let fetched = runtime
        .dispatch(RequestPayload::Fetch { topic: topic("demo"), partition_id: PartitionId::new(0), offset: Offset::zero(), max_records: 10 })
        .unwrap();
    match fetched {
        ResponsePayload::Fetch { records } => {
            assert_eq!(records.len(), 2);
            assert_eq!(records[0].payload.bytes, b"first event".to_vec());
            assert_eq!(records[1].payload.bytes, b"second event".to_vec());
        },
        _ => panic!("unexpected response"),
    }
    let committed = runtime
        .dispatch(RequestPayload::CommitOffset { group_id: group("demo-group"), topic: topic("demo"), partition_id: PartitionId::new(0), offset: Offset::new(2) })
        .unwrap();
    assert!(matches!(committed, ResponsePayload::CommitOffset { offset } if offset.value == 2));
    match runtime.dispatch(RequestPayload::ListTopics).unwrap() {
        ResponsePayload::ListTopics { topics } => assert_eq!(topics.len(), 1),
        _ => panic!("unexpected response"),
    }
    let duplicate = runtime
        .dispatch(RequestPayload::CreateTopic { topic: topic("demo"), partition_count: 1, segment_max_bytes: 10 })
        .err()
        .unwrap();
    assert_eq!(duplicate.message, "Topic 'demo' already exists");
    let zero = runtime
        .dispatch(RequestPayload::CreateTopic { topic: topic("other"), partition_count: 1, segment_max_bytes: 0 })
        .err()
        .unwrap();
    assert_eq!(zero.message, "segment_max_bytes must be greater than zero");
}

#[test]
fn created_topics_are_listed_in_name_order() {
    let mut runtime = BrokerRuntime::new(topic_manager(), partition_manager(), group_manager());
    for name in ["orders", "audit", "payments"] {
        runtime
            .dispatch(RequestPayload::CreateTopic { topic: topic(name), partition_count: 1, segment_max_bytes: 64 })
            .unwrap();
    }
    let zero = runtime
        .dispatch(RequestPayload::CreateTopic { topic: topic("empty"), partition_count: 0, segment_max_bytes: 64 })
        .err()
        .unwrap();
    assert_eq!(zero.message, "partition_count must be greater than zero");
    match runtime.dispatch(RequestPayload::ListTopics).unwrap() {
        ResponsePayload::ListTopics { topics } => {
            let names: Vec<&str> = topics.iter().map(|t| t.as_str()).collect();
            assert_eq!(names, vec!["audit", "orders", "payments"]);
        },
        _ => panic!("unexpected response"),
    }
    let missing = runtime
        .dispatch(RequestPayload::Produce {
            topic: topic("audit"),
            partition_id: PartitionId::new(3),
            key: None,
            payload: RecordPayload::new(b"x".to_vec()),
        })
        .err()
        .unwrap();
    assert_eq!(missing.message, "Partition 'audit:3' does not exist");
}

#[test]
fn runtime_recovers_topics_and_partitions() {
    let mut runtime = BrokerRuntime::new(topic_manager(), partition_manager(), group_manager());
    runtime
        .dispatch(RequestPayload::CreateTopic { topic: topic("demo"), partition_count: 2, segment_max_bytes: 1024 })
        .unwrap();
    runtime.recover().unwrap();
    assert!(runtime.partition_manager.get_partition(&topic("demo"), PartitionId::new(1)).is_some());
}

#[test]
fn configuration_files_are_read() {
    let text = "# broker settings\n[broker]\nhost = \"0.0.0.0\"\nport = 9093\n\n[storage]\nsegment_max_bytes = 2048\n";
    let configuration = Configuration::parse(text).unwrap();
    assert_eq!(configuration.get("broker.host").unwrap(), "0.0.0.0");
    assert_eq!(configuration.get_or("network.max_frame_bytes", "1048576"), "1048576");
    let broker = BrokerConfiguration::from_configuration(&configuration, Ok(())).unwrap();
    assert_eq!(broker.port, 9093);
    assert_eq!(broker.segment_max_bytes(), 2048);
    assert_eq!(broker.storage_root_directory(), "data/broker");
    assert_eq!(broker.topic_metadata_directory(), "data/topics");
    assert_eq!(broker.max_frame_bytes(), 1048576);
    let bad = Configuration::parse("[broker]\nport 9092\n").err().unwrap();
    assert_eq!(bad.message, "Invalid configuration line: port 9092");
    let invalid_port = Configuration::parse("[broker]\nport = 70000\n").unwrap();
    let error = BrokerConfiguration::from_configuration(&invalid_port, Ok(())).err().unwrap();
    assert_eq!(error.message, "Invalid broker.port '70000': number too large to fit in target type");
}

#[test]
fn server_and_frame_limits() {
    let error = BrokerServerConfiguration::new("127.0.0.1".to_string(), 9092, 0).err().unwrap();
    assert_eq!(error.message, "max_frame_bytes must be greater than zero");
    assert_eq!(BrokerServerConfiguration::new("127.0.0.1".to_string(), 9092, 64).unwrap().max_frame_bytes(), 64);
    assert!(FrameReader::new(3).is_err());
    let reader = FrameReader::new(64).unwrap();
    assert_eq!(reader.frame_length(10u32.to_be_bytes()).unwrap(), 14);
    let error = reader.frame_length(100u32.to_be_bytes()).err().unwrap();
    assert_eq!(error.message, "Protocol frame exceeds max_frame_bytes: 104 > 64");
}

#[test]
fn memory_file_system_basics() {
    let mut fs = MemoryFileSystem::new();
    fs.create_directory("a").unwrap();
    fs.write_file("a/b.txt", b"hi").unwrap();
    fs.append_file("a/b.txt", b"!").unwrap();
    assert_eq!(fs.read_file("a/b.txt").unwrap(), b"hi!".to_vec());
    assert_eq!(fs.file_size("a/b.txt").unwrap(), 3);
    assert!(fs.is_directory("a"));
    assert_eq!(fs.read_directory("a").unwrap(), vec!["a/b.txt".to_string()]);
    fs.delete("a").unwrap();
    assert!(!fs.path_exists("a/b.txt"));
}

#[test]
fn broker_config_path_from_arguments() {
    let args: Vec<String> = vec!["--verbose".to_string(), "--config".to_string(), "b.toml".to_string()];
    assert_eq!(config_path_from_args(&args), "b.toml");
    assert_eq!(config_path_from_args(&vec!["--config".to_string()]), "assets/broker.toml");
    assert_eq!(config_path_from_args(&vec![]), "assets/broker.toml");
}

#[test]
fn memory_file_system_refusals() {
    let mut fs = MemoryFileSystem::new();
    fs.write_file("f", b"x").unwrap();
    assert!(fs.create_directory("f").is_err());
    fs.create_directory("d").unwrap();
    assert!(fs.write_file("d", b"y").is_err());
    assert!(fs.append_file("d", b"y").is_err());
    assert!(fs.read_file("missing").is_err());
    assert!(fs.file_size("missing").is_err());
    assert!(fs.read_directory("missing").unwrap().is_empty());
    assert!(fs.delete("missing").is_ok());
    assert_eq!(fs.read_file("f").unwrap(), b"x".to_vec());
}

#[test]
fn groups_without_offsets_files_are_ready() {
    let mut manager = group_manager();
    manager.register_consumer(group("g"), consumer("c1"), vec![topic("t")]).unwrap();
    let assigned = manager
        .assign_partitions(&group("g"), vec![TopicPartition::new(topic("t"), PartitionId::new(0))])
        .unwrap();
    assert_eq!(assigned.len(), 1);
    manager.remove_consumer(&group("g"), &consumer("c1")).unwrap();
    let p = TopicPartition::new(topic("t"), PartitionId::new(0));
    assert!(manager.committed_offset(&group("other"), &p).unwrap().is_none());
}

#[test]
fn storage_reads_nothing_when_nothing_is_asked() {
    let mut manager = partition_manager();
    let mut runtime_topics = topic_manager();
    let created = runtime_topics
        .create_topic(topic("t"), 1, PartitionConfiguration::new(64).unwrap())
        .unwrap();
    manager.create_partitions_for_topic(&created).unwrap();
    let records = manager.read(&topic("t"), PartitionId::new(0), Offset::zero(), 0).unwrap();
    assert!(records.is_empty());
}

#[test]
fn broker_host_must_read_as_an_address() {
    let configuration = Configuration::parse("[broker]\nhost = \"localhost\"\n").unwrap();
    assert_eq!(BrokerConfiguration::host_setting(&configuration), "localhost");
    let error = BrokerConfiguration::from_configuration(&configuration, Err("invalid IP address syntax".to_string()))
        .err()
        .unwrap();
    assert_eq!(error.message, "Invalid broker.host 'localhost': invalid IP address syntax");
    let bad_port = Configuration::parse("[broker]\nhost = \"localhost\"\nport = \"x\"\n").unwrap();
    let first = BrokerConfiguration::from_configuration(&bad_port, Err("invalid IP address syntax".to_string()))
        .err()
        .unwrap();
    assert!(first.message.starts_with("Invalid broker.port"));
}

#[test]
fn topic_stays_created_when_a_partition_cannot_be_made() {
    let configuration = LocalStorageConfiguration::new("data/broker".to_string(), 1024).unwrap();
    let mut fs = MemoryFileSystem::new();
    fs.write_file("data/broker/demo/partition-000001/segments", b"in the way").unwrap();
    let partitions = PartitionManager::new(LocalStorageEngine::new(fs, configuration));
    let mut runtime = BrokerRuntime::new(topic_manager(), partitions, group_manager());
    let failed = runtime.dispatch(RequestPayload::CreateTopic {
        topic: topic("demo"),
        partition_count: 2,
        segment_max_bytes: 1024,
    });
    assert!(failed.is_err());
    match runtime.dispatch(RequestPayload::ListTopics).unwrap() {
        ResponsePayload::ListTopics { topics } => {
            let names: Vec<&str> = topics.iter().map(|t| t.as_str()).collect();
            assert_eq!(names, vec!["demo"]);
        },
        _ => panic!("unexpected response"),
    }
    assert!(runtime.partition_manager.get_partition(&topic("demo"), PartitionId::new(0)).is_some());
    assert!(runtime.partition_manager.get_partition(&topic("demo"), PartitionId::new(1)).is_none());
}

#[test]
fn produce_after_recovery_is_read_back() {
    let mut runtime = BrokerRuntime::new(topic_manager(), partition_manager(), group_manager());
    runtime
        .dispatch(RequestPayload::CreateTopic { topic: topic("demo"), partition_count: 1, segment_max_bytes: 1024 })
        .unwrap();
    let produce = |runtime: &mut BrokerRuntime<_, _, _>, text: &str| -> u64 {
        match runtime
            .dispatch(RequestPayload::Produce {
                topic: topic("demo"),
                partition_id: PartitionId::new(0),
                key: None,
                payload: RecordPayload::new(text.as_bytes().to_vec()),
            })
            .unwrap()
        {
            ResponsePayload::Produce { offset, .. } => offset.value,
            _ => panic!("unexpected response"),
        }
    };
    assert_eq!(produce(&mut runtime, "before restart"), 0);
    runtime.recover().unwrap();
    assert_eq!(produce(&mut runtime, "after restart"), 1);
    let fetched = runtime
        .dispatch(RequestPayload::Fetch { topic: topic("demo"), partition_id: PartitionId::new(0), offset: Offset::new(1), max_records: 5 })
        .unwrap();
    match fetched {
        ResponsePayload::Fetch { records } => {
            assert_eq!(records.len(), 1);
            assert_eq!(records[0].offset.value, 1);
            assert_eq!(records[0].payload.bytes, b"after restart".to_vec());
        },
        _ => panic!("unexpected response"),
    }
}
