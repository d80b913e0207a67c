use event_streaming::cli::{
    broker_config_path, created_topic_message, topics_message, client_error, parse_u16, parse_u32, parse_u64, parse_usize, required,
    success, workspace_root, BaseCommand, ClientConnectionOptions, CliError, Command, CommandEnvironment,
    CommandFactory, CommandParser, CommandResult, ConsumeCommand, ParsedCommand, ProduceCommand,
    StartBrokerCommand,
};
use event_streaming::configuration::Configuration;
use event_streaming::filesystem::{FileSystem, MemoryFileSystem};
use event_streaming::workspace::{
    BrokerTemplateGenerator, Directory, Workspace, WorkspaceInitializer, WorkspaceResolver,
    WorkspaceTemplateGenerator, WorkspaceValidator,
};

fn words(line: &str) -> Vec<String> {
    line.split_whitespace().map(|w| w.to_string()).collect()
}

fn parsed(line: &str) -> ParsedCommand {
    CommandParser::parse(words(line)).ok().unwrap()
}

fn environment() -> CommandEnvironment {
    CommandEnvironment { workspace_root: "/ws".to_string(), configuration: None }
}

#[test]
fn command_lines_are_parsed() {
    let p = parsed("produce --topic demo extra --key --message hello --topic other");
    assert_eq!(p.name, "produce");
    assert_eq!(p.argument(0), Some("extra"));
    assert_eq!(p.argument(1), None);
    assert_eq!(p.option("key"), Some("true"));
    assert_eq!(p.option("message"), Some("hello"));
    assert_eq!(p.option("topic"), Some("other"));
    assert!(p.has_option("topic"));
    assert!(!p.has_option("partition"));
    match CommandParser::parse(vec![]) {
        Err(CliError::InvalidArguments(m)) => assert_eq!(m, "No command specified"),
        _ => panic!("expected an error"),
    }
}

#[test]
fn option_helpers() {
    let p = parsed("consume --topic demo");
    assert_eq!(required(&p, "topic").ok().unwrap(), "demo");
    match required(&p, "group") {
        Err(CliError::InvalidArguments(m)) => assert_eq!(m, "Missing required option --group"),
        _ => panic!("expected an error"),
    }
    assert_eq!(parse_u16("9092", "port").ok().unwrap(), 9092);
    match parse_u16("70000", "port") {
        Err(e) => assert_eq!(e.message(), "Invalid --port: number too large to fit in target type"),
        Ok(_) => panic!("expected an error"),
    }
    match parse_u32("", "partitions") {
        Err(e) => assert_eq!(e.message(), "Invalid --partitions: cannot parse integer from empty string"),
        Ok(_) => panic!("expected an error"),
    }
    assert_eq!(parse_u64("18446744073709551615", "offset").ok().unwrap(), u64::MAX);
    assert_eq!(parse_usize("+12", "max-frame-bytes").ok().unwrap(), 12);
    let result: CommandResult = success("done".to_string());
    assert!(result.success);
    assert_eq!(result.exit_code, 0);
    assert_eq!(result.text(), "Command Result\n--------------\nSuccess   : true\nExit Code : 0\nMessage   : done");
}

#[test]
fn client_errors_hint_at_starting_the_broker() {
    let refused = client_error("Failed to connect to 127.0.0.1:9092");
    assert_eq!(
        refused.message(),
        "Failed to connect to 127.0.0.1:9092\nStart the broker first, for example: cargo run -p cli -- start-broker --workspace <workspace-path>"
    );
    let other = client_error("Topic 'x' already exists");
    assert_eq!(other.message(), "Topic 'x' already exists");
    assert_eq!(other.exit_code(), 1);
    assert_eq!(other.text(), "Exit Code : 1\nMessage   : Topic 'x' already exists");
}

#[test]
fn workspace_and_config_paths() {
    let plain = parsed("start-broker");
    assert_eq!(workspace_root(&plain, None), ".");
    assert_eq!(workspace_root(&plain, Some("/home/u/ws".to_string())), "/home/u/ws");
    let chosen = parsed("start-broker --workspace /w --config /etc/b.toml");
    assert_eq!(workspace_root(&chosen, Some("/home/u/ws".to_string())), "/w");
    assert_eq!(broker_config_path(&plain, "/w"), "/w/config/broker.toml");
    assert_eq!(broker_config_path(&chosen, "/w"), "/etc/b.toml");
}

#[test]
fn connection_options_take_defaults_from_the_configuration() {
    let configuration = Configuration::parse("[broker]\nhost = \"10.0.0.1\"\nport = 9100\n").unwrap();
    let p = parsed("list-topics --port 9200");
    let options = ClientConnectionOptions::from_command(&p, Some(&configuration)).ok().unwrap();
    assert_eq!(options.host, "10.0.0.1");
    assert_eq!(options.port, 9200);
    assert_eq!(options.max_frame_bytes, 1048576);
    let defaults = ClientConnectionOptions::from_command(&parsed("list-topics"), None).ok().unwrap();
    assert_eq!(defaults.host, "127.0.0.1");
    assert_eq!(defaults.port, 9092);
}

#[test]
fn factory_builds_commands() {
    match CommandFactory::create(parsed("create-topic --topic demo --partitions 3")) {
        Ok(Command::CreateTopic(c)) => {
            assert_eq!(c.topic, "demo");
            assert_eq!(c.partitions, 3);
            assert_eq!(c.segment_max_bytes, 1048576);
        },
        _ => panic!("expected a create-topic command"),
    }
    match CommandFactory::create(parsed("produce --topic demo --key user-1 --message hi")) {
        Ok(Command::Produce(c)) => {
            assert_eq!(c.partition, 0);
            assert_eq!(c.key, Some(b"user-1".to_vec()));
            assert_eq!(c.message, b"hi".to_vec());
        },
        _ => panic!("expected a produce command"),
    }
    match CommandFactory::create(parsed("produce --topic demo")) {
        Err(CliError::InvalidArguments(m)) => assert_eq!(m, "Missing required option --message"),
        _ => panic!("expected an error"),
    }
    match CommandFactory::create(parsed("consume --topic demo --commit true --offset 4")) {
        Ok(Command::Consume(c)) => {
            assert!(c.commit);
            assert_eq!(c.offset, 4);
            assert_eq!(c.max_records, 10);
            assert_eq!(c.group, "default");
        },
        _ => panic!("expected a consume command"),
    }
    match CommandFactory::create(parsed("start-broker")) {
        Ok(Command::StartBroker(c)) => assert_eq!(c.config_path, "assets/broker.toml"),
        _ => panic!("expected a start-broker command"),
    }
    match CommandFactory::create(parsed("start-broker --config conf/b.toml")) {
        Ok(Command::StartBroker(c)) => assert_eq!(c.config_path, "conf/b.toml"),
        _ => panic!("expected a start-broker command"),
    }
    match CommandFactory::create(parsed("init my-ws --path /tmp")) {
        Ok(Command::Init(c)) => {
            assert_eq!(c.workspace_name, "my-ws");
            assert_eq!(c.path, Some("/tmp".to_string()));
        },
        _ => panic!("expected an init command"),
    }
    match CommandFactory::create(parsed("init")) {
        Err(CliError::InvalidArguments(m)) => assert_eq!(m, "Workspace name must be provided"),
        _ => panic!("expected an error"),
    }
    match CommandFactory::create(parsed("frobnicate")) {
        Err(CliError::UnsupportedCommand(m)) => assert_eq!(m, "frobnicate"),
        _ => panic!("expected an error"),
    }
    match CommandFactory::create(parsed("create-topic")) {
        Err(CliError::InvalidArguments(m)) => assert_eq!(m, "Missing required option --topic"),
        _ => panic!("expected an error"),
    }
    match CommandFactory::create(parsed("list-topics --max-frame-bytes nope")) {
        Err(CliError::InvalidArguments(m)) => assert_eq!(m, "Invalid --max-frame-bytes: invalid digit found in string"),
        _ => panic!("expected an error"),
    }
}

#[test]
fn workspaces_are_resolved_and_validated() {
    let w = WorkspaceResolver::resolve_with_home("ws", Some("/tmp"), None).ok().unwrap();
    assert_eq!(w.root(), "/tmp/ws");
    let h = WorkspaceResolver::resolve_with_home("ws", None, Some("/home/u".to_string())).ok().unwrap();
    assert_eq!(h.root(), "/home/u/ws");
    match WorkspaceResolver::resolve_with_home("ws", None, None) {
        Err(CliError::UnexpectedError(m)) => assert_eq!(m, "Unable to determine user home directory"),
        _ => panic!("expected an error"),
    }
    let mut fs = MemoryFileSystem::new();
    let workspace = Workspace::new("/tmp/ws".to_string());
    assert!(WorkspaceValidator::validate(&fs, &workspace).is_ok());
    Directory::create(&mut fs, &workspace).unwrap();
    assert!(fs.is_directory("/tmp/ws/data/consumer-groups"));
    assert!(fs.is_directory("/tmp/ws/temp"));
    match WorkspaceValidator::validate(&fs, &workspace) {
        Err(CliError::InvalidArguments(m)) => assert_eq!(m, "Workspace '/tmp/ws' already exists."),
        _ => panic!("expected an error"),
    }
}

#[test]
fn workspace_initialization_writes_the_broker_configuration() {
    let generators = WorkspaceTemplateGenerator::new(vec![BrokerTemplateGenerator]);
    let initializer = WorkspaceInitializer::new("ws".to_string(), Some("/tmp".to_string()), generators);
    let mut fs = MemoryFileSystem::new();
    let result = initializer.initialize_with_home(&mut fs, Some("/home/u".to_string())).ok().unwrap();
    assert_eq!(result.message, "Workspace initialized at /tmp/ws");
    let text = String::from_utf8(fs.read_file("/tmp/ws/config/broker.toml").unwrap()).unwrap();
    let configuration = Configuration::parse(&text).unwrap();
    assert_eq!(configuration.get("storage.topics_directory").unwrap(), "data/topics");
    assert_eq!(fs.read_file("/home/u/.es_workspace").unwrap(), b"/tmp/ws".to_vec());
    match initializer.initialize_with_home(&mut fs, Some("/home/u".to_string())) {
        Err(CliError::InvalidArguments(m)) => assert_eq!(m, "Workspace '/tmp/ws' already exists."),
        _ => panic!("expected an error"),
    }
}

#[test]
fn consumer_steps_after_a_poll() {
    let env = environment();
    let command = match ConsumeCommand::create_executable_cmd(parsed("consume --topic demo --commit true"), &env) {
        Ok(c) => c,
        _ => panic!("expected a consume command"),
    };
    let step = command.after_poll(0, Some(4)).ok().unwrap();
    assert_eq!(step.next_offset, 5);
    assert_eq!(step.commit, Some(5));
    assert!(!step.wait);
    let idle = command.after_poll(5, None).ok().unwrap();
    assert_eq!(idle.next_offset, 5);
    assert!(idle.wait);
    assert!(idle.commit.is_none());
    assert!(command.after_poll(0, Some(u64::MAX)).is_err());
}

#[test]
fn listing_messages() {
    assert_eq!(topics_message(&vec![]), "No topics found");
    assert_eq!(topics_message(&vec!["a".to_string(), "b".to_string()]), "a\nb");
    assert_eq!(created_topic_message("demo"), "Created topic demo");
}

#[test]
fn negative_exit_codes_are_shown() {
    let result = CommandResult { success: false, exit_code: -3, message: "m".to_string() };
    assert_eq!(result.text(), "Command Result\n--------------\nSuccess   : false\nExit Code : -3\nMessage   : m");
}

#[test]
fn per_command_builders_use_the_workspace_and_its_configuration() {
    let env = environment();
    match StartBrokerCommand::create_executable_cmd(parsed("start-broker"), &env) {
        Ok(c) => {
            assert_eq!(c.config_path, "/ws/config/broker.toml");
            assert_eq!(c.workspace_root, "/ws");
        },
        _ => panic!("expected a start-broker command"),
    }
    match ProduceCommand::create_executable_cmd(parsed("produce --topic demo"), &env) {
        Ok(c) => assert_eq!(c.message, None),
        _ => panic!("expected a produce command"),
    }
    match ConsumeCommand::create_executable_cmd(parsed("consume --topic demo"), &env) {
        Ok(c) => assert_eq!(c.poll_interval_ms, 500),
        _ => panic!("expected a consume command"),
    }
    let configuration = Configuration::parse("[broker]\nport = 9100\n").unwrap();
    let configured = CommandEnvironment { workspace_root: "/ws".to_string(), configuration: Some(configuration) };
    match ProduceCommand::create_executable_cmd(parsed("produce --topic demo --message m"), &configured) {
        Ok(c) => assert_eq!(c.connection.port, 9100),
        _ => panic!("expected a produce command"),
    }
    match CommandFactory::create(parsed("produce --topic demo --message m")) {
        Ok(Command::Produce(c)) => assert_eq!(c.connection.port, 9092),
        _ => panic!("expected a produce command"),
    }
}
