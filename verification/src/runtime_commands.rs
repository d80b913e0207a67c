//! The commands the command factory builds: each reads its options from
//! the command line alone, with fixed defaults, and reaches the broker with
//! the connection settings the command line gives.
use vstd::prelude::*;

use crate::cli::{
    bytes_of, connection_of, create_topic_of, invalid, missing_option_message, option_bytes, option_number,
    option_or, or_default, parse_u32, parse_u64, required, same_text, ClientConnectionOptions, CliError,
    CliErrorView, ConnectionView, ParsedCommand,
};

verus! {

/// Runs the broker with the configuration file at `config_path`.
pub struct StartBrokerCommand {
    pub config_path: String,
}

/// Creates a topic on the broker.
pub struct CreateTopicCommand {
    pub topic: String,
    pub partitions: u32,
    pub segment_max_bytes: u64,
    pub connection: ClientConnectionOptions,
}

/// Lists the broker's topics.
pub struct ListTopicsCommand {
    pub connection: ClientConnectionOptions,
}

/// Sends one record to the broker.
pub struct ProduceCommand {
    pub topic: String,
    pub partition: u32,
    pub key: Option<Vec<u8>>,
    pub message: Vec<u8>,
    pub connection: ClientConnectionOptions,
}

/// Polls records once from the broker, committing the next offset when
/// asked.
pub struct ConsumeCommand {
    pub topic: String,
    pub partition: u32,
    pub offset: u64,
    pub max_records: u32,
    pub commit: bool,
    pub group: String,
    pub connection: ClientConnectionOptions,
}

/// The configuration file a start-broker command line names: option
/// `config`, else `assets/broker.toml`.
pub open spec fn start_broker_config_of(p: ParsedCommand) -> Seq<char> {
    or_default(p.opt("config"@), "assets/broker.toml"@)
}

/// A produce command line as plain values (topic, partition, key, message,
/// connection), or its first error: `topic` and `message` are required.
pub open spec fn runtime_produce_of(p: ParsedCommand) -> Result<
    (Seq<char>, u32, Option<Seq<u8>>, Seq<u8>, ConnectionView),
    CliErrorView,
> {
    match p.opt("topic"@) {
        None => Err(invalid(missing_option_message("topic"@))),
        Some(topic) => match option_number(or_default(p.opt("partition"@), "0"@), "partition"@, u32::MAX as nat) {
            Err(m) => Err(invalid(m)),
            Ok(partition) => match bytes_of(p.opt("message"@)) {
                None => Err(invalid(missing_option_message("message"@))),
                Some(message) => match connection_of(p, None) {
                    Err(e) => Err(e),
                    Ok(conn) => Ok((topic, partition as u32, bytes_of(p.opt("key"@)), message, conn)),
                },
            },
        },
    }
}

/// A consume command as plain values: topic, partition, offset, record
/// limit, commit, group and connection.
pub type RuntimeConsumeView = (Seq<char>, u32, u64, u32, bool, Seq<char>, ConnectionView);

/// A consume command line as plain values, or its first error.
pub open spec fn runtime_consume_of(p: ParsedCommand) -> Result<RuntimeConsumeView, CliErrorView> {
    match p.opt("topic"@) {
        None => Err(invalid(missing_option_message("topic"@))),
        Some(topic) => match option_number(or_default(p.opt("partition"@), "0"@), "partition"@, u32::MAX as nat) {
            Err(m) => Err(invalid(m)),
            Ok(partition) => match option_number(or_default(p.opt("offset"@), "0"@), "offset"@, u64::MAX as nat) {
                Err(m) => Err(invalid(m)),
                Ok(offset) => match option_number(
                    or_default(p.opt("max-records"@), "10"@),
                    "max-records"@,
                    u32::MAX as nat,
                ) {
                    Err(m) => Err(invalid(m)),
                    Ok(max_records) => match connection_of(p, None) {
                        Err(e) => Err(e),
                        Ok(conn) => Ok(
                            (
                                topic,
                                partition as u32,
                                offset as u64,
                                max_records as u32,
                                p.opt("commit"@) == Some("true"@),
                                or_default(p.opt("group"@), "default"@),
                                conn,
                            ),
                        ),
                    },
                },
            },
        },
    }
}

impl StartBrokerCommand {
    /// The configuration file is option `config`, else `assets/broker.toml`.
    pub fn create_executable_cmd(parsed_command: ParsedCommand) -> (r: Result<Self, CliError>)
        ensures
            r matches Ok(c) && c.config_path@ == start_broker_config_of(parsed_command),
    {
        let config_path = option_or(&parsed_command, "config", "assets/broker.toml");
        Ok(StartBrokerCommand { config_path })
    }
}

impl CreateTopicCommand {
    /// Option `topic` is required; `partitions` defaults to 1 and
    /// `segment-max-bytes` to 1048576.
    pub fn create_executable_cmd(parsed_command: ParsedCommand) -> (r: Result<Self, CliError>)
        ensures
            match create_topic_of(parsed_command, None) {
                Ok(v) => r matches Ok(c) && (c.topic@, c.partitions, c.segment_max_bytes, c.connection@) == v,
                Err(e) => r matches Err(x) && x@ == e,
            },
    {
        let topic = match required(&parsed_command, "topic") {
            Ok(t) => t,
            Err(e) => return Err(e),
        };
        let pt = option_or(&parsed_command, "partitions", "1");
        let partitions = match parse_u32(pt.as_str(), "partitions") {
            Ok(v) => v,
            Err(e) => return Err(e),
        };
        let st = option_or(&parsed_command, "segment-max-bytes", "1048576");
        let segment_max_bytes = match parse_u64(st.as_str(), "segment-max-bytes") {
            Ok(v) => v,
            Err(e) => return Err(e),
        };
        let connection = match ClientConnectionOptions::from_command(&parsed_command, None) {
            Ok(c) => c,
            Err(e) => return Err(e),
        };
        Ok(CreateTopicCommand { topic, partitions, segment_max_bytes, connection })
    }
}

impl ListTopicsCommand {
    pub fn create_executable_cmd(parsed_command: ParsedCommand) -> (r: Result<Self, CliError>)
        ensures
            match connection_of(parsed_command, None) {
                Ok(v) => r matches Ok(c) && c.connection@ == v,
                Err(e) => r matches Err(x) && x@ == e,
            },
    {
        match ClientConnectionOptions::from_command(&parsed_command, None) {
            Ok(connection) => Ok(ListTopicsCommand { connection }),
            Err(e) => Err(e),
        }
    }
}

impl ProduceCommand {
    /// Options `topic` and `message` are required; `partition` defaults to
    /// 0; `key` and `message` are taken as UTF-8 bytes.
    pub fn create_executable_cmd(parsed_command: ParsedCommand) -> (r: Result<Self, CliError>)
        ensures
            match runtime_produce_of(parsed_command) {
                Ok(v) => r matches Ok(c) && (
                    c.topic@,
                    c.partition,
                    crate::cli::bytes_view(c.key),
                    c.message@,
                    c.connection@,
                ) == v,
                Err(e) => r matches Err(x) && x@ == e,
            },
    {
        let topic = match required(&parsed_command, "topic") {
            Ok(t) => t,
            Err(e) => return Err(e),
        };
        let pt = option_or(&parsed_command, "partition", "0");
        let partition = match parse_u32(pt.as_str(), "partition") {
            Ok(v) => v,
            Err(e) => return Err(e),
        };
        let key = option_bytes(&parsed_command, "key");
        let message = match option_bytes(&parsed_command, "message") {
            Some(m) => m,
            None => return Err(CliError::InvalidArguments(crate::text::concat("Missing required option --", "message"))),
        };
        let connection = match ClientConnectionOptions::from_command(&parsed_command, None) {
            Ok(c) => c,
            Err(e) => return Err(e),
        };
        Ok(ProduceCommand { topic, partition, key, message, connection })
    }
}

impl ConsumeCommand {
    /// Option `topic` is required; `partition` and `offset` default to 0,
    /// `max-records` to 10 and `group` to `default`; the next offset is
    /// committed when `commit` is `true`.
    pub fn create_executable_cmd(parsed_command: ParsedCommand) -> (r: Result<Self, CliError>)
        ensures
            match runtime_consume_of(parsed_command) {
                Ok(v) => r matches Ok(c) && (
                    c.topic@,
                    c.partition,
                    c.offset,
                    c.max_records,
                    c.commit,
                    c.group@,
                    c.connection@,
                ) == v,
                Err(e) => r matches Err(x) && x@ == e,
            },
    {
        let topic = match required(&parsed_command, "topic") {
            Ok(t) => t,
            Err(e) => return Err(e),
        };
        let pt = option_or(&parsed_command, "partition", "0");
        let partition = match parse_u32(pt.as_str(), "partition") {
            Ok(v) => v,
            Err(e) => return Err(e),
        };
        let ot = option_or(&parsed_command, "offset", "0");
        let offset = match parse_u64(ot.as_str(), "offset") {
            Ok(v) => v,
            Err(e) => return Err(e),
        };
        let mt = option_or(&parsed_command, "max-records", "10");
        let max_records = match parse_u32(mt.as_str(), "max-records") {
            Ok(v) => v,
            Err(e) => return Err(e),
        };
        let commit = match parsed_command.option("commit") {
            Some(v) => same_text(v, "true"),
            None => false,
        };
        let group = option_or(&parsed_command, "group", "default");
        let connection = match ClientConnectionOptions::from_command(&parsed_command, None) {
            Ok(c) => c,
            Err(e) => return Err(e),
        };
        Ok(ConsumeCommand { topic, partition, offset, max_records, commit, group, connection })
    }
}

/// A start-broker command line runs the broker with the file `--config`
/// names, else with `assets/broker.toml`.
pub proof fn law_start_broker_command(p: ParsedCommand)
    ensures
        p.opt("config"@) is None ==> start_broker_config_of(p) == "assets/broker.toml"@,
        p.opt("config"@) matches Some(f) ==> start_broker_config_of(p) == f,
{
}

/// A produce command line needs `--topic` and `--message`; it sends the
/// message's UTF-8 bytes (and the key's, when `--key` is given) to partition
/// 0 unless `--partition` says otherwise, over the connection the command
/// line alone gives.
pub proof fn law_runtime_produce_command(p: ParsedCommand)
    ensures
        p.opt("topic"@) is None ==> runtime_produce_of(p) == Err::<
            (Seq<char>, u32, Option<Seq<u8>>, Seq<u8>, ConnectionView),
            CliErrorView,
        >(invalid(missing_option_message("topic"@))),
        p.opt("topic"@) is Some && p.opt("partition"@) is None && p.opt("message"@) is None ==> runtime_produce_of(p)
            == Err::<(Seq<char>, u32, Option<Seq<u8>>, Seq<u8>, ConnectionView), CliErrorView>(
            invalid(missing_option_message("message"@)),
        ),
        runtime_produce_of(p) matches Ok(v) ==> {
            &&& p.opt("topic"@) == Some(v.0)
            &&& p.opt("message"@) matches Some(m) && v.3 == vstd::utf8::encode_utf8(m)
            &&& v.2 == bytes_of(p.opt("key"@))
            &&& (p.opt("partition"@) is None ==> v.1 == 0)
            &&& connection_of(p, None) == Ok::<ConnectionView, CliErrorView>(v.4)
        },
        p.opt("partition"@) matches Some(t) ==> (runtime_produce_of(p) matches Ok(v) ==> option_number(
            t,
            "partition"@,
            u32::MAX as nat,
        ) == Ok::<nat, Seq<char>>(v.1 as nat)),
{
    crate::cli::lemma_default_numbers("partition"@);
}

/// A consume command line needs `--topic`; unless options say otherwise it
/// polls partition 0 from offset 0, at most 10 records, in group `default`,
/// and commits only when `--commit` is `true`, over the connection the
/// command line alone gives.
pub proof fn law_runtime_consume_command(p: ParsedCommand)
    ensures
        p.opt("topic"@) is None ==> runtime_consume_of(p) == Err::<RuntimeConsumeView, CliErrorView>(
            invalid(missing_option_message("topic"@)),
        ),
        runtime_consume_of(p) matches Ok(v) ==> {
            &&& p.opt("topic"@) == Some(v.0)
            &&& (p.opt("partition"@) is None ==> v.1 == 0)
            &&& (p.opt("offset"@) is None ==> v.2 == 0)
            &&& (p.opt("max-records"@) is None ==> v.3 == 10)
            &&& (v.4 <==> p.opt("commit"@) == Some("true"@))
            &&& (p.opt("group"@) is None ==> v.5 == "default"@)
            &&& (p.opt("group"@) matches Some(g) ==> v.5 == g)
            &&& connection_of(p, None) == Ok::<ConnectionView, CliErrorView>(v.6)
        },
        p.opt("partition"@) matches Some(t) ==> (runtime_consume_of(p) matches Ok(v) ==> option_number(
            t,
            "partition"@,
            u32::MAX as nat,
        ) == Ok::<nat, Seq<char>>(v.1 as nat)),
        p.opt("offset"@) matches Some(t) ==> (runtime_consume_of(p) matches Ok(v) ==> option_number(
            t,
            "offset"@,
            u64::MAX as nat,
        ) == Ok::<nat, Seq<char>>(v.2 as nat)),
        p.opt("max-records"@) matches Some(t) ==> (runtime_consume_of(p) matches Ok(v) ==> option_number(
            t,
            "max-records"@,
            u32::MAX as nat,
        ) == Ok::<nat, Seq<char>>(v.3 as nat)),
        p.opt("topic"@) is Some && p.opt("partition"@) is None && p.opt("offset"@) is None && p.opt("max-records"@)
            is None ==> (runtime_consume_of(p) is Ok <==> connection_of(p, None) is Ok),
{
    crate::cli::lemma_default_numbers("partition"@);
    crate::cli::lemma_default_numbers("offset"@);
    crate::cli::lemma_default_numbers("max-records"@);
}

} // verus!
