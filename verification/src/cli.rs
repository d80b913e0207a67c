//! The command layer of the command-line front end: the command line as
//! parsed, its options and their defaults, and the commands built from it.
use vstd::prelude::*;

use vstd::utf8::encode_utf8;

use crate::configuration::Configuration;
use crate::kv_text::same_chars;
use crate::topic_store::utf8_bytes;
use crate::paths::{join, join_path2};
use crate::segment::{trim_start, trim_start_chars};
use crate::text::{
    chars_of, concat, concat3, contains_text, decimal, decimal_chars, has_prefix, int_error_text,
    occurs_in, parse_uint, parse_uint_text, starts_with, string_from_chars, string_from_str,
};

verus! {

/// The kinds of failure of the command-line front end.
#[derive(Clone, Copy, PartialEq, Eq, Structural, Debug)]
pub enum CliErrorKind {
    InvalidArguments,
    UnexpectedError,
    UnsupportedCommand,
}

/// Why a command could not be built or run.
#[derive(Debug)]
pub enum CliError {
    InvalidArguments(String),
    UnexpectedError(String),
    UnsupportedCommand(String),
}

pub type CliErrorView = (CliErrorKind, Seq<char>);

impl View for CliError {
    type V = CliErrorView;

    open spec fn view(&self) -> CliErrorView {
        match self {
            CliError::InvalidArguments(m) => (CliErrorKind::InvalidArguments, m@),
            CliError::UnexpectedError(m) => (CliErrorKind::UnexpectedError, m@),
            CliError::UnsupportedCommand(m) => (CliErrorKind::UnsupportedCommand, m@),
        }
    }
}

/// The exit code of each kind of failure.
pub open spec fn exit_code_of(kind: CliErrorKind) -> i32 {
    match kind {
        CliErrorKind::UnexpectedError => 1,
        _ => 2,
    }
}

impl CliError {
    /// What went wrong.
    pub fn message(&self) -> (m: &str)
        ensures
            m@ == self@.1,
    {
        match self {
            CliError::InvalidArguments(m) => m.as_str(),
            CliError::UnexpectedError(m) => m.as_str(),
            CliError::UnsupportedCommand(m) => m.as_str(),
        }
    }

    /// The process exit code for this failure.
    pub fn exit_code(&self) -> (c: i32)
        ensures
            c == exit_code_of(self@.0),
    {
        match self {
            CliError::UnexpectedError(_) => 1,
            _ => 2,
        }
    }

    /// The text shown for this failure.
    pub fn text(&self) -> (s: String)
        ensures
            s@ == "Exit Code : "@ + decimal(exit_code_of(self@.0) as nat) + "\nMessage   : "@ + self@.1,
    {
        let code = decimal_chars(self.exit_code() as u64);
        let code_text = string_from_chars(code.as_slice());
        let head = concat3("Exit Code : ", code_text.as_str(), "\nMessage   : ");
        concat(head.as_str(), self.message())
    }
}

/// The decimal text of an integer, with a leading `-` when it is negative.
pub open spec fn signed_decimal(i: int) -> Seq<char> {
    if i < 0 {
        seq!['-'] + decimal((-i) as nat)
    } else {
        decimal(i as nat)
    }
}

/// The outcome of a command that ran.
pub struct CommandResult {
    pub success: bool,
    pub exit_code: i32,
    pub message: String,
}

impl CommandResult {
    /// The text shown for this outcome.
    pub fn text(&self) -> (s: String)
        ensures
            s@ == "Command Result\n--------------\nSuccess   : "@ + (if self.success {
                "true"@
            } else {
                "false"@
            }) + "\nExit Code : "@ + signed_decimal(self.exit_code as int) + "\nMessage   : "@ + self.message@,
    {
        let flag = if self.success {
            "true"
        } else {
            "false"
        };
        let code_text = if self.exit_code < 0 {
            let magnitude = decimal_chars((0i64 - self.exit_code as i64) as u64);
            let digits = string_from_chars(magnitude.as_slice());
            concat("-", digits.as_str())
        } else {
            let code = decimal_chars(self.exit_code as u64);
            string_from_chars(code.as_slice())
        };
        proof {
            reveal_strlit("-");
        }
        let head = concat("Command Result\n--------------\nSuccess   : ", flag);
        let with_code = concat3(head.as_str(), "\nExit Code : ", code_text.as_str());
        concat3(with_code.as_str(), "\nMessage   : ", self.message.as_str())
    }
}

/// The value given last for `key` among `options`.
pub open spec fn lookup_last(options: Seq<(String, String)>, key: Seq<char>) -> Option<Seq<char>>
    decreases options.len(),
{
    if options.len() == 0 {
        None
    } else if options.last().0@ == key {
        Some(options.last().1@)
    } else {
        lookup_last(options.drop_last(), key)
    }
}

/// The options as a map: a later value for a key replaces an earlier one.
pub open spec fn options_map(options: Seq<(String, String)>) -> Map<Seq<char>, Seq<char>>
    decreases options.len(),
{
    if options.len() == 0 {
        Map::empty()
    } else {
        options_map(options.drop_last()).insert(options.last().0@, options.last().1@)
    }
}

/// Looking up the last value is looking up the map.
pub proof fn lemma_lookup_last(options: Seq<(String, String)>, key: Seq<char>)
    ensures
        options_map(options).contains_key(key) <==> lookup_last(options, key) is Some,
        lookup_last(options, key) matches Some(v) ==> options_map(options)[key] == v,
    decreases options.len(),
{
    if options.len() > 0 {
        lemma_lookup_last(options.drop_last(), key);
    }
}

pub(crate) fn same_text(a: &str, b: &str) -> (r: bool)
    ensures
        r == (a@ == b@),
{
    let x = chars_of(a);
    let y = chars_of(b);
    same_chars(x.as_slice(), y.as_slice())
}

/// The value given last for `key`.
fn find_last_option(options: &Vec<(String, String)>, key: &str) -> (r: Option<usize>)
    ensures
        r matches Some(i) ==> i < options@.len() && lookup_last(options@, key@) == Some(options@[i as int].1@),
        r is None ==> lookup_last(options@, key@) is None,
{
    let mut i: usize = options.len();
    proof {
        assert(options@.take(i as int) =~= options@);
    }
    while i > 0
        invariant
            i <= options@.len(),
            lookup_last(options@, key@) == lookup_last(options@.take(i as int), key@),
        decreases i,
    {
        proof {
            assert(options@.take(i as int).drop_last() =~= options@.take(i - 1));
        }
        if same_text(options[i - 1].0.as_str(), key) {
            return Some(i - 1);
        }
        i = i - 1;
    }
    None
}

/// A command line, parsed: the command's name, its plain arguments and its
/// `--key value` options.
pub struct ParsedCommand {
    pub name: String,
    pub arguments: Vec<String>,
    pub options: Vec<(String, String)>,
}

impl ParsedCommand {
    /// The value of option `key`, the last one given.
    pub open spec fn opt(&self, key: Seq<char>) -> Option<Seq<char>> {
        lookup_last(self.options@, key)
    }

    /// The plain argument at `index`.
    pub fn argument(&self, index: usize) -> (r: Option<&str>)
        ensures
            index < self.arguments@.len() ==> (r matches Some(s) && s@ == self.arguments@[index as int]@),
            index >= self.arguments@.len() ==> r is None,
    {
        if index < self.arguments.len() {
            Some(self.arguments[index].as_str())
        } else {
            None
        }
    }

    /// The value of option `key`.
    pub fn option(&self, key: &str) -> (r: Option<&str>)
        ensures
            r matches Some(s) ==> self.opt(key@) == Some(s@),
            r is None ==> self.opt(key@) is None,
    {
        match find_last_option(&self.options, key) {
            Some(i) => Some(self.options[i].1.as_str()),
            None => None,
        }
    }

    /// Whether option `key` was given.
    pub fn has_option(&self, key: &str) -> (b: bool)
        ensures
            b == self.opt(key@) is Some,
            b == options_map(self.options@).contains_key(key@),
    {
        proof {
            lemma_lookup_last(self.options@, key@);
        }
        find_last_option(&self.options, key).is_some()
    }
}

/// What the rest of a command line gives, from position `i` on: plain
/// arguments in order, and options in order. A word that starts with `--`
/// is an option named by what follows its leading dashes; its value is the
/// next word unless that also starts with `--`, in which case it is `true`.
pub open spec fn parse_words(
    args: Seq<Seq<char>>,
    i: int,
    arguments: Seq<Seq<char>>,
    options: Seq<(Seq<char>, Seq<char>)>,
) -> (Seq<Seq<char>>, Seq<(Seq<char>, Seq<char>)>)
    decreases args.len() - i,
{
    if i < 1 || i >= args.len() {
        (arguments, options)
    } else if has_prefix(args[i], "--"@) {
        let key = trim_start(args[i], "--"@);
        if i + 1 < args.len() && !has_prefix(args[i + 1], "--"@) {
            parse_words(args, i + 2, arguments, options.push((key, args[i + 1])))
        } else {
            parse_words(args, i + 1, arguments, options.push((key, "true"@)))
        }
    } else {
        parse_words(args, i + 1, arguments.push(args[i]), options)
    }
}

pub open spec fn string_views(s: Seq<String>) -> Seq<Seq<char>> {
    s.map_values(|x: String| x@)
}

pub open spec fn option_views(s: Seq<(String, String)>) -> Seq<(Seq<char>, Seq<char>)> {
    s.map_values(|x: (String, String)| (x.0@, x.1@))
}

/// Reads command lines.
pub struct CommandParser;

impl CommandParser {
    /// Parses the words of a command line that follow the program's name.
    pub fn parse(args: Vec<String>) -> (r: Result<ParsedCommand, CliError>)
        ensures
            args@.len() == 0 <==> r is Err,
            r matches Err(e) ==> e@ == (CliErrorKind::InvalidArguments, "No command specified"@),
            r matches Ok(p) ==> p.name@ == args@[0]@ && (string_views(p.arguments@), option_views(p.options@))
                == parse_words(string_views(args@), 1, Seq::empty(), Seq::empty()),
    {
        if args.len() == 0 {
            return Err(CliError::InvalidArguments(string_from_str("No command specified")));
        }
        let ghost words = string_views(args@);
        let name = string_from_str(args[0].as_str());
        let mut arguments: Vec<String> = Vec::new();
        let mut options: Vec<(String, String)> = Vec::new();
        let dashes = chars_of("--");
        let mut index: usize = 1;
        proof {
            assert(string_views(arguments@) =~= Seq::<Seq<char>>::empty());
            assert(option_views(options@) =~= Seq::<(Seq<char>, Seq<char>)>::empty());
        }
        while index < args.len()
            invariant
                1 <= index <= args@.len(),
                words == string_views(args@),
                dashes@ == "--"@,
                parse_words(words, 1, Seq::empty(), Seq::empty()) == parse_words(
                    words,
                    index as int,
                    string_views(arguments@),
                    option_views(options@),
                ),
            decreases args@.len() - index,
        {
            let current = chars_of(args[index].as_str());
            let ghost av = string_views(arguments@);
            let ghost ov = option_views(options@);
            if starts_with(current.as_slice(), dashes.as_slice()) {
                let key_chars = trim_start_chars(current, dashes.as_slice());
                let key = string_from_chars(key_chars.as_slice());
                let next_is_value = if index + 1 < args.len() {
                    let next = chars_of(args[index + 1].as_str());
                    !starts_with(next.as_slice(), dashes.as_slice())
                } else {
                    false
                };
                if next_is_value {
                    options.push((key, string_from_str(args[index + 1].as_str())));
                    proof {
                        assert(option_views(options@) =~= ov.push((key@, words[index + 1])));
                    }
                    index = index + 2;
                } else {
                    options.push((key, string_from_str("true")));
                    proof {
                        assert(option_views(options@) =~= ov.push((key@, "true"@)));
                    }
                    index = index + 1;
                }
            } else {
                arguments.push(string_from_str(args[index].as_str()));
                proof {
                    assert(string_views(arguments@) =~= av.push(words[index as int]));
                }
                index = index + 1;
            }
        }
        Ok(ParsedCommand { name, arguments, options })
    }
}

/// A command that ran as it should, with its message.
pub fn success(message: String) -> (r: CommandResult)
    ensures
        r.success,
        r.exit_code == 0,
        r.message@ == message@,
{
    CommandResult { success: true, exit_code: 0, message }
}

/// The message for a missing option.
pub open spec fn missing_option_message(key: Seq<char>) -> Seq<char> {
    "Missing required option --"@ + key
}

/// The value of option `key`, which must be given.
pub fn required(parsed_command: &ParsedCommand, key: &str) -> (r: Result<String, CliError>)
    ensures
        r matches Ok(v) ==> parsed_command.opt(key@) == Some(v@),
        r matches Err(e) ==> parsed_command.opt(key@) is None && e@ == (
            CliErrorKind::InvalidArguments,
            missing_option_message(key@),
        ),
        r is Ok <==> parsed_command.opt(key@) is Some,
{
    match parsed_command.option(key) {
        Some(v) => Ok(string_from_str(v)),
        None => Err(CliError::InvalidArguments(concat("Missing required option --", key))),
    }
}

/// Reading the value of option `key` as a number no larger than `max`: the
/// number, or the message of the failure.
pub open spec fn option_number(value: Seq<char>, key: Seq<char>, max: nat) -> Result<nat, Seq<char>> {
    match parse_uint(value, max) {
        Ok(v) => Ok(v),
        Err(k) => Err("Invalid --"@ + key + ": "@ + int_error_text(k)),
    }
}

fn parse_number(value: &str, key: &str, max: u64) -> (r: Result<u64, CliError>)
    ensures
        r matches Ok(v) ==> option_number(value@, key@, max as nat) == Ok::<nat, Seq<char>>(v as nat),
        r matches Err(e) ==> e@.0 == CliErrorKind::InvalidArguments && option_number(value@, key@, max as nat)
            == Err::<nat, Seq<char>>(e@.1),
{
    match parse_uint_text(value, max) {
        Ok(v) => Ok(v),
        Err(k) => {
            let head = concat3("Invalid --", key, ": ");
            Err(CliError::InvalidArguments(concat(head.as_str(), k.text())))
        },
    }
}

/// Reads `value` as a `u16` (option `key` names it in the error).
pub fn parse_u16(value: &str, key: &str) -> (r: Result<u16, CliError>)
    ensures
        r matches Ok(v) ==> option_number(value@, key@, u16::MAX as nat) == Ok::<nat, Seq<char>>(v as nat),
        r matches Err(e) ==> e@.0 == CliErrorKind::InvalidArguments && option_number(value@, key@, u16::MAX as nat)
            == Err::<nat, Seq<char>>(e@.1),
{
    match parse_number(value, key, u16::MAX as u64) {
        Ok(v) => Ok(v as u16),
        Err(e) => Err(e),
    }
}

/// Reads `value` as a `u32` (option `key` names it in the error).
pub fn parse_u32(value: &str, key: &str) -> (r: Result<u32, CliError>)
    ensures
        r matches Ok(v) ==> option_number(value@, key@, u32::MAX as nat) == Ok::<nat, Seq<char>>(v as nat),
        r matches Err(e) ==> e@.0 == CliErrorKind::InvalidArguments && option_number(value@, key@, u32::MAX as nat)
            == Err::<nat, Seq<char>>(e@.1),
{
    match parse_number(value, key, u32::MAX as u64) {
        Ok(v) => Ok(v as u32),
        Err(e) => Err(e),
    }
}

/// Reads `value` as a `u64` (option `key` names it in the error).
pub fn parse_u64(value: &str, key: &str) -> (r: Result<u64, CliError>)
    ensures
        r matches Ok(v) ==> option_number(value@, key@, u64::MAX as nat) == Ok::<nat, Seq<char>>(v as nat),
        r matches Err(e) ==> e@.0 == CliErrorKind::InvalidArguments && option_number(value@, key@, u64::MAX as nat)
            == Err::<nat, Seq<char>>(e@.1),
{
    parse_number(value, key, u64::MAX)
}

/// Reads `value` as a `usize` (option `key` names it in the error).
pub fn parse_usize(value: &str, key: &str) -> (r: Result<usize, CliError>)
    ensures
        r matches Ok(v) ==> option_number(value@, key@, usize::MAX as nat) == Ok::<nat, Seq<char>>(v as nat),
        r matches Err(e) ==> e@.0 == CliErrorKind::InvalidArguments && option_number(value@, key@, usize::MAX as nat)
            == Err::<nat, Seq<char>>(e@.1),
{
    match parse_number(value, key, usize::MAX as u64) {
        Ok(v) => Ok(v as usize),
        Err(e) => Err(e),
    }
}

/// The hint added to a failure to reach the broker.
pub open spec fn start_broker_hint() -> Seq<char> {
    "\nStart the broker first, for example: cargo run -p cli -- start-broker --workspace <workspace-path>"@
}

/// The error for a failure of a broker client: a failure to connect gets a
/// hint to start the broker.
pub fn client_error(message: &str) -> (e: CliError)
    ensures
        e@.0 == CliErrorKind::UnexpectedError,
        e@.1 == if occurs_in(message@, "Failed to connect"@) || occurs_in(message@, "actively refused"@) {
            message@ + start_broker_hint()
        } else {
            message@
        },
{
    let cs = chars_of(message);
    let a = chars_of("Failed to connect");
    let b = chars_of("actively refused");
    if contains_text(cs.as_slice(), a.as_slice()) || contains_text(cs.as_slice(), b.as_slice()) {
        CliError::UnexpectedError(
            concat(
                message,
                "\nStart the broker first, for example: cargo run -p cli -- start-broker --workspace <workspace-path>",
            ),
        )
    } else {
        CliError::UnexpectedError(string_from_str(message))
    }
}

/// The workspace a command works in: option `workspace`, else the active
/// workspace when there is one, else the current directory.
pub fn workspace_root(parsed_command: &ParsedCommand, active_workspace: Option<String>) -> (p: String)
    ensures
        p@ == match parsed_command.opt("workspace"@) {
            Some(w) => w,
            None => match active_workspace {
                Some(a) => a@,
                None => "."@,
            },
        },
{
    match parsed_command.option("workspace") {
        Some(w) => string_from_str(w),
        None => match active_workspace {
            Some(a) => a,
            None => string_from_str("."),
        },
    }
}

/// The broker's configuration file: option `config`, else
/// `config/broker.toml` in the workspace.
pub fn broker_config_path(parsed_command: &ParsedCommand, workspace_root: &str) -> (p: String)
    ensures
        p@ == match parsed_command.opt("config"@) {
            Some(c) => c,
            None => join(join(workspace_root@, "config"@), "broker.toml"@),
        },
{
    match parsed_command.option("config") {
        Some(c) => string_from_str(c),
        None => join_path2(workspace_root, "config", "broker.toml"),
    }
}

/// `o`, or `d` when it is `None`.
pub open spec fn or_default(o: Option<Seq<char>>, d: Seq<char>) -> Seq<char> {
    match o {
        Some(v) => v,
        None => d,
    }
}

/// A setting of a command: option `key`, else `config_key` of the broker's
/// configuration file when there is one, else `default`.
pub open spec fn setting_or(
    p: ParsedCommand,
    key: Seq<char>,
    configuration: Option<Configuration>,
    config_key: Seq<char>,
    default: Seq<char>,
) -> Seq<char> {
    match p.opt(key) {
        Some(v) => v,
        None => match configuration {
            Some(c) => or_default(c.value(config_key), default),
            None => default,
        },
    }
}

/// How to reach the broker, as plain values: host, port, frame limit.
pub type ConnectionView = (Seq<char>, u16, usize);

/// The connection settings a command line gives, or its first error.
pub open spec fn connection_of(p: ParsedCommand, configuration: Option<Configuration>) -> Result<
    ConnectionView,
    CliErrorView,
> {
    let host = setting_or(p, "host"@, configuration, "broker.host"@, "127.0.0.1"@);
    match option_number(setting_or(p, "port"@, configuration, "broker.port"@, "9092"@), "port"@, u16::MAX as nat) {
        Err(m) => Err((CliErrorKind::InvalidArguments, m)),
        Ok(port) => match option_number(
            setting_or(p, "max-frame-bytes"@, configuration, "network.max_frame_bytes"@, "1048576"@),
            "max-frame-bytes"@,
            usize::MAX as nat,
        ) {
            Err(m) => Err((CliErrorKind::InvalidArguments, m)),
            Ok(mfb) => Ok((host, port as u16, mfb as usize)),
        },
    }
}

/// How a client reaches the broker.
pub struct ClientConnectionOptions {
    pub host: String,
    pub port: u16,
    pub max_frame_bytes: usize,
}

impl View for ClientConnectionOptions {
    type V = ConnectionView;

    open spec fn view(&self) -> ConnectionView {
        (self.host@, self.port, self.max_frame_bytes)
    }
}

fn setting_value(
    parsed_command: &ParsedCommand,
    key: &str,
    configuration: Option<&Configuration>,
    config_key: &str,
    default: &str,
) -> (v: String)
    ensures
        v@ == setting_or(*parsed_command, key@, match configuration {
            Some(c) => Some(*c),
            None => None,
        }, config_key@, default@),
{
    match parsed_command.option(key) {
        Some(v) => string_from_str(v),
        None => match configuration {
            Some(c) => c.get_or(config_key, default),
            None => string_from_str(default),
        },
    }
}

pub open spec fn config_view(c: Option<&Configuration>) -> Option<Configuration> {
    match c {
        Some(c) => Some(*c),
        None => None,
    }
}

impl ClientConnectionOptions {
    /// The connection settings of a command line, with the broker's
    /// configuration file (when there is one) giving the defaults.
    pub fn from_command(parsed_command: &ParsedCommand, configuration: Option<&Configuration>) -> (r: Result<
        Self,
        CliError,
    >)
        ensures
            match connection_of(*parsed_command, config_view(configuration)) {
                Ok(v) => r matches Ok(c) && c@ == v,
                Err(e) => r matches Err(x) && x@ == e,
            },
    {
        let host = setting_value(parsed_command, "host", configuration, "broker.host", "127.0.0.1");
        let port_text = setting_value(parsed_command, "port", configuration, "broker.port", "9092");
        let port = match parse_u16(port_text.as_str(), "port") {
            Ok(v) => v,
            Err(e) => return Err(e),
        };
        let mfb_text = setting_value(parsed_command, "max-frame-bytes", configuration, "network.max_frame_bytes", "1048576");
        let max_frame_bytes = match parse_usize(mfb_text.as_str(), "max-frame-bytes") {
            Ok(v) => v,
            Err(e) => return Err(e),
        };
        Ok(ClientConnectionOptions { host, port, max_frame_bytes })
    }
}

/// What the commands are built from besides the command line: the
/// workspace in use and the broker's configuration file, when it exists.
pub struct CommandEnvironment {
    pub workspace_root: String,
    pub configuration: Option<Configuration>,
}

/// A command built from a command line.
pub trait BaseCommand: Sized {
    fn create_executable_cmd(parsed_command: ParsedCommand, environment: &CommandEnvironment) -> Result<
        Self,
        CliError,
    >;
}

/// Creates a workspace.
pub struct InitCommand {
    pub workspace_name: String,
    pub path: Option<String>,
}

/// Runs the broker.
pub struct StartBrokerCommand {
    pub config_path: String,
    pub workspace_root: String,
}

/// Creates a topic on the broker.
pub struct CreateTopicCommand {
    pub topic: String,
    pub partitions: u32,
    pub segment_max_bytes: u64,
    pub connection: ClientConnectionOptions,
}

/// Lists the broker's topics.
pub struct ListTopicsCommand {
    pub connection: ClientConnectionOptions,
}

/// Sends records to the broker: the message given, or each line read.
pub struct ProduceCommand {
    pub topic: String,
    pub partition: u32,
    pub key: Option<Vec<u8>>,
    pub message: Option<Vec<u8>>,
    pub connection: ClientConnectionOptions,
}

/// Polls records from the broker, committing offsets when asked.
pub struct ConsumeCommand {
    pub topic: String,
    pub partition: u32,
    pub offset: u64,
    pub max_records: u32,
    pub commit: bool,
    pub group: String,
    pub poll_interval_ms: u64,
    pub connection: ClientConnectionOptions,
}

/// The UTF-8 bytes of an option's value, when it is given.
pub open spec fn bytes_of(o: Option<Seq<char>>) -> Option<Seq<u8>> {
    match o {
        Some(v) => Some(encode_utf8(v)),
        None => None,
    }
}

pub open spec fn invalid(m: Seq<char>) -> CliErrorView {
    (CliErrorKind::InvalidArguments, m)
}

pub open spec fn init_of(p: ParsedCommand) -> Result<(Seq<char>, Option<Seq<char>>), CliErrorView> {
    if p.arguments@.len() == 0 {
        Err(invalid("Workspace name must be provided"@))
    } else {
        Ok((p.arguments@[0]@, p.opt("path"@)))
    }
}

pub open spec fn create_topic_of(p: ParsedCommand, c: Option<Configuration>) -> Result<
    (Seq<char>, u32, u64, ConnectionView),
    CliErrorView,
> {
    match p.opt("topic"@) {
        None => Err(invalid(missing_option_message("topic"@))),
        Some(topic) => match option_number(or_default(p.opt("partitions"@), "1"@), "partitions"@, u32::MAX as nat) {
            Err(m) => Err(invalid(m)),
            Ok(partitions) => match option_number(
                or_default(p.opt("segment-max-bytes"@), "1048576"@),
                "segment-max-bytes"@,
                u64::MAX as nat,
            ) {
                Err(m) => Err(invalid(m)),
                Ok(smb) => match connection_of(p, c) {
                    Err(e) => Err(e),
                    Ok(conn) => Ok((topic, partitions as u32, smb as u64, conn)),
                },
            },
        },
    }
}

pub open spec fn produce_of(p: ParsedCommand, c: Option<Configuration>) -> Result<
    (Seq<char>, u32, Option<Seq<u8>>, Option<Seq<u8>>, ConnectionView),
    CliErrorView,
> {
    match p.opt("topic"@) {
        None => Err(invalid(missing_option_message("topic"@))),
        Some(topic) => match option_number(or_default(p.opt("partition"@), "0"@), "partition"@, u32::MAX as nat) {
            Err(m) => Err(invalid(m)),
            Ok(partition) => match connection_of(p, c) {
                Err(e) => Err(e),
                Ok(conn) => Ok((topic, partition as u32, bytes_of(p.opt("key"@)), bytes_of(p.opt("message"@)), conn)),
            },
        },
    }
}

/// A consume command as plain values: topic, partition, offset, record
/// limit, commit, group, poll interval and connection.
pub type ConsumeView = (Seq<char>, u32, u64, u32, bool, Seq<char>, u64, ConnectionView);

pub open spec fn consume_of(p: ParsedCommand, c: Option<Configuration>) -> Result<ConsumeView, CliErrorView> {
    match p.opt("topic"@) {
        None => Err(invalid(missing_option_message("topic"@))),
        Some(topic) => match option_number(or_default(p.opt("partition"@), "0"@), "partition"@, u32::MAX as nat) {
            Err(m) => Err(invalid(m)),
            Ok(partition) => match option_number(or_default(p.opt("offset"@), "0"@), "offset"@, u64::MAX as nat) {
                Err(m) => Err(invalid(m)),
                Ok(offset) => match option_number(
                    or_default(p.opt("max-records"@), "10"@),
                    "max-records"@,
                    u32::MAX as nat,
                ) {
                    Err(m) => Err(invalid(m)),
                    Ok(max_records) => match option_number(
                        or_default(p.opt("poll-interval-ms"@), "500"@),
                        "poll-interval-ms"@,
                        u64::MAX as nat,
                    ) {
                        Err(m) => Err(invalid(m)),
                        Ok(poll) => match connection_of(p, c) {
                            Err(e) => Err(e),
                            Ok(conn) => Ok(
                                (
                                    topic,
                                    partition as u32,
                                    offset as u64,
                                    max_records as u32,
                                    p.opt("commit"@) == Some("true"@),
                                    or_default(p.opt("group"@), "default"@),
                                    poll as u64,
                                    conn,
                                ),
                            ),
                        },
                    },
                },
            },
        },
    }
}

pub(crate) fn option_or(parsed_command: &ParsedCommand, key: &str, default: &str) -> (v: String)
    ensures
        v@ == or_default(parsed_command.opt(key@), default@),
{
    match parsed_command.option(key) {
        Some(v) => string_from_str(v),
        None => string_from_str(default),
    }
}

pub(crate) fn option_bytes(parsed_command: &ParsedCommand, key: &str) -> (v: Option<Vec<u8>>)
    ensures
        match v {
            Some(b) => bytes_of(parsed_command.opt(key@)) == Some(b@),
            None => bytes_of(parsed_command.opt(key@)) is None,
        },
{
    match parsed_command.option(key) {
        Some(v) => Some(utf8_bytes(v)),
        None => None,
    }
}

impl BaseCommand for InitCommand {
    /// The workspace's name is the first plain argument; option `path` is
    /// where to create it.
    fn create_executable_cmd(parsed_command: ParsedCommand, environment: &CommandEnvironment) -> (r: Result<
        Self,
        CliError,
    >)
        ensures
            match init_of(parsed_command) {
                Ok(v) => r matches Ok(c) && c.workspace_name@ == v.0 && match c.path {
                    Some(p) => v.1 == Some(p@),
                    None => v.1 is None,
                },
                Err(e) => r matches Err(x) && x@ == e,
            },
    {
        let workspace_name = match parsed_command.argument(0) {
            Some(n) => string_from_str(n),
            None => return Err(CliError::InvalidArguments(string_from_str("Workspace name must be provided"))),
        };
        let path = match parsed_command.option("path") {
            Some(p) => Some(string_from_str(p)),
            None => None,
        };
        Ok(InitCommand { workspace_name, path })
    }
}

impl BaseCommand for StartBrokerCommand {
    /// The configuration file is option `config`, else the workspace's.
    fn create_executable_cmd(parsed_command: ParsedCommand, environment: &CommandEnvironment) -> (r: Result<
        Self,
        CliError,
    >)
        ensures
            r matches Ok(c) && c.workspace_root@ == environment.workspace_root@ && c.config_path@ == or_default(
                parsed_command.opt("config"@),
                join(join(environment.workspace_root@, "config"@), "broker.toml"@),
            ),
    {
        let config_path = broker_config_path(&parsed_command, environment.workspace_root.as_str());
        Ok(StartBrokerCommand { config_path, workspace_root: string_from_str(environment.workspace_root.as_str()) })
    }
}

impl BaseCommand for CreateTopicCommand {
    /// Option `topic` is required; `partitions` defaults to 1 and
    /// `segment-max-bytes` to 1048576.
    fn create_executable_cmd(parsed_command: ParsedCommand, environment: &CommandEnvironment) -> (r: Result<
        Self,
        CliError,
    >)
        ensures
            match create_topic_of(parsed_command, environment.configuration) {
                Ok(v) => r matches Ok(c) && (c.topic@, c.partitions, c.segment_max_bytes, c.connection@) == v,
                Err(e) => r matches Err(x) && x@ == e,
            },
    {
        let topic = match required(&parsed_command, "topic") {
            Ok(t) => t,
            Err(e) => return Err(e),
        };
        let pt = option_or(&parsed_command, "partitions", "1");
        let partitions = match parse_u32(pt.as_str(), "partitions") {
            Ok(v) => v,
            Err(e) => return Err(e),
        };
        let st = option_or(&parsed_command, "segment-max-bytes", "1048576");
        let segment_max_bytes = match parse_u64(st.as_str(), "segment-max-bytes") {
            Ok(v) => v,
            Err(e) => return Err(e),
        };
        let connection = match ClientConnectionOptions::from_command(&parsed_command, environment.configuration.as_ref()) {
            Ok(c) => c,
            Err(e) => return Err(e),
        };
        Ok(CreateTopicCommand { topic, partitions, segment_max_bytes, connection })
    }
}

impl BaseCommand for ListTopicsCommand {
    fn create_executable_cmd(parsed_command: ParsedCommand, environment: &CommandEnvironment) -> (r: Result<
        Self,
        CliError,
    >)
        ensures
            match connection_of(parsed_command, environment.configuration) {
                Ok(v) => r matches Ok(c) && c.connection@ == v,
                Err(e) => r matches Err(x) && x@ == e,
            },
    {
        match ClientConnectionOptions::from_command(&parsed_command, environment.configuration.as_ref()) {
            Ok(connection) => Ok(ListTopicsCommand { connection }),
            Err(e) => Err(e),
        }
    }
}

pub open spec fn bytes_view(o: Option<Vec<u8>>) -> Option<Seq<u8>> {
    match o {
        Some(b) => Some(b@),
        None => None,
    }
}

impl BaseCommand for ProduceCommand {
    /// Option `topic` is required; `partition` defaults to 0; `key` and
    /// `message` are taken as UTF-8 bytes.
    fn create_executable_cmd(parsed_command: ParsedCommand, environment: &CommandEnvironment) -> (r: Result<
        Self,
        CliError,
    >)
        ensures
            match produce_of(parsed_command, environment.configuration) {
                Ok(v) => r matches Ok(c) && (c.topic@, c.partition, bytes_view(c.key), bytes_view(c.message), c.connection@)
                    == v,
                Err(e) => r matches Err(x) && x@ == e,
            },
    {
        let topic = match required(&parsed_command, "topic") {
            Ok(t) => t,
            Err(e) => return Err(e),
        };
        let pt = option_or(&parsed_command, "partition", "0");
        let partition = match parse_u32(pt.as_str(), "partition") {
            Ok(v) => v,
            Err(e) => return Err(e),
        };
        let key = option_bytes(&parsed_command, "key");
        let message = option_bytes(&parsed_command, "message");
        let connection = match ClientConnectionOptions::from_command(&parsed_command, environment.configuration.as_ref()) {
            Ok(c) => c,
            Err(e) => return Err(e),
        };
        Ok(ProduceCommand { topic, partition, key, message, connection })
    }
}

impl BaseCommand for ConsumeCommand {
    /// Option `topic` is required; `partition` and `offset` default to 0,
    /// `max-records` to 10, `group` to `default` and `poll-interval-ms` to
    /// 500; offsets are committed when `commit` is `true`.
    fn create_executable_cmd(parsed_command: ParsedCommand, environment: &CommandEnvironment) -> (r: Result<
        Self,
        CliError,
    >)
        ensures
            match consume_of(parsed_command, environment.configuration) {
                Ok(v) => r matches Ok(c) && (
                    c.topic@,
                    c.partition,
                    c.offset,
                    c.max_records,
                    c.commit,
                    c.group@,
                    c.poll_interval_ms,
                    c.connection@,
                ) == v,
                Err(e) => r matches Err(x) && x@ == e,
            },
    {
        let topic = match required(&parsed_command, "topic") {
            Ok(t) => t,
            Err(e) => return Err(e),
        };
        let pt = option_or(&parsed_command, "partition", "0");
        let partition = match parse_u32(pt.as_str(), "partition") {
            Ok(v) => v,
            Err(e) => return Err(e),
        };
        let ot = option_or(&parsed_command, "offset", "0");
        let offset = match parse_u64(ot.as_str(), "offset") {
            Ok(v) => v,
            Err(e) => return Err(e),
        };
        let mt = option_or(&parsed_command, "max-records", "10");
        let max_records = match parse_u32(mt.as_str(), "max-records") {
            Ok(v) => v,
            Err(e) => return Err(e),
        };
        let commit = match parsed_command.option("commit") {
            Some(v) => same_text(v, "true"),
            None => false,
        };
        let group = option_or(&parsed_command, "group", "default");
        let it = option_or(&parsed_command, "poll-interval-ms", "500");
        let poll_interval_ms = match parse_u64(it.as_str(), "poll-interval-ms") {
            Ok(v) => v,
            Err(e) => return Err(e),
        };
        let connection = match ClientConnectionOptions::from_command(&parsed_command, environment.configuration.as_ref()) {
            Ok(c) => c,
            Err(e) => return Err(e),
        };
        Ok(ConsumeCommand { topic, partition, offset, max_records, commit, group, poll_interval_ms, connection })
    }
}

/// A command ready to run.
pub enum Command {
    Init(InitCommand),
    StartBroker(crate::runtime_commands::StartBrokerCommand),
    CreateTopic(crate::runtime_commands::CreateTopicCommand),
    ListTopics(crate::runtime_commands::ListTopicsCommand),
    Produce(crate::runtime_commands::ProduceCommand),
    Consume(crate::runtime_commands::ConsumeCommand),
}

/// The names of the commands.
pub open spec fn known_command(name: Seq<char>) -> bool {
    name == "init"@ || name == "start-broker"@ || name == "create-topic"@ || name == "list-topics"@ || name
        == "produce"@ || name == "consume"@
}

/// Builds commands from command lines.
pub struct CommandFactory;

impl CommandFactory {
    /// The command a command line names, built from it alone; an unknown
    /// name is an unsupported command.
    pub fn create(parsed_command: ParsedCommand) -> (r: Result<Command, CliError>)
        ensures
            !known_command(parsed_command.name@) ==> (r matches Err(e) && e@ == (
                CliErrorKind::UnsupportedCommand,
                parsed_command.name@,
            )),
            parsed_command.name@ == "init"@ ==> match init_of(parsed_command) {
                Ok(v) => r matches Ok(Command::Init(c)) && c.workspace_name@ == v.0,
                Err(e) => r matches Err(x) && x@ == e,
            },
            parsed_command.name@ == "start-broker"@ ==> (r matches Ok(Command::StartBroker(c)) && c.config_path@
                == crate::runtime_commands::start_broker_config_of(parsed_command)),
            parsed_command.name@ == "create-topic"@ ==> match create_topic_of(parsed_command, None) {
                Ok(v) => r matches Ok(Command::CreateTopic(c)) && (c.topic@, c.partitions, c.segment_max_bytes, c.connection@)
                    == v,
                Err(e) => r matches Err(x) && x@ == e,
            },
            parsed_command.name@ == "list-topics"@ ==> match connection_of(parsed_command, None) {
                Ok(v) => r matches Ok(Command::ListTopics(c)) && c.connection@ == v,
                Err(e) => r matches Err(x) && x@ == e,
            },
            parsed_command.name@ == "produce"@ ==> match crate::runtime_commands::runtime_produce_of(parsed_command) {
                Ok(v) => r matches Ok(Command::Produce(c)) && (
                    c.topic@,
                    c.partition,
                    bytes_view(c.key),
                    c.message@,
                    c.connection@,
                ) == v,
                Err(e) => r matches Err(x) && x@ == e,
            },
            parsed_command.name@ == "consume"@ ==> match crate::runtime_commands::runtime_consume_of(parsed_command) {
                Ok(v) => r matches Ok(Command::Consume(c)) && (
                    c.topic@,
                    c.partition,
                    c.offset,
                    c.max_records,
                    c.commit,
                    c.group@,
                    c.connection@,
                ) == v,
                Err(e) => r matches Err(x) && x@ == e,
            },
    {
        proof {
            reveal_strlit("init");
            reveal_strlit("start-broker");
            reveal_strlit("create-topic");
            reveal_strlit("list-topics");
            reveal_strlit("produce");
            reveal_strlit("consume");
            assert("init"@.len() == 4 && "init"@[0] == 'i');
            assert("start-broker"@.len() == 12 && "start-broker"@[0] == 's');
            assert("create-topic"@.len() == 12 && "create-topic"@[0] == 'c');
            assert("list-topics"@.len() == 11 && "list-topics"@[0] == 'l');
            assert("produce"@.len() == 7 && "produce"@[0] == 'p');
            assert("consume"@.len() == 7 && "consume"@[0] == 'c');
        }
        let name = string_from_str(parsed_command.name.as_str());
        if same_text(name.as_str(), "init") {
            let environment = CommandEnvironment { workspace_root: string_from_str(""), configuration: None };
            match InitCommand::create_executable_cmd(parsed_command, &environment) {
                Ok(c) => Ok(Command::Init(c)),
                Err(e) => Err(e),
            }
        } else if same_text(name.as_str(), "start-broker") {
            match crate::runtime_commands::StartBrokerCommand::create_executable_cmd(parsed_command) {
                Ok(c) => Ok(Command::StartBroker(c)),
                Err(e) => Err(e),
            }
        } else if same_text(name.as_str(), "create-topic") {
            match crate::runtime_commands::CreateTopicCommand::create_executable_cmd(parsed_command) {
                Ok(c) => Ok(Command::CreateTopic(c)),
                Err(e) => Err(e),
            }
        } else if same_text(name.as_str(), "list-topics") {
            match crate::runtime_commands::ListTopicsCommand::create_executable_cmd(parsed_command) {
                Ok(c) => Ok(Command::ListTopics(c)),
                Err(e) => Err(e),
            }
        } else if same_text(name.as_str(), "produce") {
            match crate::runtime_commands::ProduceCommand::create_executable_cmd(parsed_command) {
                Ok(c) => Ok(Command::Produce(c)),
                Err(e) => Err(e),
            }
        } else if same_text(name.as_str(), "consume") {
            match crate::runtime_commands::ConsumeCommand::create_executable_cmd(parsed_command) {
                Ok(c) => Ok(Command::Consume(c)),
                Err(e) => Err(e),
            }
        } else {
            Err(CliError::UnsupportedCommand(name))
        }
    }
}

/// What a consumer does after a poll: the offset to poll from next, the
/// offset to commit (if any), and whether to wait before polling again.
pub struct PollStep {
    pub next_offset: u64,
    pub commit: Option<u64>,
    pub wait: bool,
}

impl ConsumeCommand {
    /// The step after a poll from `offset` that returned records ending at
    /// `last_offset` (none when the poll returned nothing): move past the
    /// last record, committing that position when asked; with nothing
    /// returned, stay and wait.
    pub fn after_poll(&self, offset: u64, last_offset: Option<u64>) -> (r: Result<PollStep, CliError>)
        ensures
            match last_offset {
                None => r matches Ok(s) && s.next_offset == offset && s.commit is None && s.wait,
                Some(l) => if l == u64::MAX {
                    r matches Err(e) && e@ == (CliErrorKind::UnexpectedError, "Record offset overflow"@)
                } else {
                    r matches Ok(s) && s.next_offset == l + 1 && !s.wait && s.commit == (if self.commit {
                        Some((l + 1) as u64)
                    } else {
                        None
                    })
                },
            },
    {
        match last_offset {
            None => Ok(PollStep { next_offset: offset, commit: None, wait: true }),
            Some(l) => {
                if l == u64::MAX {
                    return Err(CliError::UnexpectedError(string_from_str("Record offset overflow")));
                }
                let next = l + 1;
                Ok(PollStep { next_offset: next, commit: if self.commit { Some(next) } else { None }, wait: false })
            },
        }
    }
}

/// The lines of text, each followed by a line break but the last.
pub open spec fn joined_lines(ls: Seq<Seq<char>>) -> Seq<char>
    decreases ls.len(),
{
    if ls.len() == 0 {
        Seq::empty()
    } else if ls.len() == 1 {
        ls[0]
    } else {
        joined_lines(ls.drop_last()) + "\n"@ + ls.last()
    }
}

/// The message of a topic listing: the names, one per line, or a note
/// that there are none.
pub fn topics_message(names: &Vec<String>) -> (m: String)
    ensures
        names@.len() == 0 ==> m@ == "No topics found"@,
        names@.len() > 0 ==> m@ == joined_lines(string_views(names@)),
{
    if names.len() == 0 {
        return string_from_str("No topics found");
    }
    let ghost vs = string_views(names@);
    let mut out = string_from_str(names[0].as_str());
    let mut k: usize = 1;
    proof {
        assert(vs.take(1).drop_last() =~= Seq::<Seq<char>>::empty());
        assert(joined_lines(vs.take(1)) == vs[0]);
    }
    while k < names.len()
        invariant
            1 <= k <= names@.len(),
            vs == string_views(names@),
            out@ == joined_lines(vs.take(k as int)),
        decreases names@.len() - k,
    {
        out = concat3(out.as_str(), "\n", names[k].as_str());
        proof {
            assert(vs.take(k + 1).drop_last() =~= vs.take(k as int));
            assert(vs.take(k + 1).last() == vs[k as int]);
        }
        k = k + 1;
    }
    proof {
        assert(vs.take(names@.len() as int) =~= vs);
    }
    out
}

/// The message of a created topic.
pub fn created_topic_message(topic: &str) -> (m: String)
    ensures
        m@ == "Created topic "@ + topic@,
{
    concat("Created topic ", topic)
}

/// The default settings' texts read as the numbers they spell.
pub(crate) proof fn lemma_default_numbers(key: Seq<char>)
    ensures
        option_number("0"@, key, u32::MAX as nat) == Ok::<nat, Seq<char>>(0),
        option_number("0"@, key, u64::MAX as nat) == Ok::<nat, Seq<char>>(0),
        option_number("1"@, key, u32::MAX as nat) == Ok::<nat, Seq<char>>(1),
        option_number("10"@, key, u32::MAX as nat) == Ok::<nat, Seq<char>>(10),
        option_number("500"@, key, u64::MAX as nat) == Ok::<nat, Seq<char>>(500),
        option_number("9092"@, key, u16::MAX as nat) == Ok::<nat, Seq<char>>(9092),
        option_number("1048576"@, key, u64::MAX as nat) == Ok::<nat, Seq<char>>(1048576),
        option_number("1048576"@, key, usize::MAX as nat) == Ok::<nat, Seq<char>>(1048576),
{
    reveal_strlit("0");
    reveal_strlit("1");
    reveal_strlit("10");
    reveal_strlit("500");
    reveal_strlit("9092");
    reveal_strlit("1048576");
    reveal_with_fuel(crate::text::digits_value, 8);
    assert(usize::MAX >= u32::MAX);
}

/// An option given on the command line sets the connection whatever the
/// configuration file says: `--host` is the host, and `--port` and
/// `--max-frame-bytes` are read as the port and the frame limit (a value that
/// does not read is the command's error).
pub proof fn law_connection_options_take_precedence(p: ParsedCommand, c: Option<Configuration>)
    ensures
        p.opt("host"@) matches Some(h) ==> (connection_of(p, c) matches Ok(v) ==> v.0 == h),
        p.opt("port"@) matches Some(t) ==> match option_number(t, "port"@, u16::MAX as nat) {
            Ok(n) => connection_of(p, c) matches Ok(v) ==> v.1 == n,
            Err(m) => connection_of(p, c) == Err::<ConnectionView, CliErrorView>(invalid(m)),
        },
        p.opt("max-frame-bytes"@) matches Some(t) ==> (connection_of(p, c) matches Ok(v) ==> option_number(
            t,
            "max-frame-bytes"@,
            usize::MAX as nat,
        ) == Ok::<nat, Seq<char>>(v.2 as nat)),
{
}

/// Without an option, the configuration file's setting is used; without
/// either, the connection is 127.0.0.1, port 9092, frames of 1048576 bytes.
pub proof fn law_connection_fallbacks(p: ParsedCommand, f: Configuration)
    ensures
        p.opt("host"@) is None ==> (f.value("broker.host"@) matches Some(h) ==> (connection_of(p, Some(f)) matches Ok(
            v,
        ) ==> v.0 == h)),
        p.opt("port"@) is None ==> (f.value("broker.port"@) matches Some(t) ==> match option_number(
            t,
            "port"@,
            u16::MAX as nat,
        ) {
            Ok(n) => connection_of(p, Some(f)) matches Ok(v) ==> v.1 == n,
            Err(m) => connection_of(p, Some(f)) == Err::<ConnectionView, CliErrorView>(invalid(m)),
        }),
        p.opt("host"@) is None && p.opt("port"@) is None && p.opt("max-frame-bytes"@) is None ==> connection_of(p, None)
            == Ok::<ConnectionView, CliErrorView>(("127.0.0.1"@, 9092u16, 1048576usize)),
        p.opt("host"@) is None && f.value("broker.host"@) is None ==> (connection_of(p, Some(f)) matches Ok(v) ==> v.0
            == "127.0.0.1"@),
        p.opt("port"@) is None && f.value("broker.port"@) is None ==> (connection_of(p, Some(f)) matches Ok(v) ==> v.1
            == 9092),
        p.opt("max-frame-bytes"@) is None && f.value("network.max_frame_bytes"@) is None ==> (connection_of(p, Some(f)) matches Ok(
            v,
        ) ==> v.2 == 1048576),
        p.opt("max-frame-bytes"@) is None ==> (f.value("network.max_frame_bytes"@) matches Some(t) ==> (connection_of(
            p,
            Some(f),
        ) matches Ok(v) ==> option_number(t, "max-frame-bytes"@, usize::MAX as nat) == Ok::<nat, Seq<char>>(v.2 as nat))),
{
    lemma_default_numbers("port"@);
    lemma_default_numbers("max-frame-bytes"@);
}

/// A create-topic command line needs `--topic`; it asks for one partition
/// and segments of 1048576 bytes unless `--partitions` and
/// `--segment-max-bytes` say otherwise.
pub proof fn law_create_topic_command(p: ParsedCommand, c: Option<Configuration>)
    ensures
        p.opt("topic"@) is None ==> create_topic_of(p, c) == Err::<(Seq<char>, u32, u64, ConnectionView), CliErrorView>(
            invalid(missing_option_message("topic"@)),
        ),
        create_topic_of(p, c) matches Ok(v) ==> p.opt("topic"@) == Some(v.0) && connection_of(p, c) == Ok::<
            ConnectionView,
            CliErrorView,
        >(v.3),
        p.opt("partitions"@) is None ==> (create_topic_of(p, c) matches Ok(v) ==> v.1 == 1),
        p.opt("partitions"@) matches Some(t) ==> (create_topic_of(p, c) matches Ok(v) ==> option_number(
            t,
            "partitions"@,
            u32::MAX as nat,
        ) == Ok::<nat, Seq<char>>(v.1 as nat)),
        p.opt("segment-max-bytes"@) is None ==> (create_topic_of(p, c) matches Ok(v) ==> v.2 == 1048576),
        p.opt("topic"@) is Some && p.opt("partitions"@) is None && p.opt("segment-max-bytes"@) is None ==> (create_topic_of(
            p,
            c,
        ) is Ok <==> connection_of(p, c) is Ok),
{
    lemma_default_numbers("partitions"@);
    lemma_default_numbers("segment-max-bytes"@);
}

/// A produce command line needs `--topic`; it sends to partition 0 unless
/// `--partition` says otherwise, with the UTF-8 bytes of `--key` and
/// `--message` when they are given.
pub proof fn law_produce_command(p: ParsedCommand, c: Option<Configuration>)
    ensures
        p.opt("topic"@) is None ==> produce_of(p, c) is Err,
        produce_of(p, c) matches Ok(v) ==> p.opt("topic"@) == Some(v.0) && v.2 == bytes_of(p.opt("key"@)) && v.3
            == bytes_of(p.opt("message"@)) && connection_of(p, c) == Ok::<ConnectionView, CliErrorView>(v.4),
        p.opt("partition"@) is None ==> (produce_of(p, c) matches Ok(v) ==> v.1 == 0),
        p.opt("partition"@) matches Some(t) ==> (produce_of(p, c) matches Ok(v) ==> option_number(
            t,
            "partition"@,
            u32::MAX as nat,
        ) == Ok::<nat, Seq<char>>(v.1 as nat)),
{
    lemma_default_numbers("partition"@);
}

/// A consume command line needs `--topic`; unless options say otherwise it
/// polls partition 0 from offset 0, at most 10 records, in group `default`,
/// every 500 ms, and commits only when `--commit` is `true`.
pub proof fn law_consume_command(p: ParsedCommand, c: Option<Configuration>)
    ensures
        p.opt("topic"@) is None ==> consume_of(p, c) is Err,
        consume_of(p, c) matches Ok(v) ==> {
            &&& p.opt("topic"@) == Some(v.0)
            &&& (p.opt("partition"@) is None ==> v.1 == 0)
            &&& (p.opt("offset"@) is None ==> v.2 == 0)
            &&& (p.opt("max-records"@) is None ==> v.3 == 10)
            &&& (v.4 <==> p.opt("commit"@) == Some("true"@))
            &&& (p.opt("group"@) is None ==> v.5 == "default"@)
            &&& (p.opt("group"@) matches Some(g) ==> v.5 == g)
            &&& (p.opt("poll-interval-ms"@) is None ==> v.6 == 500)
            &&& connection_of(p, c) == Ok::<ConnectionView, CliErrorView>(v.7)
        },
        p.opt("partition"@) matches Some(t) ==> (consume_of(p, c) matches Ok(v) ==> option_number(
            t,
            "partition"@,
            u32::MAX as nat,
        ) == Ok::<nat, Seq<char>>(v.1 as nat)),
        p.opt("offset"@) matches Some(t) ==> (consume_of(p, c) matches Ok(v) ==> option_number(
            t,
            "offset"@,
            u64::MAX as nat,
        ) == Ok::<nat, Seq<char>>(v.2 as nat)),
{
    lemma_default_numbers("partition"@);
    lemma_default_numbers("offset"@);
    lemma_default_numbers("max-records"@);
    lemma_default_numbers("poll-interval-ms"@);
}

/// The value of an option is the one given last: a later value for a key
/// replaces an earlier one, options for other keys leave it alone, and a
/// value found was given for that key.
pub proof fn law_last_option_wins(options: Seq<(String, String)>, o: (String, String), key: Seq<char>)
    ensures
        o.0@ == key ==> lookup_last(options.push(o), key) == Some(o.1@),
        o.0@ != key ==> lookup_last(options.push(o), key) == lookup_last(options, key),
        lookup_last(options, key) matches Some(v) ==> exists|i: int|
            0 <= i < options.len() && (#[trigger] options[i]).0@ == key && options[i].1@ == v,
        lookup_last(options, key) is None ==> forall|i: int| 0 <= i < options.len() ==> (#[trigger] options[i]).0@ != key,
    decreases options.len(),
{
    assert(options.push(o).drop_last() =~= options);
    if options.len() > 0 {
        law_last_option_wins(options.drop_last(), options.last(), key);
        if lookup_last(options, key) is Some && options.last().0@ != key {
            let i = choose|i: int|
                0 <= i < options.drop_last().len() && (#[trigger] options.drop_last()[i]).0@ == key
                    && options.drop_last()[i].1@ == lookup_last(options, key)->0;
            assert(options[i] == options.drop_last()[i]);
        }
        if lookup_last(options, key) is Some && options.last().0@ == key {
            assert(options[options.len() - 1] == options.last());
        }
        if lookup_last(options, key) is None {
            assert forall|i: int| 0 <= i < options.len() implies (#[trigger] options[i]).0@ != key by {
                if i < options.len() - 1 {
                    assert(options[i] == options.drop_last()[i]);
                }
            }
        }
    }
}

} // verus!
