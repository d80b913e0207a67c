//! Configuration files: `[section]` headers and `key = value` lines, read
//! as dotted keys (`section.key`), and the broker's settings taken from
//! them.
use vstd::prelude::*;

use crate::cli::lookup_last;
use crate::kv_text::{before_comment, key_value, split_key_value, strip_quotes, unquoted};
use crate::model::{BrokerError, NetworkError};
use crate::text::{
    chars_of, concat, concat3, find_first, first_index, int_error_text, lemma_first_index_bounds, lines,
    parse_uint, parse_uint_text, split_lines, string_from_chars, string_from_str, sub_chars, trim_white,
    trim_white_chars,
};

verus! {

/// The name of a `[section]` header line.
pub open spec fn section_header(line: Seq<char>) -> Option<Seq<char>> {
    let t = trim_white(before_comment(line));
    if t.len() >= 2 && t[0] == '[' && t.last() == ']' {
        Some(trim_white(t.subrange(1, t.len() - 1)))
    } else {
        None
    }
}

/// The full key of `key` in `section`.
pub open spec fn dotted(section: Seq<char>, key: Seq<char>) -> Seq<char> {
    if section.len() == 0 {
        key
    } else {
        section + "."@ + key
    }
}

/// The message for a line that is neither blank, a header nor an entry.
pub open spec fn invalid_line_message(line: Seq<char>) -> Seq<char> {
    "Invalid configuration line: "@ + line
}

/// The entries of lines `ls` read in section `section` after the entries
/// `acc`, or the message of the first line that cannot be read.
pub open spec fn config_entries(
    ls: Seq<Seq<char>>,
    section: Seq<char>,
    acc: Seq<(Seq<char>, Seq<char>)>,
) -> Result<Seq<(Seq<char>, Seq<char>)>, Seq<char>>
    decreases ls.len(),
{
    if ls.len() == 0 {
        Ok(acc)
    } else {
        let l = ls[0];
        if trim_white(before_comment(l)).len() == 0 {
            config_entries(ls.drop_first(), section, acc)
        } else {
            match section_header(l) {
                Some(s) => config_entries(ls.drop_first(), s, acc),
                None => match key_value(l) {
                    Some((k, v)) => config_entries(ls.drop_first(), section, acc.push((dotted(section, k), unquoted(v)))),
                    None => Err(invalid_line_message(l)),
                },
            }
        }
    }
}

pub open spec fn entry_views(s: Seq<(String, String)>) -> Seq<(Seq<char>, Seq<char>)> {
    s.map_values(|x: (String, String)| (x.0@, x.1@))
}

/// Settings read from a configuration file; a later entry for a key
/// replaces an earlier one.
pub struct Configuration {
    pub entries: Vec<(String, String)>,
}

impl Configuration {
    /// The value of `key`, if the file sets it.
    pub open spec fn value(&self, key: Seq<char>) -> Option<Seq<char>> {
        lookup_last(self.entries@, key)
    }

    /// Reads the text of a configuration file.
    pub fn parse(text: &str) -> (r: Result<Configuration, BrokerError>)
        ensures
            r matches Ok(c) ==> config_entries(lines(text@), Seq::empty(), Seq::empty()) == Ok::<
                Seq<(Seq<char>, Seq<char>)>,
                Seq<char>,
            >(entry_views(c.entries@)),
            r matches Err(e) ==> config_entries(lines(text@), Seq::empty(), Seq::empty()) == Err::<
                Seq<(Seq<char>, Seq<char>)>,
                Seq<char>,
            >(e.message@),
    {
        let cs = chars_of(text);
        let ls = split_lines(cs.as_slice());
        let ghost all = lines(text@);
        proof {
            assert(ls@.len() == all.len());
        }
        let mut section: Vec<char> = Vec::new();
        let mut entries: Vec<(String, String)> = Vec::new();
        let mut k: usize = 0;
        proof {
            assert(all.subrange(0, all.len() as int) =~= all);
            assert(entry_views(entries@) =~= Seq::<(Seq<char>, Seq<char>)>::empty());
        }
        while k < ls.len()
            invariant
                k <= ls@.len(),
                ls@.len() == all.len(),
                all == lines(text@),
                forall|i: int| 0 <= i < ls@.len() ==> #[trigger] ls@[i]@ == all[i],
                config_entries(all, Seq::empty(), Seq::empty()) == config_entries(
                    all.subrange(k as int, all.len() as int),
                    section@,
                    entry_views(entries@),
                ),
            decreases ls@.len() - k,
        {
            let line = &ls[k];
            let ghost rest = all.subrange(k as int, all.len() as int);
            proof {
                assert(rest[0] == line@);
                assert(rest.drop_first() =~= all.subrange(k + 1, all.len() as int));
            }
            let c = find_first(line.as_slice(), '#');
            proof {
                lemma_first_index_bounds(line@, '#');
            }
            let body = sub_chars(line.as_slice(), 0, c);
            let t = trim_white_chars(body.as_slice());
            if t.len() == 0 {
            } else if t.len() >= 2 && t[0] == '[' && t[t.len() - 1] == ']' {
                let inner = sub_chars(t.as_slice(), 1, t.len() - 1);
                section = trim_white_chars(inner.as_slice());
            } else {
                match split_key_value(line.as_slice()) {
                    Some((key, value)) => {
                        let v = strip_quotes(value);
                        let full = if section.len() == 0 {
                            string_from_chars(key.as_slice())
                        } else {
                            let s = string_from_chars(section.as_slice());
                            let kk = string_from_chars(key.as_slice());
                            concat3(s.as_str(), ".", kk.as_str())
                        };
                        let ghost before = entry_views(entries@);
                        entries.push((full, string_from_chars(v.as_slice())));
                        proof {
                            assert(entry_views(entries@) =~= before.push((dotted(section@, key@), unquoted(value@))));
                        }
                    },
                    None => {
                        let l = string_from_chars(line.as_slice());
                        return Err(BrokerError { message: concat("Invalid configuration line: ", l.as_str()) });
                    },
                }
            }
            k = k + 1;
        }
        Ok(Configuration { entries })
    }

    /// The value of `key`, if the file sets it.
    pub fn get(&self, key: &str) -> (r: Option<String>)
        ensures
            r matches Some(v) ==> self.value(key@) == Some(v@),
            r is None ==> self.value(key@) is None,
    {
        let mut i: usize = self.entries.len();
        proof {
            assert(self.entries@.take(i as int) =~= self.entries@);
        }
        while i > 0
            invariant
                i <= self.entries@.len(),
                lookup_last(self.entries@, key@) == lookup_last(self.entries@.take(i as int), key@),
            decreases i,
        {
            proof {
                assert(self.entries@.take(i as int).drop_last() =~= self.entries@.take(i - 1));
            }
            let k = chars_of(self.entries[i - 1].0.as_str());
            let q = chars_of(key);
            if crate::kv_text::same_chars(k.as_slice(), q.as_slice()) {
                return Some(string_from_str(self.entries[i - 1].1.as_str()));
            }
            i = i - 1;
        }
        None
    }

    /// The value of `key`, or `default` when the file does not set it.
    pub fn get_or(&self, key: &str, default: &str) -> (r: String)
        ensures
            r@ == match self.value(key@) {
                Some(v) => v,
                None => default@,
            },
    {
        match self.get(key) {
            Some(v) => v,
            None => string_from_str(default),
        }
    }
}

/// Reading setting `key` with text `value` as a number no larger than `max`:
/// the number, or the message of the failure.
pub open spec fn setting_number(key: Seq<char>, value: Seq<char>, max: nat) -> Result<nat, Seq<char>> {
    match parse_uint(value, max) {
        Ok(v) => Ok(v),
        Err(k) => Err("Invalid "@ + key + " '"@ + value + "': "@ + int_error_text(k)),
    }
}

fn setting(key: &str, value: &str, max: u64) -> (r: Result<u64, BrokerError>)
    ensures
        r matches Ok(v) ==> setting_number(key@, value@, max as nat) == Ok::<nat, Seq<char>>(v as nat),
        r matches Err(e) ==> setting_number(key@, value@, max as nat) == Err::<nat, Seq<char>>(e.message@),
{
    match parse_uint_text(value, max) {
        Ok(v) => Ok(v),
        Err(k) => {
            let head = concat3("Invalid ", key, " '");
            let mid = concat3(head.as_str(), value, "': ");
            Err(BrokerError { message: concat(mid.as_str(), k.text()) })
        },
    }
}

/// The message for a host that does not read as an IP address.
pub open spec fn invalid_host_message(host: Seq<char>, reason: Seq<char>) -> Seq<char> {
    "Invalid broker.host '"@ + host + "': "@ + reason
}

/// The broker's settings. The host is kept as text; whether it reads as an
/// IP address is decided by std's address parser, which this library does
/// not call (std's network module stays with the program), and is handed in.
pub struct BrokerConfiguration {
    pub host: String,
    pub port: u16,
    pub storage_root_directory: String,
    pub topic_metadata_directory: String,
    pub consumer_group_directory: String,
    pub segment_max_bytes: u64,
    pub max_frame_bytes: usize,
}

/// The value of a setting, or its default.
pub open spec fn value_or(c: Configuration, key: Seq<char>, default: Seq<char>) -> Seq<char> {
    match c.value(key) {
        Some(v) => v,
        None => default,
    }
}

impl BrokerConfiguration {
    /// Reads the broker's settings, with their defaults: `broker.host`,
    /// `broker.port`, `storage.data_directory`, `storage.topics_directory`,
    /// `storage.consumer_group_directory`, `storage.segment_max_bytes` and
    /// `network.max_frame_bytes`. A setting that does not read is an error,
    /// reported for the first such one in the order port, host, segment size,
    /// frame limit. `host_check` is the outcome of reading the host (the
    /// value `host_setting` gives) as an IP address: `Err` with the reason
    /// when it does not read.
    pub fn from_configuration(configuration: &Configuration, host_check: Result<(), String>) -> (r: Result<
        Self,
        BrokerError,
    >)
        ensures
            ({
                let port = setting_number("broker.port"@, value_or(*configuration, "broker.port"@, "9092"@), u16::MAX as nat);
                let smb = setting_number(
                    "storage.segment_max_bytes"@,
                    value_or(*configuration, "storage.segment_max_bytes"@, "1048576"@),
                    u64::MAX as nat,
                );
                let mfb = setting_number(
                    "network.max_frame_bytes"@,
                    value_or(*configuration, "network.max_frame_bytes"@, "1048576"@),
                    usize::MAX as nat,
                );
                let host = value_or(*configuration, "broker.host"@, "127.0.0.1"@);
                &&& r is Ok <==> port is Ok && host_check is Ok && smb is Ok && mfb is Ok
                &&& port matches Err(m) ==> (r matches Err(e) && e.message@ == m)
                &&& port is Ok ==> (host_check matches Err(reason) ==> (r matches Err(e) && e.message@
                    == invalid_host_message(host, reason@)))
                &&& port is Ok && host_check is Ok ==> (smb matches Err(m) ==> (r matches Err(e) && e.message@ == m))
                &&& port is Ok && host_check is Ok && smb is Ok ==> (mfb matches Err(m) ==> (r matches Err(e)
                    && e.message@ == m))
                &&& r matches Ok(b) ==> {
                    &&& b.host@ == value_or(*configuration, "broker.host"@, "127.0.0.1"@)
                    &&& port == Ok::<nat, Seq<char>>(b.port as nat)
                    &&& b.storage_root_directory@ == value_or(*configuration, "storage.data_directory"@, "data/broker"@)
                    &&& b.topic_metadata_directory@ == value_or(*configuration, "storage.topics_directory"@, "data/topics"@)
                    &&& b.consumer_group_directory@ == value_or(
                        *configuration,
                        "storage.consumer_group_directory"@,
                        "data/consumer-groups"@,
                    )
                    &&& smb == Ok::<nat, Seq<char>>(b.segment_max_bytes as nat)
                    &&& mfb == Ok::<nat, Seq<char>>(b.max_frame_bytes as nat)
                }
            }),
    {
        let host = configuration.get_or("broker.host", "127.0.0.1");
        let port_text = configuration.get_or("broker.port", "9092");
        let port = match setting("broker.port", port_text.as_str(), u16::MAX as u64) {
            Ok(v) => v as u16,
            Err(e) => return Err(e),
        };
        match host_check {
            Ok(()) => {},
            Err(reason) => {
                let head = concat3("Invalid broker.host '", host.as_str(), "': ");
                return Err(BrokerError { message: concat(head.as_str(), reason.as_str()) });
            },
        }
        let storage_root_directory = configuration.get_or("storage.data_directory", "data/broker");
        let topic_metadata_directory = configuration.get_or("storage.topics_directory", "data/topics");
        let consumer_group_directory = configuration.get_or("storage.consumer_group_directory", "data/consumer-groups");
        let smb_text = configuration.get_or("storage.segment_max_bytes", "1048576");
        let segment_max_bytes = match setting("storage.segment_max_bytes", smb_text.as_str(), u64::MAX) {
            Ok(v) => v,
            Err(e) => return Err(e),
        };
        let mfb_text = configuration.get_or("network.max_frame_bytes", "1048576");
        let max_frame_bytes = match setting("network.max_frame_bytes", mfb_text.as_str(), usize::MAX as u64) {
            Ok(v) => v as usize,
            Err(e) => return Err(e),
        };
        Ok(
            BrokerConfiguration {
                host,
                port,
                storage_root_directory,
                topic_metadata_directory,
                consumer_group_directory,
                segment_max_bytes,
                max_frame_bytes,
            },
        )
    }

    /// The host the broker is to listen on: `broker.host`, or its default.
    pub fn host_setting(configuration: &Configuration) -> (h: String)
        ensures
            h@ == value_or(*configuration, "broker.host"@, "127.0.0.1"@),
    {
        configuration.get_or("broker.host", "127.0.0.1")
    }

    pub fn storage_root_directory(&self) -> (p: &str)
        ensures
            p@ == self.storage_root_directory@,
    {
        self.storage_root_directory.as_str()
    }

    pub fn topic_metadata_directory(&self) -> (p: &str)
        ensures
            p@ == self.topic_metadata_directory@,
    {
        self.topic_metadata_directory.as_str()
    }

    pub fn segment_max_bytes(&self) -> (v: u64)
        ensures
            v == self.segment_max_bytes,
    {
        self.segment_max_bytes
    }

    pub fn max_frame_bytes(&self) -> (v: usize)
        ensures
            v == self.max_frame_bytes,
    {
        self.max_frame_bytes
    }
}

/// The settings of the broker's server: where it listens and how large a
/// frame it accepts.
pub struct BrokerServerConfiguration {
    pub host: String,
    pub port: u16,
    pub max_frame_bytes: usize,
}

impl BrokerServerConfiguration {
    /// A frame limit of zero is refused.
    pub fn new(host: String, port: u16, max_frame_bytes: usize) -> (r: Result<Self, NetworkError>)
        ensures
            r is Ok <==> max_frame_bytes > 0,
            r matches Ok(c) ==> c.host@ == host@ && c.port == port && c.max_frame_bytes == max_frame_bytes,
            r matches Err(e) ==> e.message@ == "max_frame_bytes must be greater than zero"@,
    {
        if max_frame_bytes == 0 {
            return Err(NetworkError { message: string_from_str("max_frame_bytes must be greater than zero") });
        }
        Ok(BrokerServerConfiguration { host, port, max_frame_bytes })
    }

    pub fn max_frame_bytes(&self) -> (v: usize)
        ensures
            v == self.max_frame_bytes,
    {
        self.max_frame_bytes
    }
}

/// The length of the smallest message: its length prefix, a big-endian
/// `u32`. This library fixes the prefix at four bytes, the width of the
/// `u32` that frames the records it stores; the wire protocol's own
/// definition of the header is not part of this crate.
pub const MESSAGE_HEADER_LENGTH: usize = 4;

/// Checks the length of the frames read from a client.
pub struct FrameReader {
    pub max_frame_bytes: usize,
}

/// What a frame whose length prefix reads `payload_length` amounts to: its
/// whole length, or the message of why it is refused.
pub open spec fn frame_length_of(payload_length: u32, max_frame_bytes: usize) -> Result<usize, Seq<char>> {
    let n = MESSAGE_HEADER_LENGTH + payload_length;
    if n > usize::MAX {
        Err("Protocol frame length overflow"@)
    } else if n > max_frame_bytes {
        Err("Protocol frame exceeds max_frame_bytes: "@ + crate::text::decimal(n as nat) + " > "@ + crate::text::decimal(
            max_frame_bytes as nat,
        ))
    } else {
        Ok(n as usize)
    }
}

impl FrameReader {
    /// A limit smaller than a message header is refused.
    pub fn new(max_frame_bytes: usize) -> (r: Result<Self, NetworkError>)
        ensures
            r is Ok <==> max_frame_bytes >= MESSAGE_HEADER_LENGTH,
            r matches Ok(f) ==> f.max_frame_bytes == max_frame_bytes,
            r matches Err(e) ==> e.message@ == "max_frame_bytes must be at least 4"@,
    {
        if max_frame_bytes < MESSAGE_HEADER_LENGTH {
            return Err(NetworkError { message: string_from_str("max_frame_bytes must be at least 4") });
        }
        Ok(FrameReader { max_frame_bytes })
    }

    /// The length of the frame whose length prefix is `prefix`, or why it
    /// is refused.
    pub fn frame_length(&self, prefix: [u8; 4]) -> (r: Result<usize, NetworkError>)
        ensures
            r matches Ok(n) ==> frame_length_of(crate::bytes::from_be32(prefix@), self.max_frame_bytes) == Ok::<
                usize,
                Seq<char>,
            >(n),
            r matches Err(e) ==> frame_length_of(crate::bytes::from_be32(prefix@), self.max_frame_bytes) == Err::<
                usize,
                Seq<char>,
            >(e.message@),
    {
        let payload_length = crate::bytes::get_be32(&prefix, 0) as usize;
        assert(prefix@.subrange(0, 4) =~= prefix@);
        if payload_length > usize::MAX - MESSAGE_HEADER_LENGTH {
            return Err(NetworkError { message: string_from_str("Protocol frame length overflow") });
        }
        let n = MESSAGE_HEADER_LENGTH + payload_length;
        if n > self.max_frame_bytes {
            let a = crate::text::decimal_chars(n as u64);
            let b = crate::text::decimal_chars(self.max_frame_bytes as u64);
            let at = string_from_chars(a.as_slice());
            let bt = string_from_chars(b.as_slice());
            let head = concat3("Protocol frame exceeds max_frame_bytes: ", at.as_str(), " > ");
            return Err(NetworkError { message: concat(head.as_str(), bt.as_str()) });
        }
        Ok(n)
    }
}

/// The broker's configuration file a command line names: the word after
/// the first `--config` that has one, else `assets/broker.toml`.
pub open spec fn config_path_of(args: Seq<Seq<char>>) -> Seq<char>
    decreases args.len(),
{
    if args.len() == 0 {
        "assets/broker.toml"@
    } else if args[0] == "--config"@ && args.len() > 1 {
        args[1]
    } else {
        config_path_of(args.drop_first())
    }
}

/// The broker's configuration file named by the words of its command line.
pub fn config_path_from_args(args: &Vec<String>) -> (p: String)
    ensures
        p@ == config_path_of(args@.map_values(|a: String| a@)),
{
    let ghost words = args@.map_values(|a: String| a@);
    let flag = chars_of("--config");
    let mut k: usize = 0;
    proof {
        assert(words.subrange(0, words.len() as int) =~= words);
    }
    while k < args.len()
        invariant
            k <= args@.len(),
            words == args@.map_values(|a: String| a@),
            flag@ == "--config"@,
            config_path_of(words) == config_path_of(words.subrange(k as int, words.len() as int)),
        decreases args@.len() - k,
    {
        let ghost rest = words.subrange(k as int, words.len() as int);
        proof {
            assert(rest[0] == args@[k as int]@);
            assert(rest.drop_first() =~= words.subrange(k + 1, words.len() as int));
        }
        let a = chars_of(args[k].as_str());
        if crate::kv_text::same_chars(a.as_slice(), flag.as_slice()) && k + 1 < args.len() {
            proof {
                assert(rest[1] == args@[k + 1]@);
            }
            return string_from_str(args[k + 1].as_str());
        }
        k = k + 1;
    }
    proof {
        assert(words.subrange(words.len() as int, words.len() as int) =~= Seq::<Seq<char>>::empty());
    }
    string_from_str("assets/broker.toml")
}

/// Whether line `l` is blank or holds only a comment.
pub open spec fn blank_line(l: Seq<char>) -> bool {
    trim_white(before_comment(l)).len() == 0
}

/// Blank and comment-only lines change nothing: putting one anywhere among
/// the lines of a file leaves the entries it reads as (and the error it
/// fails with) as they were; in particular such a line does not end the
/// current `[section]`.
pub proof fn law_blank_lines_change_nothing(
    ls: Seq<Seq<char>>,
    i: int,
    blank: Seq<char>,
    section: Seq<char>,
    acc: Seq<(Seq<char>, Seq<char>)>,
)
    requires
        0 <= i <= ls.len(),
        blank_line(blank),
    ensures
        config_entries(ls.insert(i, blank), section, acc) == config_entries(ls, section, acc),
    decreases ls.len(),
{
    let ls2 = ls.insert(i, blank);
    if i == 0 {
        assert(ls2[0] == blank);
        assert(ls2.drop_first() =~= ls);
    } else {
        assert(ls2[0] == ls[0]);
        assert(ls2.drop_first() =~= ls.drop_first().insert(i - 1, blank));
        let l = ls[0];
        if trim_white(before_comment(l)).len() == 0 {
            law_blank_lines_change_nothing(ls.drop_first(), i - 1, blank, section, acc);
        } else {
            match section_header(l) {
                Some(s) => law_blank_lines_change_nothing(ls.drop_first(), i - 1, blank, s, acc),
                None => match key_value(l) {
                    Some((k, v)) => law_blank_lines_change_nothing(
                        ls.drop_first(),
                        i - 1,
                        blank,
                        section,
                        acc.push((dotted(section, k), unquoted(v))),
                    ),
                    None => {},
                },
            }
        }
    }
}

/// Lines that are all blank or comments, put before a file's lines, change
/// nothing.
pub proof fn lemma_blank_prefix(blanks: Seq<Seq<char>>, ls: Seq<Seq<char>>, section: Seq<char>, acc: Seq<(Seq<char>, Seq<char>)>)
    requires
        forall|j: int| 0 <= j < blanks.len() ==> #[trigger] blank_line(blanks[j]),
    ensures
        config_entries(blanks + ls, section, acc) == config_entries(ls, section, acc),
    decreases blanks.len(),
{
    if blanks.len() > 0 {
        let rest = blanks.drop_first();
        assert(blank_line(blanks[0]));
        assert((blanks + ls).drop_first() =~= rest + ls);
        assert((blanks + ls)[0] == blanks[0]);
        assert forall|j: int| 0 <= j < rest.len() implies #[trigger] blank_line(rest[j]) by {
            assert(rest[j] == blanks[j + 1]);
        }
        lemma_blank_prefix(rest, ls, section, acc);
    }
}

/// A `key = value` line is read under the last `[section]` header before
/// it, whatever blank or comment lines lie between: its entry is
/// `section.key` with the unquoted value, added after the entries before.
pub proof fn law_entry_under_last_header(
    header: Seq<char>,
    blanks: Seq<Seq<char>>,
    line: Seq<char>,
    rest: Seq<Seq<char>>,
    section: Seq<char>,
    acc: Seq<(Seq<char>, Seq<char>)>,
)
    requires
        section_header(header) is Some,
        forall|j: int| 0 <= j < blanks.len() ==> #[trigger] blank_line(blanks[j]),
        !blank_line(line),
        section_header(line) is None,
        key_value(line) is Some,
    ensures
        ({
            let s = section_header(header)->0;
            let (k, v) = key_value(line)->0;
            config_entries(seq![header] + blanks + seq![line] + rest, section, acc) == config_entries(
                rest,
                s,
                acc.push((dotted(s, k), unquoted(v))),
            )
        }),
{
    let s = section_header(header)->0;
    let all = seq![header] + blanks + seq![line] + rest;
    assert(all[0] == header);
    assert(!blank_line(header));
    assert(all.drop_first() =~= blanks + (seq![line] + rest));
    lemma_blank_prefix(blanks, seq![line] + rest, s, acc);
    assert((seq![line] + rest)[0] == line);
    assert((seq![line] + rest).drop_first() =~= rest);
}

} // verus!
