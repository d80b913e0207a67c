//! The durable record of topics: one `metadata.toml` per topic directory.
use vstd::prelude::*;
use vstd::utf8::{decode_utf8, encode_utf8, valid_utf8};

use crate::filesystem::{is_child, FileSystem};
use crate::kv_text::{
    before_comment, key_value, lemma_first_index_absent, plain, same_chars, split_key_value,
    strip_quotes, unquoted,
};
use crate::model::{
    BrokerError, PartitionConfiguration, Topic, TopicConfiguration, TopicName, TopicView,
};
use crate::paths::{file_name, file_name_of, join, join_path};
use crate::text::{
    chars_of, concat, concat3, decimal, decimal_chars, int_error_text, is_white,
    lemma_decimal_shape, lemma_parse_decimal_padded, lemma_trim_white_end_at,
    lemma_trim_white_start_at, lines, parse_uint, parse_uint_text, split_lines, string_from_chars,
    string_from_str, trim_white, valid_name,
};

verus! {

/// The text of a byte buffer, when it is valid UTF-8 (std's
/// `String::from_utf8`). The text of std's error is handed back on failure;
/// what it says is not stated.
#[verifier::external_body]
pub(crate) fn text_from_utf8(bytes: Vec<u8>) -> (r: Result<String, String>)
    ensures
        r is Ok <==> valid_utf8(bytes@),
        r matches Ok(s) ==> s@ == decode_utf8(bytes@),
{
    String::from_utf8(bytes).map_err(|e| e.to_string())
}

/// The UTF-8 bytes of a text.
pub fn utf8_bytes(s: &str) -> (b: Vec<u8>)
    ensures
        b@ == encode_utf8(s@),
{
    let slice = s.as_bytes();
    let v = crate::bytes::copy_range(slice, 0, slice.len());
    assert(slice@.subrange(0, slice@.len() as int) =~= slice@);
    v
}

/// The metadata text of a topic.
pub open spec fn topic_text(t: TopicView) -> Seq<char> {
    "name = \""@ + t.0 + "\"\npartition_count = "@ + decimal(t.1 as nat)
        + "\nsegment_max_bytes = "@ + decimal(t.2 as nat) + "\n"@
}

/// The value of the first line of `ls` that holds `key`, without quotes.
pub open spec fn lookup_value(ls: Seq<Seq<char>>, key: Seq<char>) -> Option<Seq<char>>
    decreases ls.len(),
{
    if ls.len() == 0 {
        None
    } else {
        match key_value(ls[0]) {
            Some((k, v)) => if k == key {
                Some(unquoted(v))
            } else {
                lookup_value(ls.drop_first(), key)
            },
            None => lookup_value(ls.drop_first(), key),
        }
    }
}

pub open spec fn missing_message(key: Seq<char>) -> Seq<char> {
    "Topic metadata missing '"@ + key + "'"@
}

/// What reading a topic's metadata text gives: the topic, or the message of
/// the first problem found.
pub open spec fn decode_topic_text(content: Seq<char>) -> Result<TopicView, Seq<char>> {
    let ls = lines(content);
    match lookup_value(ls, "name"@) {
        None => Err(missing_message("name"@)),
        Some(name) => match lookup_value(ls, "partition_count"@) {
            None => Err(missing_message("partition_count"@)),
            Some(pcs) => match parse_uint(pcs, u32::MAX as nat) {
                Err(k) => Err("Invalid topic partition_count: "@ + int_error_text(k)),
                Ok(pc) => match lookup_value(ls, "segment_max_bytes"@) {
                    None => Err(missing_message("segment_max_bytes"@)),
                    Some(ss) => match parse_uint(ss, u64::MAX as nat) {
                        Err(k) => Err("Invalid segment_max_bytes: "@ + int_error_text(k)),
                        Ok(smb) => if !valid_name(name) {
                            Err("Invalid topic name"@)
                        } else if smb == 0 {
                            Err("segment_max_bytes must be greater than zero"@)
                        } else if pc == 0 {
                            Err("partition_count must be greater than zero"@)
                        } else {
                            Ok((name, pc as u32, smb as u64))
                        },
                    },
                },
            },
        },
    }
}

/// The directory of a topic under `root`.
pub open spec fn topic_directory_path(root: Seq<char>, name: Seq<char>) -> Seq<char> {
    join(root, name)
}

/// The metadata file of a topic under `root`.
pub open spec fn metadata_path(root: Seq<char>, name: Seq<char>) -> Seq<char> {
    join(join(root, name), "metadata.toml"@)
}

/// What the metadata of topic `name` under `root` holds on `files`: `None`
/// when there is no such file, else the topic the file's text describes or
/// the message of the problem with it.
pub open spec fn stored_topic(files: Map<Seq<char>, Seq<u8>>, root: Seq<char>, name: Seq<char>) -> Option<
    Result<TopicView, Seq<char>>,
> {
    let path = metadata_path(root, name);
    if !files.contains_key(path) {
        None
    } else if !valid_utf8(files[path]) {
        Some(Err("Topic metadata is not UTF-8"@))
    } else {
        Some(decode_topic_text(decode_utf8(files[path])))
    }
}

/// Some valid topic directory under `root` holds metadata describing `t`.
pub open spec fn holds_topic(
    files: Map<Seq<char>, Seq<u8>>,
    dirs: Set<Seq<char>>,
    root: Seq<char>,
    t: TopicView,
) -> bool {
    exists|n: Seq<char>|
        valid_name(n) && dirs.contains(join(root, n)) && #[trigger] stored_topic(files, root, n)
            == Some(Ok::<TopicView, Seq<char>>(t))
}

/// Every entry of `root` that exists is among `entries`.
pub open spec fn complete_listing(
    files: Map<Seq<char>, Seq<u8>>,
    dirs: Set<Seq<char>>,
    root: Seq<char>,
    entries: Seq<String>,
) -> bool {
    forall|e: Seq<char>|
        #[trigger] is_child(root, e) && (files.contains_key(e) || dirs.contains(e))
            ==> crate::filesystem::listed(entries, e)
}

/// `n` names a directory under `root` whose metadata describes a topic.
pub open spec fn lists_topic(
    files: Map<Seq<char>, Seq<u8>>,
    dirs: Set<Seq<char>>,
    root: Seq<char>,
    n: Seq<char>,
) -> bool {
    valid_name(n) && dirs.contains(join(root, n)) && stored_topic(files, root, n) matches Some(
        Ok(_),
    )
}

/// When `root` exists, every topic that a directory under it describes is
/// among `ts`.
pub open spec fn all_collected(
    files: Map<Seq<char>, Seq<u8>>,
    dirs: Set<Seq<char>>,
    root: Seq<char>,
    ts: Seq<Topic>,
) -> bool {
    forall|n: Seq<char>|
        (files.contains_key(root) || dirs.contains(root)) && #[trigger] lists_topic(
            files,
            dirs,
            root,
            n,
        ) ==> exists|i: int|
            0 <= i < ts.len() && Some(Ok::<TopicView, Seq<char>>(ts[i]@)) == stored_topic(
                files,
                root,
                n,
            )
}

/// The topic that directory entry `e` describes, if any, is among `ts`.
pub open spec fn entry_collected(
    files: Map<Seq<char>, Seq<u8>>,
    dirs: Set<Seq<char>>,
    root: Seq<char>,
    e: Seq<char>,
    ts: Seq<Topic>,
) -> bool {
    dirs.contains(e) ==> match stored_topic(files, root, file_name(e)->0) {
        Some(Ok(t)) => exists|j: int| 0 <= j < ts.len() && #[trigger] ts[j]@ == t,
        _ => true,
    }
}

proof fn lemma_collected_grows(
    files: Map<Seq<char>, Seq<u8>>,
    dirs: Set<Seq<char>>,
    root: Seq<char>,
    e: Seq<char>,
    before: Seq<Topic>,
    after: Seq<Topic>,
)
    requires
        entry_collected(files, dirs, root, e, before),
        before.len() <= after.len(),
        forall|k: int| 0 <= k < before.len() ==> #[trigger] after[k] == before[k],
    ensures
        entry_collected(files, dirs, root, e, after),
{
    if dirs.contains(e) {
        if let Some(Ok(t)) = stored_topic(files, root, file_name(e)->0) {
            let j = choose|j: int| 0 <= j < before.len() && #[trigger] before[j]@ == t;
            assert(after[j] == before[j]);
        }
    }
}

/// Keeps topic metadata in a directory of a filesystem.
pub struct TopicMetadataStore<F: FileSystem> {
    pub file_system: F,
    pub root_directory: String,
}

impl<F: FileSystem> TopicMetadataStore<F> {
    pub fn new(file_system: F, root_directory: String) -> (s: Self)
        ensures
            s.file_system == file_system,
            s.root_directory@ == root_directory@,
    {
        TopicMetadataStore { file_system, root_directory }
    }

    /// Writes the metadata of `topic`, creating its directory.
    pub fn save(&mut self, topic: &Topic) -> (r: Result<(), BrokerError>)
        requires
            old(self).file_system.inv(),
        ensures
            final(self).file_system.inv(),
            final(self).root_directory == old(self).root_directory,
            r is Ok ==> final(self).file_system.files() == old(self).file_system.files().insert(
                metadata_path(old(self).root_directory@, topic@.0),
                encode_utf8(topic_text(topic@)),
            ),
            r is Ok ==> final(self).file_system.directories().contains(
                topic_directory_path(old(self).root_directory@, topic@.0),
            ),
    {
        let dir = self.topic_directory(&topic.name);
        let path = self.metadata_path(&topic.name);
        match self.file_system.create_directory(dir.as_str()) {
            Ok(()) => {},
            Err(e) => return Err(BrokerError { message: e.message }),
        }
        let text = Self::encode_topic(topic);
        let bytes = utf8_bytes(text.as_str());
        match self.file_system.write_file(path.as_str(), bytes.as_slice()) {
            Ok(()) => Ok(()),
            Err(e) => Err(BrokerError { message: e.message }),
        }
    }

    /// Removes the directory of topic `name`, if there is one.
    pub fn delete(&mut self, name: &TopicName) -> (r: Result<(), BrokerError>)
        requires
            old(self).file_system.inv(),
        ensures
            final(self).file_system.inv(),
            final(self).root_directory == old(self).root_directory,
            !(old(self).file_system.files().contains_key(
                topic_directory_path(old(self).root_directory@, name@),
            ) || old(self).file_system.directories().contains(
                topic_directory_path(old(self).root_directory@, name@),
            )) ==> r is Ok && final(self).file_system == old(self).file_system,
            r is Ok && (old(self).file_system.files().contains_key(
                topic_directory_path(old(self).root_directory@, name@),
            ) || old(self).file_system.directories().contains(
                topic_directory_path(old(self).root_directory@, name@),
            )) ==> !final(self).file_system.files().contains_key(
                metadata_path(old(self).root_directory@, name@),
            ),
    {
        let dir = self.topic_directory(name);
        if !self.file_system.path_exists(dir.as_str()) {
            return Ok(());
        }
        name.lemma_valid();
        match self.file_system.delete(dir.as_str()) {
            Ok(()) => {
                proof {
                    lemma_metadata_under_directory(self.root_directory@, name@);
                }
                Ok(())
            },
            Err(e) => Err(BrokerError { message: e.message }),
        }
    }

    /// The stored topic `name`, `None` when it has no metadata file.
    pub fn load(&self, name: &TopicName) -> (r: Result<Option<Topic>, BrokerError>)
        requires
            self.file_system.inv(),
        ensures
            stored_topic(self.file_system.files(), self.root_directory@, name@) is None
                && !self.file_system.directories().contains(
                metadata_path(self.root_directory@, name@),
            ) ==> r matches Ok(None),
            r matches Ok(None) ==> stored_topic(
                self.file_system.files(),
                self.root_directory@,
                name@,
            ) is None,
            r matches Ok(Some(t)) ==> stored_topic(
                self.file_system.files(),
                self.root_directory@,
                name@,
            ) == Some(Ok::<TopicView, Seq<char>>(t@)),
    {
        let path = self.metadata_path(name);
        if !self.file_system.path_exists(path.as_str()) {
            return Ok(None);
        }
        let bytes = match self.file_system.read_file(path.as_str()) {
            Ok(b) => b,
            Err(e) => return Err(BrokerError { message: e.message }),
        };
        let content = match text_from_utf8(bytes) {
            Ok(s) => s,
            Err(e) => {
                return Err(
                    BrokerError { message: concat("Topic metadata is not UTF-8: ", e.as_str()) },
                )
            },
        };
        match Self::decode_topic(content.as_str()) {
            Ok(t) => Ok(Some(t)),
            Err(e) => Err(e),
        }
    }

    /// Whether topic `name` has a metadata file.
    pub fn metadata_exists(&self, name: &TopicName) -> (b: bool)
        requires
            self.file_system.inv(),
        ensures
            b == (self.file_system.files().contains_key(metadata_path(self.root_directory@, name@))
                || self.file_system.directories().contains(
                metadata_path(self.root_directory@, name@),
            )),
    {
        let path = self.metadata_path(name);
        self.file_system.path_exists(path.as_str())
    }

    /// The topic stored in directory `path` (one of the root's entries):
    /// `None` when the directory has no metadata file.
    fn load_topic_from_directory(&self, path: &str) -> (r: Result<Option<Topic>, BrokerError>)
        requires
            self.file_system.inv(),
            is_child(self.root_directory@, path@),
        ensures
            r matches Ok(None) ==> stored_topic(
                self.file_system.files(),
                self.root_directory@,
                file_name(path@)->0,
            ) is None,
            r matches Ok(Some(t)) ==> valid_name(file_name(path@)->0) && stored_topic(
                self.file_system.files(),
                self.root_directory@,
                file_name(path@)->0,
            ) == Some(Ok::<TopicView, Seq<char>>(t@)),
            r is Ok ==> valid_name(file_name(path@)->0),
            stored_topic(self.file_system.files(), self.root_directory@, file_name(path@)->0) matches Some(Err(_))
                ==> r is Err,
            valid_name(file_name(path@)->0) && stored_topic(
                self.file_system.files(),
                self.root_directory@,
                file_name(path@)->0,
            ) is None && !self.file_system.directories().contains(
                metadata_path(self.root_directory@, file_name(path@)->0),
            ) ==> r matches Ok(None),
    {
        let n = match file_name_of(path) {
            Some(n) => n,
            None => return Ok(None),
        };
        let name = match TopicName::new(n) {
            Ok(t) => t,
            Err(e) => return Err(BrokerError { message: e.message }),
        };
        self.load(&name)
    }

    /// Every topic stored under the root directory, in the order the
    /// directory lists them.
    #[verifier::rlimit(40)]
    pub fn load_all(&self) -> (r: Result<Vec<Topic>, BrokerError>)
        requires
            self.file_system.inv(),
        ensures
            r matches Ok(ts) ==> forall|i: int|
                0 <= i < ts@.len() ==> holds_topic(
                    self.file_system.files(),
                    self.file_system.directories(),
                    self.root_directory@,
                    #[trigger] ts@[i]@,
                ),
            r matches Ok(ts) ==> all_collected(
                self.file_system.files(),
                self.file_system.directories(),
                self.root_directory@,
                ts@,
            ),
            !(self.file_system.files().contains_key(self.root_directory@) || self.file_system.directories().contains(
                self.root_directory@,
            )) ==> (r matches Ok(ts) && ts@.len() == 0),
    {
        let mut topics: Vec<Topic> = Vec::new();
        if !self.file_system.path_exists(self.root_directory.as_str()) {
            return Ok(topics);
        }
        let rootp = self.root_directory.as_str();
        let entries = match self.file_system.read_directory(rootp) {
            Ok(e) => e,
            Err(e) => return Err(BrokerError { message: e.message }),
        };
        let ghost files = self.file_system.files();
        let ghost dirs = self.file_system.directories();
        let ghost root = self.root_directory@;
        assert(complete_listing(files, dirs, root, entries@)) by {
            assert forall|e: Seq<char>|
                #[trigger] is_child(root, e) && (files.contains_key(e) || dirs.contains(e)) implies crate::filesystem::listed(
                    entries@,
                    e,
                ) by {
                assert(self.file_system.files().contains_key(e) || self.file_system.directories().contains(e));
                assert(is_child(rootp@, e));
            }
        }
        let mut i: usize = 0;
        while i < entries.len()
            invariant
                complete_listing(files, dirs, root, entries@),
                self.file_system.inv(),
                files == self.file_system.files(),
                dirs == self.file_system.directories(),
                root == self.root_directory@,
                files.contains_key(root) || dirs.contains(root),
                i <= entries@.len(),
                forall|k: int| 0 <= k < entries@.len() ==> is_child(root, #[trigger] entries@[k]@),
                forall|k: int|
                    0 <= k < topics@.len() ==> holds_topic(files, dirs, root, #[trigger] topics@[k]@),
                forall|k: int|
                    0 <= k < i ==> entry_collected(files, dirs, root, #[trigger] entries@[k]@, topics@),
            decreases entries@.len() - i,
        {
            let entry = &entries[i];
            let ghost before = topics@;
            if self.file_system.is_directory(entry.as_str()) {
                match self.load_topic_from_directory(entry.as_str()) {
                    Ok(Some(t)) => {
                        topics.push(t);
                        proof {
                            let n = file_name(entries@[i as int]@)->0;
                            assert(join(root, n) == entries@[i as int]@);
                            assert(holds_topic(files, dirs, root, topics@[topics@.len() - 1]@));
                        }
                    },
                    Ok(None) => {},
                    Err(e) => return Err(e),
                }
            }
            proof {
                assert forall|k: int|
                    0 <= k < topics@.len() implies holds_topic(
                        files,
                        dirs,
                        root,
                        #[trigger] topics@[k]@,
                    ) by {
                    if k < before.len() {
                        assert(topics@[k] == before[k]);
                    }
                }
                assert forall|k: int|
                    0 <= k < i + 1 implies entry_collected(
                        files,
                        dirs,
                        root,
                        #[trigger] entries@[k]@,
                        topics@,
                    ) by {
                    if k < i {
                        lemma_collected_grows(files, dirs, root, entries@[k]@, before, topics@);
                    } else if topics@.len() > before.len() {
                        assert(topics@[topics@.len() - 1]@ == topics@[before.len() as int]@);
                    }
                }
            }
            i = i + 1;
        }
        proof {
            assert forall|n: Seq<char>|
                (files.contains_key(root) || dirs.contains(root)) && #[trigger] lists_topic(
                    files,
                    dirs,
                    root,
                    n,
                ) implies exists|i: int|
                0 <= i < topics@.len() && Some(Ok::<TopicView, Seq<char>>(topics@[i]@))
                    == stored_topic(files, root, n) by {
                crate::paths::lemma_file_name_of_join(root, n);
                let e = join(root, n);
                assert(is_child(root, e));
                assert(self.file_system.directories().contains(e));
                assert(files.contains_key(e) || dirs.contains(e));
                assert(crate::filesystem::listed(entries@, e));
                let k = choose|k: int| 0 <= k < entries@.len() && #[trigger] entries@[k]@ == e;
                assert(entry_collected(files, dirs, root, entries@[k]@, topics@));
            }
        }
        assert(all_collected(files, dirs, root, topics@));
        Ok(topics)
    }

    fn topic_directory(&self, name: &TopicName) -> (p: String)
        ensures
            p@ == topic_directory_path(self.root_directory@, name@),
    {
        join_path(self.root_directory.as_str(), name.as_str())
    }

    fn metadata_path(&self, name: &TopicName) -> (p: String)
        ensures
            p@ == metadata_path(self.root_directory@, name@),
    {
        let dir = self.topic_directory(name);
        join_path(dir.as_str(), "metadata.toml")
    }

    /// The metadata text of a topic.
    pub fn encode_topic(topic: &Topic) -> (s: String)
        ensures
            s@ == topic_text(topic@),
    {
        let pc = decimal_chars(topic.configuration.partition_count as u64);
        let smb = decimal_chars(topic.configuration.partition_configuration.segment_max_bytes);
        let pcs = string_from_chars(pc.as_slice());
        let smbs = string_from_chars(smb.as_slice());
        let a = concat3("name = \"", topic.name.as_str(), "\"\npartition_count = ");
        let b = concat3(a.as_str(), pcs.as_str(), "\nsegment_max_bytes = ");
        concat3(b.as_str(), smbs.as_str(), "\n")
    }

    /// The value the first line holding `key` gives, without quotes.
    fn read_required_value(ls: &Vec<Vec<char>>, key: &str) -> (r: Result<Vec<char>, BrokerError>)
        ensures
            r matches Ok(v) ==> lookup_value(Seq::new(ls@.len(), |i: int| ls@[i]@), key@) == Some(
                v@,
            ),
            r matches Err(e) ==> lookup_value(Seq::new(ls@.len(), |i: int| ls@[i]@), key@) is None
                && e.message@ == missing_message(key@),
    {
        let key_chars = chars_of(key);
        let ghost all = Seq::new(ls@.len(), |i: int| ls@[i]@);
        let mut i: usize = 0;
        assert(all.subrange(0, all.len() as int) =~= all);
        while i < ls.len()
            invariant
                i <= ls@.len(),
                key_chars@ == key@,
                all == Seq::new(ls@.len(), |i: int| ls@[i]@),
                lookup_value(all, key@) == lookup_value(all.subrange(i as int, all.len() as int), key@),
            decreases ls@.len() - i,
        {
            let ghost rest = all.subrange(i as int, all.len() as int);
            assert(rest[0] == ls@[i as int]@);
            assert(rest.drop_first() =~= all.subrange(i + 1, all.len() as int));
            match split_key_value(ls[i].as_slice()) {
                Some((k, v)) => {
                    if same_chars(k.as_slice(), key_chars.as_slice()) {
                        return Ok(strip_quotes(v));
                    }
                },
                None => {},
            }
            i = i + 1;
        }
        Err(BrokerError { message: concat3("Topic metadata missing '", key, "'") })
    }

    /// The topic that a metadata text describes.
    pub fn decode_topic(content: &str) -> (r: Result<Topic, BrokerError>)
        ensures
            r matches Ok(t) ==> decode_topic_text(content@) == Ok::<TopicView, Seq<char>>(t@),
            r matches Err(e) ==> decode_topic_text(content@) == Err::<TopicView, Seq<char>>(
                e.message@,
            ),
    {
        let cs = chars_of(content);
        let ls = split_lines(cs.as_slice());
        proof {
            assert(Seq::new(ls@.len(), |i: int| ls@[i]@) =~= lines(content@));
        }
        let name = match Self::read_required_value(&ls, "name") {
            Ok(v) => v,
            Err(e) => return Err(e),
        };
        let pcs = match Self::read_required_value(&ls, "partition_count") {
            Ok(v) => string_from_chars(v.as_slice()),
            Err(e) => return Err(e),
        };
        let pc = match parse_uint_text(pcs.as_str(), u32::MAX as u64) {
            Ok(v) => v as u32,
            Err(k) => {
                return Err(
                    BrokerError { message: concat("Invalid topic partition_count: ", k.text()) },
                )
            },
        };
        let ss = match Self::read_required_value(&ls, "segment_max_bytes") {
            Ok(v) => string_from_chars(v.as_slice()),
            Err(e) => return Err(e),
        };
        let smb = match parse_uint_text(ss.as_str(), u64::MAX) {
            Ok(v) => v,
            Err(k) => {
                return Err(BrokerError { message: concat("Invalid segment_max_bytes: ", k.text()) })
            },
        };
        let topic_name = match TopicName::new(string_from_chars(name.as_slice())) {
            Ok(n) => n,
            Err(e) => return Err(BrokerError { message: e.message }),
        };
        let partition_configuration = match PartitionConfiguration::new(smb) {
            Ok(c) => c,
            Err(e) => return Err(BrokerError { message: e.message }),
        };
        let configuration = match TopicConfiguration::new(pc, partition_configuration) {
            Ok(c) => c,
            Err(e) => return Err(BrokerError { message: e.message }),
        };
        Ok(Topic::new(topic_name, configuration))
    }
}

/// The metadata file of a topic lies in its directory.
proof fn lemma_metadata_under_directory(root: Seq<char>, name: Seq<char>)
    requires
        valid_name(name),
    ensures
        crate::filesystem::is_under(topic_directory_path(root, name), metadata_path(root, name)),
{
    reveal_strlit("metadata.toml");
    let d = topic_directory_path(root, name);
    let m = "metadata.toml"@;
    assert(m[0] == 'm');
    assert(name[0] != '/' && name.last() != '/');
    if name[0] == '/' {
    } else if root.len() == 0 || root.last() == '/' {
        assert(d == root + name);
    } else {
        assert(d == root + seq!['/'] + name);
    }
    assert(d.len() > 0 && d.last() == name.last());
    assert(join(d, m) == d + seq!['/'] + m);
    assert((d + seq!['/'] + m).subrange(0, d.len() + 1int) =~= d + seq!['/']);
}


/// Text without line breaks, comment marks or `=` (quotes allowed), that
/// neither starts nor ends with white space.
pub open spec fn clean_value(v: Seq<char>) -> bool {
    &&& v.len() > 0
    &&& !is_white(v[0])
    &&& !is_white(v.last())
    &&& forall|i: int| 0 <= i < v.len() ==> #[trigger] v[i] != '#' && v[i] != '=' && v[i] != '\n'
}

/// A line `key = value` reads back as that key and value.
pub proof fn lemma_key_value_line(k: Seq<char>, v: Seq<char>)
    requires
        k.len() > 0,
        plain(k),
        clean_value(v),
    ensures
        key_value(k + " = "@ + v) == Some((k, v)),
{
    reveal_strlit(" = ");
    let line = k + " = "@ + v;
    assert(" = "@ =~= seq![' ', '=', ' ']);
    assert forall|i: int| 0 <= i < line.len() implies #[trigger] line[i] != '#' by {
        if i < k.len() {
            assert(line[i] == k[i]);
        } else if i >= k.len() + 3 {
            assert(line[i] == v[i - k.len() - 3]);
        }
    }
    lemma_first_index_absent(line, '#');
    assert(before_comment(line) =~= line);
    assert(!is_white(line[0]));
    assert(line.last() == v.last());
    lemma_trim_white_start_at(line, 0);
    assert(line.subrange(0, line.len() as int) =~= line);
    lemma_trim_white_end_at(line, line.len() as int);
    assert(trim_white(line) == line);
    assert forall|j: int| 0 <= j < k.len() implies line[j] != '=' by {
        assert(line[j] == k[j]);
    }
    crate::text::lemma_first_index(line, '=', k.len() + 1int);
    let before = line.subrange(0, k.len() + 1int);
    assert(before =~= k + seq![' ']);
    lemma_trim_white_start_at(before, 0);
    assert(before.subrange(0, before.len() as int) =~= before);
    assert(before[k.len() - 1] == k.last());
    lemma_trim_white_end_at(before, k.len() as int);
    assert(before.subrange(0, k.len() as int) =~= k);
    let after = line.subrange(k.len() + 2int, line.len() as int);
    assert(after =~= seq![' '] + v);
    lemma_trim_white_start_at(after, 1);
    assert(after.subrange(1, after.len() as int) =~= v);
    lemma_trim_white_end_at(v, v.len() as int);
    assert(v.subrange(0, v.len() as int) =~= v);
}

/// The lines of `a`, a line break, and `rest`, when `a` holds no line break
/// and does not end in a carriage return.
pub proof fn lemma_lines_cons(a: Seq<char>, rest: Seq<char>)
    requires
        forall|i: int| 0 <= i < a.len() ==> #[trigger] a[i] != '\n',
        a.len() > 0 ==> a.last() != '\r',
    ensures
        lines(a + seq!['\n'] + rest) == seq![a] + lines(rest),
{
    let s = a + seq!['\n'] + rest;
    assert forall|j: int| 0 <= j < a.len() implies s[j] != '\n' by {
        assert(s[j] == a[j]);
    }
    crate::text::lemma_first_index(s, '\n', a.len() as int);
    assert(s.subrange(0, a.len() as int) =~= a);
    assert(s.subrange(a.len() + 1int, s.len() as int) =~= rest);
}

pub open spec fn valid_topic(t: TopicView) -> bool {
    valid_name(t.0) && t.1 > 0 && t.2 > 0
}

/// The metadata text of a valid topic reads back as that topic.
pub proof fn law_topic_text_roundtrip(t: TopicView)
    requires
        valid_topic(t),
    ensures
        decode_topic_text(topic_text(t)) == Ok::<TopicView, Seq<char>>(t),
{
    reveal_strlit("name = \"");
    reveal_strlit("\"\npartition_count = ");
    reveal_strlit("\nsegment_max_bytes = ");
    reveal_strlit("\n");
    reveal_strlit("name");
    reveal_strlit("partition_count");
    reveal_strlit("segment_max_bytes");
    reveal_strlit(" = ");
    reveal_strlit("\"");
    let name = t.0;
    let pcd = decimal(t.1 as nat);
    let smd = decimal(t.2 as nat);
    lemma_decimal_shape(t.1 as nat);
    lemma_decimal_shape(t.2 as nat);
    let qname = "\""@ + name + "\""@;
    let l1 = "name"@ + " = "@ + qname;
    let l2 = "partition_count"@ + " = "@ + pcd;
    let l3 = "segment_max_bytes"@ + " = "@ + smd;
    let text = topic_text(t);
    assert(text =~= l1 + seq!['\n'] + (l2 + seq!['\n'] + (l3 + seq!['\n'] + Seq::empty())));
    assert forall|i: int| 0 <= i < qname.len() implies #[trigger] qname[i] != '#' && qname[i]
        != '=' && qname[i] != '\n' by {
        if 1 <= i < qname.len() - 1 {
            assert(qname[i] == name[i - 1]);
        }
    }
    assert(clean_value(qname));
    assert(plain("name"@));
    assert(plain("partition_count"@));
    assert(plain("segment_max_bytes"@));
    assert(clean_value(pcd));
    assert(clean_value(smd));
    lemma_key_value_line("name"@, qname);
    lemma_key_value_line("partition_count"@, pcd);
    lemma_key_value_line("segment_max_bytes"@, smd);
    assert forall|i: int| 0 <= i < l1.len() implies #[trigger] l1[i] != '\n' by {
        if i >= 7 {
            assert(l1[i] == qname[i - 7]);
        }
    }
    assert forall|i: int| 0 <= i < l2.len() implies #[trigger] l2[i] != '\n' by {
        if i >= 18 {
            assert(l2[i] == pcd[i - 18]);
        }
    }
    assert forall|i: int| 0 <= i < l3.len() implies #[trigger] l3[i] != '\n' by {
        if i >= 20 {
            assert(l3[i] == smd[i - 20]);
        }
    }
    assert(l1.last() == '"');
    assert(l2.last() == pcd.last());
    assert(l3.last() == smd.last());
    lemma_lines_cons(l3, Seq::empty());
    lemma_lines_cons(l2, l3 + seq!['\n'] + Seq::empty());
    lemma_lines_cons(l1, l2 + seq!['\n'] + (l3 + seq!['\n'] + Seq::empty()));
    let ls = lines(text);
    assert(lines(Seq::<char>::empty()) =~= Seq::<Seq<char>>::empty());
    assert(ls =~= seq![l1, l2, l3]);
    assert(unquoted(qname) =~= name);
    assert(unquoted(pcd) == pcd);
    assert(unquoted(smd) == smd);
    assert(ls.drop_first() =~= seq![l2, l3]);
    assert(ls.drop_first().drop_first() =~= seq![l3]);
    assert("name"@ != "partition_count"@);
    assert("name"@ != "segment_max_bytes"@);
    assert("partition_count"@ != "segment_max_bytes"@);
    assert(lookup_value(ls, "name"@) == Some(name));
    assert(ls.drop_first()[0] == l2);
    assert(lookup_value(ls.drop_first(), "partition_count"@) == Some(pcd));
    assert(lookup_value(ls, "partition_count"@) == Some(pcd));
    assert(ls.drop_first().drop_first()[0] == l3);
    assert(lookup_value(ls.drop_first().drop_first(), "segment_max_bytes"@) == Some(smd));
    assert(lookup_value(ls.drop_first(), "segment_max_bytes"@) == Some(smd));
    assert(lookup_value(ls, "segment_max_bytes"@) == Some(smd));
    lemma_parse_decimal_padded(t.1 as nat, 0, u32::MAX as nat);
    lemma_parse_decimal_padded(t.2 as nat, 0, u64::MAX as nat);
    assert(crate::text::decimal_padded(t.1 as nat, 0) == pcd);
    assert(crate::text::decimal_padded(t.2 as nat, 0) == smd);
}

/// Once a valid topic is saved, the store holds exactly that topic under
/// its name.
pub proof fn law_save_then_load(
    files: Map<Seq<char>, Seq<u8>>,
    root: Seq<char>,
    t: TopicView,
)
    requires
        valid_topic(t),
    ensures
        stored_topic(files.insert(metadata_path(root, t.0), encode_utf8(topic_text(t))), root, t.0)
            == Some(Ok::<TopicView, Seq<char>>(t)),
{
    vstd::utf8::encode_utf8_valid_utf8(topic_text(t));
    vstd::utf8::encode_utf8_decode_utf8(topic_text(t));
    law_topic_text_roundtrip(t);
}

} // verus!
