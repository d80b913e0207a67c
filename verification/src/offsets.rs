//! Committed offsets of consumer groups and their text file, one
//! `topic.partition = offset` line per partition.
use vstd::prelude::*;
use vstd::utf8::{decode_utf8, encode_utf8, valid_utf8};

use crate::filesystem::FileSystem;
use crate::kv_text::{key_value, split_key_value};
use crate::model::{BrokerError, ConsumerGroupId, Offset, PartitionId, PartitionKey, TopicName, TopicPartition};
use crate::order::{keys_sorted, lemma_text_keys_multiset, sort_by_text_key, text_keys, text_le, TextKeyed};
use crate::paths::{join, join_path};
use crate::text::{
    chars_of, concat, concat3, decimal, decimal_chars, find_first, find_last, int_error_text, last_index,
    lemma_last_index, lines, parse_uint, parse_uint_text, split_lines, string_from_chars, sub_chars,
    valid_name,
};
use crate::topic_store::{text_from_utf8, utf8_bytes};

verus! {

/// The offset a group committed for a partition.
pub struct CommittedOffset {
    pub partition: TopicPartition,
    pub offset: Offset,
}

impl View for CommittedOffset {
    type V = (PartitionKey, u64);

    open spec fn view(&self) -> (PartitionKey, u64) {
        (self.partition@, self.offset.value)
    }
}

/// The map that a sequence of entries describes; later entries win.
pub open spec fn offsets_map(s: Seq<(PartitionKey, u64)>) -> Map<PartitionKey, u64>
    decreases s.len(),
{
    if s.len() == 0 {
        Map::empty()
    } else {
        offsets_map(s.drop_last()).insert(s.last().0, s.last().1)
    }
}

/// The abstract content of a table of committed offsets.
pub open spec fn table_view(t: Seq<CommittedOffset>) -> Seq<(PartitionKey, u64)> {
    t.map_values(|e: CommittedOffset| e@)
}

/// No partition occurs twice in the table.
pub open spec fn distinct_partitions(t: Seq<CommittedOffset>) -> bool {
    forall|i: int, j: int| 0 <= i < j < t.len() ==> #[trigger] t[i]@.0 != #[trigger] t[j]@.0
}

/// The map from partitions to offsets that a table holds.
pub open spec fn table_map(t: Seq<CommittedOffset>) -> Map<PartitionKey, u64> {
    offsets_map(table_view(t))
}

proof fn lemma_offsets_map_distinct(s: Seq<(PartitionKey, u64)>)
    requires
        forall|i: int, j: int| 0 <= i < j < s.len() ==> #[trigger] s[i].0 != #[trigger] s[j].0,
    ensures
        forall|k: PartitionKey|
            #[trigger] offsets_map(s).contains_key(k) <==> exists|i: int|
                0 <= i < s.len() && #[trigger] s[i].0 == k,
        forall|i: int| 0 <= i < s.len() ==> #[trigger] offsets_map(s)[s[i].0] == s[i].1,
    decreases s.len(),
{
    if s.len() > 0 {
        let sl = s.drop_last();
        lemma_offsets_map_distinct(sl);
        assert forall|k: PartitionKey|
            #[trigger] offsets_map(s).contains_key(k) <==> exists|i: int|
                0 <= i < s.len() && #[trigger] s[i].0 == k by {
            if exists|i: int| 0 <= i < s.len() && #[trigger] s[i].0 == k {
                let i = choose|i: int| 0 <= i < s.len() && #[trigger] s[i].0 == k;
                if i < s.len() - 1 {
                    assert(sl[i].0 == k);
                }
            }
            if offsets_map(sl).contains_key(k) {
                let i = choose|i: int| 0 <= i < sl.len() && #[trigger] sl[i].0 == k;
                assert(s[i].0 == k);
            }
        }
        assert forall|i: int| 0 <= i < s.len() implies #[trigger] offsets_map(s)[s[i].0] == s[i].1 by {
            if i < s.len() - 1 {
                assert(sl[i] == s[i]);
                assert(s[i].0 != s[s.len() - 1].0);
                assert(offsets_map(sl)[sl[i].0] == sl[i].1);
            }
        }
    }
}

/// The position of `partition` in the table, if it is there.
fn position_of(table: &Vec<CommittedOffset>, partition: &TopicPartition) -> (r: Option<usize>)
    ensures
        r matches Some(i) ==> i < table@.len() && table@[i as int]@.0 == partition@,
        r is None ==> forall|j: int| 0 <= j < table@.len() ==> #[trigger] table@[j]@.0 != partition@,
{
    let mut i: usize = 0;
    while i < table.len()
        invariant
            i <= table@.len(),
            forall|j: int| 0 <= j < i ==> #[trigger] table@[j]@.0 != partition@,
        decreases table@.len() - i,
    {
        if table[i].partition.same_as(partition) {
            return Some(i);
        }
        i = i + 1;
    }
    None
}

/// Sets the offset of `partition` in the table: in place of its entry, or
/// as a new one.
pub fn upsert(table: &mut Vec<CommittedOffset>, partition: TopicPartition, offset: Offset)
    requires
        distinct_partitions(old(table)@),
    ensures
        distinct_partitions(final(table)@),
        table_map(final(table)@) == table_map(old(table)@).insert(partition@, offset.value),
{
    let ghost before = table@;
    let ghost pv = partition@;
    proof {
        lemma_offsets_map_distinct(table_view(before));
    }
    match position_of(table, &partition) {
        Some(i) => {
            let entry = CommittedOffset { partition, offset };
            let ghost ev = entry@;
            table.set(i, entry);
            proof {
                let after = table@;
                assert(after == before.update(i as int, entry));
                assert(ev == (pv, offset.value));
                assert forall|a: int, b: int| 0 <= a < b < after.len() implies #[trigger] after[a]@.0 != #[trigger] after[b]@.0 by {
                    if a != i && b != i {
                        assert(after[a] == before[a] && after[b] == before[b]);
                    } else if a == i {
                        assert(after[b] == before[b]);
                        assert(before[i as int]@.0 == pv);
                    } else {
                        assert(after[a] == before[a]);
                        assert(before[i as int]@.0 == pv);
                    }
                }
                lemma_offsets_map_distinct(table_view(after));
                assert(table_view(after)[i as int] == ev);
                assert forall|k: int| 0 <= k < after.len() && k != i implies #[trigger] table_view(after)[k] == table_view(before)[k] by {
                    assert(after[k] == before[k]);
                }
                assert forall|k: PartitionKey| #[trigger] table_map(after).contains_key(k)
                    == table_map(before).insert(pv, offset.value).contains_key(k) by {
                    if table_map(before).contains_key(k) {
                        let j = choose|j: int| 0 <= j < table_view(before).len() && #[trigger] table_view(before)[j].0 == k;
                        if j != i {
                            assert(table_view(after)[j].0 == k);
                        }
                    }
                    if table_map(after).contains_key(k) {
                        let j = choose|j: int| 0 <= j < table_view(after).len() && #[trigger] table_view(after)[j].0 == k;
                        if j != i {
                            assert(table_view(before)[j].0 == k);
                        }
                    }
                    if k == pv {
                        assert(table_view(after)[i as int].0 == k);
                    }
                }
                assert forall|k: PartitionKey| table_map(after).contains_key(k) implies #[trigger] table_map(after)[k]
                    == table_map(before).insert(pv, offset.value)[k] by {
                    let j = choose|j: int| 0 <= j < table_view(after).len() && #[trigger] table_view(after)[j].0 == k;
                    assert(table_map(after)[table_view(after)[j].0] == table_view(after)[j].1);
                    if j != i {
                        assert(table_view(before)[j] == table_view(after)[j]);
                        assert(table_map(before)[table_view(before)[j].0] == table_view(before)[j].1);
                    }
                }
                assert(table_map(after) =~= table_map(before).insert(pv, offset.value));
            }
        },
        None => {
            table.push(CommittedOffset { partition, offset });
            proof {
                let after = table@;
                assert(table_view(after).drop_last() =~= table_view(before));
                assert forall|a: int, b: int| 0 <= a < b < after.len() implies #[trigger] after[a]@.0 != #[trigger] after[b]@.0 by {
                    if b < after.len() - 1 {
                        assert(after[a] == before[a] && after[b] == before[b]);
                    } else {
                        assert(after[a] == before[a]);
                    }
                }
            }
        },
    }
}

/// The offset of `partition` in the table, if it has one.
pub fn lookup(table: &Vec<CommittedOffset>, partition: &TopicPartition) -> (r: Option<Offset>)
    requires
        distinct_partitions(table@),
    ensures
        r matches Some(o) ==> table_map(table@).contains_key(partition@) && table_map(table@)[partition@] == o.value,
        r is None ==> !table_map(table@).contains_key(partition@),
{
    proof {
        lemma_offsets_map_distinct(table_view(table@));
    }
    let mut i: usize = 0;
    while i < table.len()
        invariant
            distinct_partitions(table@),
            i <= table@.len(),
            forall|j: int| 0 <= j < i ==> #[trigger] table@[j]@.0 != partition@,
        decreases table@.len() - i,
    {
        if table[i].partition.same_as(partition) {
            proof {
                lemma_offsets_map_distinct(table_view(table@));
                assert(table_view(table@)[i as int] == table@[i as int]@);
                assert(table_view(table@)[i as int].0 == partition@);
                assert(table_map(table@).contains_key(table_view(table@)[i as int].0));
                assert(table_map(table@)[table_view(table@)[i as int].0] == table_view(table@)[i as int].1);
            }
            return Some(table[i].offset);
        }
        i = i + 1;
    }
    proof {
        lemma_offsets_map_distinct(table_view(table@));
        if table_map(table@).contains_key(partition@) {
            let j = choose|j: int| 0 <= j < table_view(table@).len() && #[trigger] table_view(table@)[j].0 == partition@;
            assert(table@[j]@.0 == partition@);
        }
    }
    None
}

/// The line that stores one committed offset.
pub open spec fn offset_line(e: (PartitionKey, u64)) -> Seq<char> {
    e.0.0 + "."@ + decimal(e.0.1 as nat) + " = "@ + decimal(e.1 as nat) + "\n"@
}

/// The lines one after the other.
pub open spec fn concat_all(ls: Seq<Seq<char>>) -> Seq<char>
    decreases ls.len(),
{
    if ls.len() == 0 {
        Seq::empty()
    } else {
        ls[0] + concat_all(ls.drop_first())
    }
}

/// Whether `text` is what saving the table gives: its lines, in order.
pub open spec fn offsets_text(table: Seq<(PartitionKey, u64)>, text: Seq<char>) -> bool {
    exists|ls: Seq<Seq<char>>|
        #![trigger concat_all(ls)]
        ls.to_multiset() =~= table.map_values(|e: (PartitionKey, u64)| offset_line(e)).to_multiset()
            && (forall|i: int, j: int| 0 <= i < j < ls.len() ==> text_le(#[trigger] ls[i], #[trigger] ls[j]))
            && text == concat_all(ls)
}

/// What one line of the offsets file says: the entry, or why it is wrong.
pub open spec fn parse_offset_entry(k: Seq<char>, v: Seq<char>) -> Result<(PartitionKey, u64), Seq<char>> {
    let d = last_index(k, '.');
    if d < 0 {
        Err("Invalid offset key '"@ + k + "'"@)
    } else if !valid_name(k.subrange(0, d)) {
        Err("Invalid topic name"@)
    } else {
        match parse_uint(k.subrange(d + 1, k.len() as int), u32::MAX as nat) {
            Err(e) => Err("Invalid partition in offset key '"@ + k + "': "@ + int_error_text(e)),
            Ok(p) => match parse_uint(v, u64::MAX as nat) {
                Err(e) => Err("Invalid offset value '"@ + v + "': "@ + int_error_text(e)),
                Ok(o) => Ok(((k.subrange(0, d), p as u32), o as u64)),
            },
        }
    }
}

/// What the lines of an offsets file give: their entries in order, or the
/// problem with the first wrong line. Lines without `key = value` are
/// skipped.
pub open spec fn decode_offset_lines(ls: Seq<Seq<char>>) -> Result<Seq<(PartitionKey, u64)>, Seq<char>>
    decreases ls.len(),
{
    if ls.len() == 0 {
        Ok(Seq::empty())
    } else {
        match key_value(ls[0]) {
            None => decode_offset_lines(ls.drop_first()),
            Some((k, v)) => match parse_offset_entry(k, v) {
                Err(m) => Err(m),
                Ok(e) => match decode_offset_lines(ls.drop_first()) {
                    Err(m) => Err(m),
                    Ok(es) => Ok(seq![e] + es),
                },
            },
        }
    }
}

/// What reading an offsets file gives: the map it describes (later lines
/// win), or the problem with its first wrong line.
pub open spec fn decode_offsets_text(content: Seq<char>) -> Result<Map<PartitionKey, u64>, Seq<char>> {
    match decode_offset_lines(lines(content)) {
        Err(m) => Err(m),
        Ok(es) => Ok(offsets_map(es)),
    }
}

/// The offsets file of a group under `root`.
pub open spec fn offsets_path(root: Seq<char>, group: Seq<char>) -> Seq<char> {
    join(join(root, group), "offsets.toml"@)
}

/// What the offsets file of group `g` under `root` holds on `files`: `None`
/// when there is no such file, else the offsets it describes or the message
/// of the problem with it.
pub open spec fn stored_offsets(files: Map<Seq<char>, Seq<u8>>, root: Seq<char>, g: Seq<char>) -> Option<
    Result<Map<PartitionKey, u64>, Seq<char>>,
> {
    let path = offsets_path(root, g);
    if !files.contains_key(path) {
        None
    } else if !valid_utf8(files[path]) {
        Some(Err("Offset file is not UTF-8"@))
    } else {
        Some(decode_offsets_text(decode_utf8(files[path])))
    }
}

/// Reads one `topic.partition = offset` entry.
fn parse_entry(k: &Vec<char>, v: &Vec<char>) -> (r: Result<CommittedOffset, BrokerError>)
    ensures
        r matches Ok(e) ==> parse_offset_entry(k@, v@) == Ok::<(PartitionKey, u64), Seq<char>>(e@),
        r matches Err(m) ==> parse_offset_entry(k@, v@) == Err::<(PartitionKey, u64), Seq<char>>(m.message@),
{
    let ks = string_from_chars(k.as_slice());
    let klen = k.len();
    let d = match find_last(k.as_slice(), '.') {
        Some(d) => d,
        None => return Err(BrokerError { message: concat3("Invalid offset key '", ks.as_str(), "'") }),
    };
    let topic_chars = sub_chars(k.as_slice(), 0, d);
    let topic = match TopicName::new(string_from_chars(topic_chars.as_slice())) {
        Ok(t) => t,
        Err(e) => return Err(BrokerError { message: e.message }),
    };
    let part_chars = sub_chars(k.as_slice(), d + 1, klen);
    let part_text = string_from_chars(part_chars.as_slice());
    let partition = match parse_uint_text(part_text.as_str(), u32::MAX as u64) {
        Ok(p) => p as u32,
        Err(e) => {
            let head = concat3("Invalid partition in offset key '", ks.as_str(), "': ");
            return Err(BrokerError { message: concat(head.as_str(), e.text()) });
        },
    };
    let vs = string_from_chars(v.as_slice());
    let offset = match parse_uint_text(vs.as_str(), u64::MAX) {
        Ok(o) => o,
        Err(e) => {
            let head = concat3("Invalid offset value '", vs.as_str(), "': ");
            return Err(BrokerError { message: concat(head.as_str(), e.text()) });
        },
    };
    Ok(CommittedOffset { partition: TopicPartition::new(topic, PartitionId::new(partition)), offset: Offset::new(offset) })
}

/// A line of text, ordered by its characters.
pub struct Line {
    pub chars: Vec<char>,
}

impl TextKeyed for Line {
    open spec fn text_key(&self) -> Seq<char> {
        self.chars@
    }

    fn key_chars(&self) -> (k: Vec<char>) {
        sub_chars(self.chars.as_slice(), 0, self.chars.len())
    }
}

/// Keeps committed offsets in a directory of a filesystem, one file per
/// group.
pub struct OffsetStore<F: FileSystem> {
    pub file_system: F,
    pub root_directory: String,
}

impl<F: FileSystem> OffsetStore<F> {
    pub fn new(file_system: F, root_directory: String) -> (s: Self)
        ensures
            s.file_system == file_system,
            s.root_directory@ == root_directory@,
    {
        OffsetStore { file_system, root_directory }
    }

    fn group_directory(&self, group_id: &ConsumerGroupId) -> (p: String)
        ensures
            p@ == join(self.root_directory@, group_id@),
    {
        join_path(self.root_directory.as_str(), group_id.as_str())
    }

    /// The offsets the group's file holds; none when it has no file.
    pub fn load(&self, group_id: &ConsumerGroupId) -> (r: Result<Vec<CommittedOffset>, BrokerError>)
        requires
            self.file_system.inv(),
        ensures
            r matches Ok(t) ==> distinct_partitions(t@),
            !self.file_system.files().contains_key(offsets_path(self.root_directory@, group_id@))
                && !self.file_system.directories().contains(offsets_path(self.root_directory@, group_id@))
                ==> (r matches Ok(t) && t@.len() == 0),
            r matches Ok(t) ==> match stored_offsets(self.file_system.files(), self.root_directory@, group_id@) {
                None => t@.len() == 0,
                Some(s) => s == Ok::<Map<PartitionKey, u64>, Seq<char>>(table_map(t@)),
            },
    {
        let dir = self.group_directory(group_id);
        let path = join_path(dir.as_str(), "offsets.toml");
        let mut table: Vec<CommittedOffset> = Vec::new();
        if !self.file_system.path_exists(path.as_str()) {
            return Ok(table);
        }
        let bytes = match self.file_system.read_file(path.as_str()) {
            Ok(b) => b,
            Err(e) => return Err(BrokerError { message: e.message }),
        };
        let content = match text_from_utf8(bytes) {
            Ok(s) => s,
            Err(e) => return Err(BrokerError { message: concat("Offset file is not UTF-8: ", e.as_str()) }),
        };
        let cs = chars_of(content.as_str());
        let ls = split_lines(cs.as_slice());
        let ghost all = Seq::new(ls@.len(), |i: int| ls@[i]@);
        proof {
            assert(all =~= lines(content@));
            assert(all.subrange(0, all.len() as int) =~= all);
        }
        let ghost mut prefix: Seq<(PartitionKey, u64)> = Seq::empty();
        let mut i: usize = 0;
        while i < ls.len()
            invariant
                i <= ls@.len(),
                self.file_system.files().contains_key(offsets_path(self.root_directory@, group_id@))
                    || self.file_system.directories().contains(offsets_path(self.root_directory@, group_id@)),
                all == Seq::new(ls@.len(), |i: int| ls@[i]@),
                distinct_partitions(table@),
                table_map(table@) == offsets_map(prefix),
                decode_offset_lines(all) == match decode_offset_lines(all.subrange(i as int, all.len() as int)) {
                    Err(m) => Err(m),
                    Ok(es) => Ok::<Seq<(PartitionKey, u64)>, Seq<char>>(prefix + es),
                },
            decreases ls@.len() - i,
        {
            let ghost rest = all.subrange(i as int, all.len() as int);
            proof {
                assert(rest[0] == ls@[i as int]@);
                assert(rest.drop_first() =~= all.subrange(i + 1, all.len() as int));
            }
            match split_key_value(ls[i].as_slice()) {
                None => {},
                Some((k, v)) => {
                    let entry = match parse_entry(&k, &v) {
                        Ok(e) => e,
                        Err(m) => return Err(m),
                    };
                    let ghost ev = entry@;
                    upsert(&mut table, entry.partition, entry.offset);
                    proof {
                        let old_prefix = prefix;
                        prefix = prefix.push(ev);
                        assert(prefix.drop_last() =~= old_prefix);
                        if let Ok(es) = decode_offset_lines(rest.drop_first()) {
                            assert(old_prefix + (seq![ev] + es) =~= prefix + es);
                        }
                    }
                },
            }
            i = i + 1;
        }
        proof {
            assert(all.subrange(all.len() as int, all.len() as int) =~= Seq::<Seq<char>>::empty());
            assert(prefix + Seq::<(PartitionKey, u64)>::empty() =~= prefix);
        }
        Ok(table)
    }

    /// The line that stores one entry.
    fn entry_line(e: &CommittedOffset) -> (l: Line)
        ensures
            l.chars@ == offset_line(e@),
    {
        let topic = chars_of(e.partition.topic.as_str());
        let p = decimal_chars(e.partition.partition_id.value as u64);
        let o = decimal_chars(e.offset.value);
        let ps = string_from_chars(p.as_slice());
        let os = string_from_chars(o.as_slice());
        let ts = string_from_chars(topic.as_slice());
        let a = concat3(ts.as_str(), ".", ps.as_str());
        let b = concat3(a.as_str(), " = ", os.as_str());
        let c = concat(b.as_str(), "\n");
        Line { chars: chars_of(c.as_str()) }
    }

    /// Writes the group's offsets file: one line per entry, in text order.
    pub fn save(&mut self, group_id: &ConsumerGroupId, offsets: &Vec<CommittedOffset>) -> (r: Result<(), BrokerError>)
        requires
            old(self).file_system.inv(),
        ensures
            final(self).file_system.inv(),
            final(self).root_directory == old(self).root_directory,
            r is Ok ==> exists|text: Seq<char>|
                #![trigger encode_utf8(text)]
                offsets_text(table_view(offsets@), text) && final(self).file_system.files()
                    == old(self).file_system.files().insert(
                    offsets_path(old(self).root_directory@, group_id@),
                    encode_utf8(text),
                ),
    {
        let dir = self.group_directory(group_id);
        match self.file_system.create_directory(dir.as_str()) {
            Ok(()) => {},
            Err(e) => return Err(BrokerError { message: e.message }),
        }
        let mut lines_out: Vec<Line> = Vec::new();
        let mut i: usize = 0;
        while i < offsets.len()
            invariant
                i <= offsets@.len(),
                lines_out@.len() == i,
                forall|k: int| 0 <= k < i ==> #[trigger] lines_out@[k].chars@ == offset_line(offsets@[k]@),
            decreases offsets@.len() - i,
        {
            lines_out.push(Self::entry_line(&offsets[i]));
            i = i + 1;
        }
        let ghost unsorted = lines_out@;
        let sorted = sort_by_text_key(lines_out);
        let mut text: Vec<char> = Vec::new();
        let mut j: usize = 0;
        let ghost texts = sorted@.map_values(|l: Line| l.chars@);
        proof {
            assert(texts.subrange(0, texts.len() as int) =~= texts);
            assert(text@ + concat_all(texts) =~= concat_all(texts));
        }
        while j < sorted.len()
            invariant
                j <= sorted@.len(),
                texts == sorted@.map_values(|l: Line| l.chars@),
                concat_all(texts) == text@ + concat_all(texts.subrange(j as int, texts.len() as int)),
            decreases sorted@.len() - j,
        {
            let ghost before = text@;
            let piece = &sorted[j].chars;
            let mut k: usize = 0;
            while k < piece.len()
                invariant
                    k <= piece@.len(),
                    text@ == before + piece@.subrange(0, k as int),
                decreases piece@.len() - k,
            {
                text.push(piece[k]);
                k = k + 1;
                assert(text@ =~= before + piece@.subrange(0, k as int));
            }
            proof {
                assert(piece@.subrange(0, piece@.len() as int) =~= piece@);
                let rest = texts.subrange(j as int, texts.len() as int);
                assert(rest[0] == piece@);
                assert(rest.drop_first() =~= texts.subrange(j + 1, texts.len() as int));
                assert(before + (piece@ + concat_all(rest.drop_first())) =~= text@ + concat_all(rest.drop_first()));
            }
            j = j + 1;
        }
        let content = string_from_chars(text.as_slice());
        let bytes = utf8_bytes(content.as_str());
        let path = join_path(dir.as_str(), "offsets.toml");
        proof {
            assert(texts.subrange(texts.len() as int, texts.len() as int) =~= Seq::<Seq<char>>::empty());
            assert(text@ + Seq::<char>::empty() =~= text@);
            assert(unsorted.map_values(|l: Line| l.chars@) =~= table_view(offsets@).map_values(
                |e: (PartitionKey, u64)| offset_line(e),
            ));
            lemma_text_keys_multiset(unsorted, sorted@);
            assert(text_keys(unsorted) =~= unsorted.map_values(|l: Line| l.chars@));
            assert(text_keys(sorted@) =~= texts);
            assert(text@ == concat_all(texts));
            assert forall|a: int, b: int| 0 <= a < b < texts.len() implies text_le(#[trigger] texts[a], #[trigger] texts[b]) by {
                assert(texts[a] == sorted@[a].text_key());
                assert(texts[b] == sorted@[b].text_key());
            }
            assert(offsets_text(table_view(offsets@), text@));
        }
        match self.file_system.write_file(path.as_str(), bytes.as_slice()) {
            Ok(()) => Ok(()),
            Err(e) => Err(BrokerError { message: e.message }),
        }
    }
}

/// The line of an entry without its line break.
pub open spec fn entry_body(e: (PartitionKey, u64)) -> Seq<char> {
    e.0.0 + "."@ + decimal(e.0.1 as nat) + " = "@ + decimal(e.1 as nat)
}

/// The line of an entry with a valid topic name reads back as that entry.
proof fn lemma_entry_line(e: (PartitionKey, u64))
    requires
        valid_name(e.0.0),
    ensures
        offset_line(e) == entry_body(e) + seq!['\n'],
        forall|i: int| 0 <= i < entry_body(e).len() ==> #[trigger] entry_body(e)[i] != '\n',
        entry_body(e).last() != '\r',
        key_value(entry_body(e)) matches Some((k, v)) && parse_offset_entry(k, v) == Ok::<
            (PartitionKey, u64),
            Seq<char>,
        >(e),
{
    reveal_strlit(".");
    reveal_strlit(" = ");
    reveal_strlit("\n");
    let name = e.0.0;
    let pd = decimal(e.0.1 as nat);
    let od = decimal(e.1 as nat);
    crate::text::lemma_decimal_shape(e.0.1 as nat);
    crate::text::lemma_decimal_shape(e.1 as nat);
    let k = name + "."@ + pd;
    let body = entry_body(e);
    assert(body =~= k + " = "@ + od);
    assert(offset_line(e) =~= body + seq!['\n']);
    assert forall|i: int| 0 <= i < k.len() implies #[trigger] k[i] != '#' && k[i] != '=' && !crate::text::is_white(k[i]) by {
        if i < name.len() {
            assert(k[i] == name[i]);
            assert(crate::text::name_char(name[i]));
        } else if i > name.len() {
            assert(k[i] == pd[i - name.len() - 1]);
        }
    }
    assert(crate::kv_text::plain(k));
    assert(crate::topic_store::clean_value(od));
    crate::topic_store::lemma_key_value_line(k, od);
    assert forall|i: int| 0 <= i < body.len() implies #[trigger] body[i] != '\n' by {
        if i < name.len() {
            assert(body[i] == name[i]);
            assert(crate::text::name_char(name[i]));
        } else if i > name.len() && i < k.len() {
            assert(body[i] == pd[i - name.len() - 1]);
        } else if i >= k.len() + 3 {
            assert(body[i] == od[i - k.len() - 3]);
        }
    }
    assert(body.last() == od.last());
    assert forall|j: int| name.len() < j < k.len() implies k[j] != '.' by {
        assert(k[j] == pd[j - name.len() - 1]);
    }
    lemma_last_index(k, '.', name.len() as int);
    assert(k.subrange(0, name.len() as int) =~= name);
    assert(k.subrange(name.len() + 1int, k.len() as int) =~= pd);
    crate::text::lemma_parse_decimal_padded(e.0.1 as nat, 0, u32::MAX as nat);
    crate::text::lemma_parse_decimal_padded(e.1 as nat, 0, u64::MAX as nat);
    assert(crate::text::decimal_padded(e.0.1 as nat, 0) == pd);
    assert(crate::text::decimal_padded(e.1 as nat, 0) == od);
}

/// The lines of entries, in order.
pub open spec fn offset_lines(es: Seq<(PartitionKey, u64)>) -> Seq<Seq<char>> {
    es.map_values(|e: (PartitionKey, u64)| offset_line(e))
}

/// The lines of entries with valid topic names, one after the other, read
/// back as those entries.
proof fn lemma_decode_entries(es: Seq<(PartitionKey, u64)>)
    requires
        forall|i: int| 0 <= i < es.len() ==> valid_name(#[trigger] es[i].0.0),
    ensures
        decode_offset_lines(lines(concat_all(offset_lines(es)))) == Ok::<Seq<(PartitionKey, u64)>, Seq<char>>(es),
    decreases es.len(),
{
    let ls = offset_lines(es);
    if es.len() == 0 {
        assert(ls =~= Seq::<Seq<char>>::empty());
        assert(concat_all(ls) =~= Seq::<char>::empty());
        assert(lines(Seq::<char>::empty()) =~= Seq::<Seq<char>>::empty());
        assert(es =~= Seq::<(PartitionKey, u64)>::empty());
    } else {
        let rest = es.drop_first();
        assert forall|i: int| 0 <= i < rest.len() implies valid_name(#[trigger] rest[i].0.0) by {
            assert(rest[i] == es[i + 1]);
        }
        lemma_decode_entries(rest);
        assert(ls.drop_first() =~= offset_lines(rest));
        let e = es[0];
        lemma_entry_line(e);
        let tail = concat_all(offset_lines(rest));
        assert(concat_all(ls) == ls[0] + concat_all(ls.drop_first()));
        assert(concat_all(ls) =~= entry_body(e) + seq!['\n'] + tail);
        crate::topic_store::lemma_lines_cons(entry_body(e), tail);
        let all = lines(concat_all(ls));
        assert(all[0] == entry_body(e));
        assert(all.drop_first() =~= lines(tail));
        assert(decode_offset_lines(all.drop_first()) == Ok::<Seq<(PartitionKey, u64)>, Seq<char>>(rest));
        assert(key_value(all[0]) is Some);
        let kv = key_value(all[0])->0;
        assert(parse_offset_entry(kv.0, kv.1) == Ok::<(PartitionKey, u64), Seq<char>>(e));
        assert(decode_offset_lines(all) == Ok::<Seq<(PartitionKey, u64)>, Seq<char>>(seq![e] + rest));
        assert(seq![e] + rest =~= es);
    }
}

/// What a table of entries describes: each key is there when an entry has
/// it, with the value of some entry that has it.
proof fn lemma_offsets_map_cover(s: Seq<(PartitionKey, u64)>)
    ensures
        forall|k: PartitionKey| #[trigger] offsets_map(s).contains_key(k) ==> exists|i: int|
            0 <= i < s.len() && s[i].0 == k && offsets_map(s)[k] == s[i].1,
        forall|i: int| 0 <= i < s.len() ==> offsets_map(s).contains_key(#[trigger] s[i].0),
    decreases s.len(),
{
    if s.len() > 0 {
        let d = s.drop_last();
        lemma_offsets_map_cover(d);
        assert forall|k: PartitionKey| #[trigger] offsets_map(s).contains_key(k) implies exists|i: int|
            0 <= i < s.len() && s[i].0 == k && offsets_map(s)[k] == s[i].1 by {
            if k == s.last().0 {
                assert(s[s.len() - 1].0 == k);
            } else {
                let i = choose|i: int| 0 <= i < d.len() && d[i].0 == k && offsets_map(d)[k] == d[i].1;
                assert(s[i] == d[i]);
            }
        }
        assert forall|i: int| 0 <= i < s.len() implies offsets_map(s).contains_key(#[trigger] s[i].0) by {
            if i < s.len() - 1 {
                assert(s[i] == d[i]);
            }
        }
    }
}

/// A saved table of committed offsets, with valid topic names and each
/// partition once, reads back as the same map.
pub proof fn law_offsets_text_roundtrip(table: Seq<(PartitionKey, u64)>, text: Seq<char>)
    requires
        forall|i: int, j: int| 0 <= i < j < table.len() ==> #[trigger] table[i].0 != #[trigger] table[j].0,
        forall|i: int| 0 <= i < table.len() ==> valid_name(#[trigger] table[i].0.0),
        offsets_text(table, text),
    ensures
        decode_offsets_text(text) == Ok::<Map<PartitionKey, u64>, Seq<char>>(offsets_map(table)),
{
    broadcast use vstd::seq_lib::group_to_multiset_ensures;

    let f = |e: (PartitionKey, u64)| offset_line(e);
    let ls = choose|ls: Seq<Seq<char>>|
        #![trigger concat_all(ls)]
        ls.to_multiset() =~= table.map_values(f).to_multiset() && (forall|i: int, j: int|
            0 <= i < j < ls.len() ==> text_le(#[trigger] ls[i], #[trigger] ls[j])) && text == concat_all(ls);
    let m = table.map_values(f);
    assert forall|i: int| #![trigger ls[i]] 0 <= i < ls.len() implies exists|j: int| 0 <= j < table.len() && #[trigger] offset_line(table[j]) == ls[i] by {
        assert(ls.to_multiset().count(ls[i]) > 0);
        assert(m.contains(ls[i]));
        let j = choose|j: int| 0 <= j < m.len() && m[j] == ls[i];
        assert(m[j] == offset_line(table[j]));
    }
    let es = Seq::new(ls.len(), |i: int| table[choose|j: int| 0 <= j < table.len() && #[trigger] offset_line(table[j]) == ls[i]]);
    assert forall|i: int| 0 <= i < es.len() implies table.contains(#[trigger] es[i]) && offset_line(es[i]) == ls[i] by {
        let j = choose|j: int| 0 <= j < table.len() && #[trigger] offset_line(table[j]) == ls[i];
        assert(es[i] == table[j]);
    }
    assert(offset_lines(es) =~= ls);
    assert forall|i: int| 0 <= i < es.len() implies valid_name(#[trigger] es[i].0.0) by {
        assert(table.contains(es[i]));
    }
    lemma_decode_entries(es);
    assert(decode_offset_lines(lines(text)) == Ok::<Seq<(PartitionKey, u64)>, Seq<char>>(es));
    // Every entry of the table is among the entries read.
    assert forall|j: int| 0 <= j < table.len() implies es.contains(#[trigger] table[j]) by {
        assert(m[j] == offset_line(table[j]));
        assert(m.to_multiset().count(m[j]) > 0);
        assert(ls.contains(m[j]));
        let i = choose|i: int| 0 <= i < ls.len() && ls[i] == m[j];
        lemma_entry_line(es[i]);
        lemma_entry_line(table[j]);
        assert(table.contains(es[i]));
        assert(offset_line(es[i]) == offset_line(table[j]));
        assert(entry_body(es[i]) == entry_body(table[j])) by {
            assert(entry_body(es[i]) =~= offset_line(es[i]).drop_last());
            assert(entry_body(table[j]) =~= offset_line(table[j]).drop_last());
        }
    }
    lemma_offsets_map_cover(es);
    lemma_offsets_map_cover(table);
    lemma_offsets_map_distinct(table);
    let a = offsets_map(es);
    let b = offsets_map(table);
    assert forall|k: PartitionKey| #[trigger] a.contains_key(k) == b.contains_key(k) by {
        if a.contains_key(k) {
            let i = choose|i: int| 0 <= i < es.len() && es[i].0 == k && a[k] == es[i].1;
            assert(table.contains(es[i]));
            let j = choose|j: int| 0 <= j < table.len() && table[j] == es[i];
            assert(b.contains_key(table[j].0));
        }
        if b.contains_key(k) {
            let j = choose|j: int| 0 <= j < table.len() && table[j].0 == k && b[k] == table[j].1;
            assert(es.contains(table[j]));
            let i = choose|i: int| 0 <= i < es.len() && es[i] == table[j];
            assert(a.contains_key(es[i].0));
        }
    }
    assert forall|k: PartitionKey| a.contains_key(k) implies #[trigger] a[k] == b[k] by {
        let i = choose|i: int| 0 <= i < es.len() && es[i].0 == k && a[k] == es[i].1;
        assert(table.contains(es[i]));
        let j = choose|j: int| 0 <= j < table.len() && table[j] == es[i];
        assert(b[table[j].0] == table[j].1);
    }
    assert(a =~= b);
}

/// Once a group's offsets are saved, its offsets file reads back as the
/// same map.
pub proof fn law_offsets_save_then_load(
    files: Map<Seq<char>, Seq<u8>>,
    root: Seq<char>,
    group: Seq<char>,
    table: Seq<(PartitionKey, u64)>,
    text: Seq<char>,
)
    requires
        forall|i: int, j: int| 0 <= i < j < table.len() ==> #[trigger] table[i].0 != #[trigger] table[j].0,
        forall|i: int| 0 <= i < table.len() ==> valid_name(#[trigger] table[i].0.0),
        offsets_text(table, text),
    ensures
        stored_offsets(files.insert(offsets_path(root, group), encode_utf8(text)), root, group) == Some(
            Ok::<Map<PartitionKey, u64>, Seq<char>>(offsets_map(table)),
        ),
{
    vstd::utf8::encode_utf8_valid_utf8(text);
    vstd::utf8::encode_utf8_decode_utf8(text);
    law_offsets_text_roundtrip(table, text);
}

} // verus!
