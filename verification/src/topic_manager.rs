//! The topics a broker knows: created, deleted, listed and recovered from
//! their metadata files.
use vstd::prelude::*;
use vstd::utf8::encode_utf8;

use crate::filesystem::FileSystem;
use crate::model::{BrokerError, PartitionConfiguration, Topic, TopicConfiguration, TopicName, TopicView};
use crate::order::{lemma_map_values_multiset, sort_by_text_key, text_le, TextKeyed};
use crate::text::{chars_of, concat3};
use crate::topic_store::{
    all_collected, holds_topic, metadata_path, topic_directory_path, topic_text, TopicMetadataStore,
};

verus! {

/// The views of topics, in order.
pub open spec fn topic_views(s: Seq<Topic>) -> Seq<TopicView> {
    s.map_values(|t: Topic| t@)
}

/// No name occurs twice.
pub open spec fn distinct_names(s: Seq<TopicView>) -> bool {
    forall|i: int, j: int| 0 <= i < j < s.len() ==> #[trigger] s[i].0 != #[trigger] s[j].0
}

/// Whether some topic of `s` is named `n`.
pub open spec fn named(s: Seq<TopicView>, n: Seq<char>) -> bool {
    exists|i: int| 0 <= i < s.len() && #[trigger] s[i].0 == n
}

/// The topics of `s` by name.
pub open spec fn topic_map(s: Seq<TopicView>) -> Map<Seq<char>, TopicView> {
    Map::new(
        |n: Seq<char>| named(s, n),
        |n: Seq<char>| s[choose|i: int| 0 <= i < s.len() && #[trigger] s[i].0 == n],
    )
}

/// The topics of `ts` by name, a later topic replacing an earlier one of
/// the same name.
pub open spec fn collect_topics(ts: Seq<TopicView>) -> Map<Seq<char>, TopicView>
    decreases ts.len(),
{
    if ts.len() == 0 {
        Map::empty()
    } else {
        collect_topics(ts.drop_last()).insert(ts.last().0, ts.last())
    }
}

/// The message for a topic that is already there.
pub open spec fn exists_message(name: Seq<char>) -> Seq<char> {
    "Topic '"@ + name + "' already exists"@
}

/// The message for a topic that is not there.
pub open spec fn missing_topic_message(name: Seq<char>) -> Seq<char> {
    "Topic '"@ + name + "' does not exist"@
}

proof fn lemma_topic_map_at(s: Seq<TopicView>, i: int)
    requires
        distinct_names(s),
        0 <= i < s.len(),
    ensures
        topic_map(s).contains_key(s[i].0),
        topic_map(s)[s[i].0] == s[i],
{
    let n = s[i].0;
    assert(named(s, n));
    let j = choose|j: int| 0 <= j < s.len() && #[trigger] s[j].0 == n;
    if j < i {
        assert(s[j].0 != s[i].0);
    } else if j > i {
        assert(s[i].0 != s[j].0);
    }
}

/// A topic of a given name, ordered by that name.
impl TextKeyed for Topic {
    open spec fn text_key(&self) -> Seq<char> {
        self.name@
    }

    fn key_chars(&self) -> (k: Vec<char>) {
        chars_of(self.name.as_str())
    }
}

/// The position of the topic named `name`, if there is one.
fn position_of_topic(ts: &Vec<Topic>, name: &TopicName) -> (r: Option<usize>)
    ensures
        r matches Some(k) ==> k < ts@.len() && ts@[k as int].name@ == name@,
        r is None ==> forall|j: int| 0 <= j < ts@.len() ==> #[trigger] ts@[j].name@ != name@,
{
    let mut k: usize = 0;
    while k < ts.len()
        invariant
            k <= ts@.len(),
            forall|j: int| 0 <= j < k ==> #[trigger] ts@[j].name@ != name@,
        decreases ts@.len() - k,
    {
        if ts[k].name.same_as(name) {
            return Some(k);
        }
        k = k + 1;
    }
    None
}

/// Puts `t` among `ts`: in place of the topic of its name, or at the end.
fn put_topic(ts: &mut Vec<Topic>, t: Topic)
    requires
        distinct_names(topic_views(old(ts)@)),
    ensures
        distinct_names(topic_views(final(ts)@)),
        topic_map(topic_views(final(ts)@)) == topic_map(topic_views(old(ts)@)).insert(t@.0, t@),
{
    let ghost before = topic_views(ts@);
    let ghost tv = t@;
    match position_of_topic(ts, &t.name) {
        Some(k) => {
            ts.set(k, t);
            proof {
                let after = topic_views(ts@);
                assert(after =~= before.update(k as int, tv));
                assert forall|a: int, b: int| 0 <= a < b < after.len() implies #[trigger] after[a].0
                    != #[trigger] after[b].0 by {
                    if a != k && b != k {
                        assert(after[a] == before[a] && after[b] == before[b]);
                    } else if a == k {
                        assert(after[b] == before[b]);
                        assert(before[a].0 != before[b].0);
                    } else {
                        assert(after[a] == before[a]);
                        assert(before[a].0 != before[b].0);
                    }
                }
                lemma_replaced(before, after, k as int, tv);
            }
        },
        None => {
            ts.push(t);
            proof {
                let after = topic_views(ts@);
                assert(after =~= before.push(tv));
                assert forall|a: int, b: int| 0 <= a < b < after.len() implies #[trigger] after[a].0
                    != #[trigger] after[b].0 by {
                    if b < before.len() {
                        assert(after[a] == before[a] && after[b] == before[b]);
                    } else {
                        assert(after[a] == before[a]);
                    }
                }
                lemma_appended(before, tv);
            }
        },
    }
}

proof fn lemma_replaced(before: Seq<TopicView>, after: Seq<TopicView>, k: int, t: TopicView)
    requires
        distinct_names(before),
        distinct_names(after),
        0 <= k < before.len(),
        before[k].0 == t.0,
        after == before.update(k, t),
    ensures
        topic_map(after) == topic_map(before).insert(t.0, t),
{
    let m = topic_map(before).insert(t.0, t);
    assert forall|n: Seq<char>| #[trigger] topic_map(after).contains_key(n) == m.contains_key(n) by {
        if named(before, n) {
            let j = choose|j: int| 0 <= j < before.len() && #[trigger] before[j].0 == n;
            assert(after[j].0 == n);
        }
        if named(after, n) {
            let j = choose|j: int| 0 <= j < after.len() && #[trigger] after[j].0 == n;
            assert(before[j].0 == n);
        }
    }
    assert forall|n: Seq<char>| topic_map(after).contains_key(n) implies #[trigger] topic_map(after)[n] == m[n] by {
        let j = choose|j: int| 0 <= j < after.len() && #[trigger] after[j].0 == n;
        lemma_topic_map_at(after, j);
        if j != k {
            lemma_topic_map_at(before, j);
            assert(after[j] == before[j]);
        }
    }
    assert(topic_map(after) =~= m);
}

proof fn lemma_appended(before: Seq<TopicView>, t: TopicView)
    requires
        distinct_names(before),
        distinct_names(before.push(t)),
    ensures
        topic_map(before.push(t)) == topic_map(before).insert(t.0, t),
{
    let after = before.push(t);
    let m = topic_map(before).insert(t.0, t);
    assert forall|n: Seq<char>| #[trigger] topic_map(after).contains_key(n) == m.contains_key(n) by {
        if named(before, n) {
            let j = choose|j: int| 0 <= j < before.len() && #[trigger] before[j].0 == n;
            assert(after[j].0 == n);
        }
        if named(after, n) {
            let j = choose|j: int| 0 <= j < after.len() && #[trigger] after[j].0 == n;
            if j < before.len() {
                assert(before[j].0 == n);
            }
        }
        if n == t.0 {
            assert(after[before.len() as int].0 == n);
        }
    }
    assert forall|n: Seq<char>| topic_map(after).contains_key(n) implies #[trigger] topic_map(after)[n] == m[n] by {
        let j = choose|j: int| 0 <= j < after.len() && #[trigger] after[j].0 == n;
        lemma_topic_map_at(after, j);
        if j < before.len() {
            lemma_topic_map_at(before, j);
            assert(after[j] == before[j]);
            assert(before[j].0 != t.0) by {
                assert(after[j].0 != after[before.len() as int].0);
            }
        }
    }
    assert(topic_map(after) =~= m);
}

proof fn lemma_removed(before: Seq<TopicView>, k: int)
    requires
        distinct_names(before),
        0 <= k < before.len(),
    ensures
        distinct_names(before.remove(k)),
        topic_map(before.remove(k)) == topic_map(before).remove(before[k].0),
{
    let after = before.remove(k);
    let n0 = before[k].0;
    assert forall|a: int, b: int| 0 <= a < b < after.len() implies #[trigger] after[a].0 != #[trigger] after[b].0 by {
        if b < k {
            assert(after[a] == before[a] && after[b] == before[b]);
        } else if a < k {
            assert(after[a] == before[a] && after[b] == before[b + 1]);
        } else {
            assert(after[a] == before[a + 1] && after[b] == before[b + 1]);
        }
    }
    let m = topic_map(before).remove(n0);
    assert forall|n: Seq<char>| #[trigger] topic_map(after).contains_key(n) == m.contains_key(n) by {
        if named(before, n) && n != n0 {
            let j = choose|j: int| 0 <= j < before.len() && #[trigger] before[j].0 == n;
            if j < k {
                assert(after[j].0 == n);
            } else {
                assert(j != k);
                assert(after[j - 1].0 == n);
            }
        }
        if named(after, n) {
            let j = choose|j: int| 0 <= j < after.len() && #[trigger] after[j].0 == n;
            if j < k {
                assert(before[j].0 == n);
                assert(before[j].0 != before[k].0);
            } else {
                assert(before[j + 1].0 == n);
                assert(before[k].0 != before[j + 1].0);
            }
        }
    }
    assert forall|n: Seq<char>| topic_map(after).contains_key(n) implies #[trigger] topic_map(after)[n] == m[n] by {
        let j = choose|j: int| 0 <= j < after.len() && #[trigger] after[j].0 == n;
        lemma_topic_map_at(after, j);
        if j < k {
            lemma_topic_map_at(before, j);
        } else {
            lemma_topic_map_at(before, j + 1);
        }
    }
    assert(topic_map(after) =~= m);
}

/// The topics a broker knows, kept in memory and in their metadata files.
pub struct TopicManager<F: FileSystem> {
    pub metadata_store: TopicMetadataStore<F>,
    pub topics: Vec<Topic>,
}

impl<F: FileSystem> TopicManager<F> {
    pub open spec fn wf(&self) -> bool {
        &&& self.metadata_store.file_system.inv()
        &&& distinct_names(topic_views(self.topics@))
    }

    /// The known topics by name.
    pub open spec fn known(&self) -> Map<Seq<char>, TopicView> {
        topic_map(topic_views(self.topics@))
    }

    /// Whether topic `n` has a metadata file.
    pub open spec fn has_metadata(&self, n: Seq<char>) -> bool {
        let p = metadata_path(self.metadata_store.root_directory@, n);
        self.metadata_store.file_system.files().contains_key(p)
            || self.metadata_store.file_system.directories().contains(p)
    }

    /// Whether the filesystem has a file or directory at `p`.
    pub open spec fn has_entry(&self, p: Seq<char>) -> bool {
        self.metadata_store.file_system.files().contains_key(p)
            || self.metadata_store.file_system.directories().contains(p)
    }

    pub fn new(metadata_store: TopicMetadataStore<F>) -> (m: Self)
        requires
            metadata_store.file_system.inv(),
        ensures
            m.wf(),
            m.metadata_store == metadata_store,
            m.known() == Map::<Seq<char>, TopicView>::empty(),
    {
        let m = TopicManager { metadata_store, topics: Vec::new() };
        proof {
            assert(m.known() =~= Map::<Seq<char>, TopicView>::empty());
        }
        m
    }

    /// Creates a topic, its directory and its metadata file. A name that is
    /// known or has a metadata file is refused, and so is a topic without
    /// partitions.
    pub fn create_topic(
        &mut self,
        name: TopicName,
        partition_count: u32,
        partition_configuration: PartitionConfiguration,
    ) -> (r: Result<Topic, BrokerError>)
        requires
            old(self).wf(),
        ensures
            final(self).wf(),
            final(self).metadata_store.root_directory == old(self).metadata_store.root_directory,
            old(self).known().contains_key(name@) || old(self).has_metadata(name@) ==> (r matches Err(e)
                && e.message@ == exists_message(name@) && *final(self) == *old(self)),
            !(old(self).known().contains_key(name@) || old(self).has_metadata(name@))
                && partition_count == 0 ==> (r matches Err(e)
                && e.message@ == "partition_count must be greater than zero"@ && *final(self) == *old(self)),
            r is Err ==> final(self).known() == old(self).known(),
            r matches Ok(t) ==> {
                &&& t@ == (name@, partition_count, partition_configuration.segment_max_bytes)
                &&& !(old(self).known().contains_key(name@) || old(self).has_metadata(name@))
                &&& partition_count > 0
                &&& final(self).known() == old(self).known().insert(name@, t@)
                &&& final(self).metadata_store.file_system.files()
                    == old(self).metadata_store.file_system.files().insert(
                    metadata_path(old(self).metadata_store.root_directory@, name@),
                    encode_utf8(topic_text(t@)),
                )
                &&& final(self).metadata_store.file_system.directories().contains(
                    topic_directory_path(old(self).metadata_store.root_directory@, name@),
                )
            },
    {
        if self.contains_topic(&name) || self.metadata_store.metadata_exists(&name) {
            return Err(BrokerError { message: concat3("Topic '", name.as_str(), "' already exists") });
        }
        let configuration = match TopicConfiguration::new(partition_count, partition_configuration) {
            Ok(c) => c,
            Err(e) => return Err(BrokerError { message: e.message }),
        };
        let topic = Topic::new(name, configuration);
        match self.metadata_store.save(&topic) {
            Ok(()) => {},
            Err(e) => return Err(e),
        }
        let kept = topic.duplicate();
        put_topic(&mut self.topics, kept);
        Ok(topic)
    }

    /// Deletes a known topic, or one that has a metadata file, with its
    /// directory.
    pub fn delete_topic(&mut self, name: &TopicName) -> (r: Result<(), BrokerError>)
        requires
            old(self).wf(),
        ensures
            final(self).wf(),
            final(self).metadata_store.root_directory == old(self).metadata_store.root_directory,
            !(old(self).known().contains_key(name@) || old(self).has_metadata(name@)) ==> (r matches Err(e)
                && e.message@ == missing_topic_message(name@) && *final(self) == *old(self)),
            r is Err ==> final(self).known() == old(self).known(),
            r is Ok ==> {
                &&& old(self).known().contains_key(name@) || old(self).has_metadata(name@)
                &&& final(self).known() == old(self).known().remove(name@)
                &&& old(self).has_entry(topic_directory_path(old(self).metadata_store.root_directory@, name@))
                    ==> !final(self).metadata_store.file_system.files().contains_key(
                    metadata_path(old(self).metadata_store.root_directory@, name@),
                )
            },
    {
        let known = self.contains_topic(name);
        if !known && !self.metadata_store.metadata_exists(name) {
            return Err(BrokerError { message: concat3("Topic '", name.as_str(), "' does not exist") });
        }
        let ghost files_before = self.metadata_store.file_system.files();
        let ghost dirs_before = self.metadata_store.file_system.directories();
        match self.metadata_store.delete(name) {
            Ok(()) => {},
            Err(e) => return Err(e),
        }
        let ghost before = topic_views(self.topics@);
        match position_of_topic(&self.topics, name) {
            Some(k) => {
                self.topics.remove(k);
                proof {
                    assert(topic_views(self.topics@) =~= before.remove(k as int));
                    lemma_removed(before, k as int);
                }
            },
            None => {
                proof {
                    assert(!named(before, name@));
                    assert(old(self).known().remove(name@) =~= old(self).known());
                }
            },
        }
        Ok(())
    }

    /// The known topic named `name`.
    pub fn get_topic(&self, name: &TopicName) -> (r: Option<&Topic>)
        requires
            self.wf(),
        ensures
            r matches Some(t) ==> self.known().contains_key(name@) && self.known()[name@] == t@,
            r is None ==> !self.known().contains_key(name@),
    {
        match position_of_topic(&self.topics, name) {
            Some(k) => {
                proof {
                    lemma_topic_map_at(topic_views(self.topics@), k as int);
                }
                Some(&self.topics[k])
            },
            None => {
                proof {
                    if named(topic_views(self.topics@), name@) {
                        let j = choose|j: int|
                            0 <= j < topic_views(self.topics@).len() && #[trigger] topic_views(self.topics@)[j].0
                                == name@;
                        assert(self.topics@[j].name@ == name@);
                    }
                }
                None
            },
        }
    }

    /// The known topics, in the text order of their names.
    pub fn list_topics(&self) -> (r: Vec<Topic>)
        requires
            self.wf(),
        ensures
            topic_views(r@).to_multiset() == topic_views(self.topics@).to_multiset(),
            forall|i: int, j: int|
                0 <= i < j < r@.len() ==> text_le(#[trigger] r@[i].name@, #[trigger] r@[j].name@),
    {
        let mut copies: Vec<Topic> = Vec::new();
        let mut k: usize = 0;
        while k < self.topics.len()
            invariant
                k <= self.topics@.len(),
                copies@.len() == k,
                forall|j: int| 0 <= j < k ==> #[trigger] copies@[j]@ == self.topics@[j]@,
            decreases self.topics@.len() - k,
        {
            copies.push(self.topics[k].duplicate());
            k = k + 1;
        }
        proof {
            assert(topic_views(copies@) =~= topic_views(self.topics@));
        }
        let ghost unsorted = copies@;
        let sorted = sort_by_text_key(copies);
        proof {
            lemma_map_values_multiset(unsorted, sorted@, |t: Topic| t@);
            assert(topic_views(sorted@) =~= sorted@.map_values(|t: Topic| t@));
            assert(topic_views(unsorted) =~= unsorted.map_values(|t: Topic| t@));
            assert forall|i: int, j: int| 0 <= i < j < sorted@.len() implies text_le(
                #[trigger] sorted@[i].name@,
                #[trigger] sorted@[j].name@,
            ) by {
                assert(text_le(sorted@[i].text_key(), sorted@[j].text_key()));
            }
        }
        sorted
    }

    /// Replaces the known topics by those stored under the root directory;
    /// of two with the same name, the one listed later is kept.
    pub fn recover(&mut self) -> (r: Result<(), BrokerError>)
        requires
            old(self).wf(),
        ensures
            final(self).wf(),
            final(self).metadata_store == old(self).metadata_store,
            !(old(self).metadata_store.file_system.files().contains_key(old(self).metadata_store.root_directory@)
                || old(self).metadata_store.file_system.directories().contains(
                old(self).metadata_store.root_directory@,
            )) ==> r is Ok && final(self).known() == Map::<Seq<char>, TopicView>::empty(),
            r is Err ==> final(self).known() == old(self).known(),
            r is Ok ==> exists|ts: Seq<Topic>|
                {
                    &&& #[trigger] collect_topics(topic_views(ts)) == final(self).known()
                    &&& forall|i: int|
                        0 <= i < ts.len() ==> holds_topic(
                            old(self).metadata_store.file_system.files(),
                            old(self).metadata_store.file_system.directories(),
                            old(self).metadata_store.root_directory@,
                            #[trigger] ts[i]@,
                        )
                    &&& all_collected(
                        old(self).metadata_store.file_system.files(),
                        old(self).metadata_store.file_system.directories(),
                        old(self).metadata_store.root_directory@,
                        ts,
                    )
                },
    {
        let loaded = match self.metadata_store.load_all() {
            Ok(ts) => ts,
            Err(e) => return Err(e),
        };
        let mut topics: Vec<Topic> = Vec::new();
        let mut k: usize = 0;
        proof {
            assert(topic_map(topic_views(topics@)) =~= collect_topics(topic_views(loaded@).take(0)));
        }
        while k < loaded.len()
            invariant
                k <= loaded@.len(),
                distinct_names(topic_views(topics@)),
                topic_map(topic_views(topics@)) == collect_topics(topic_views(loaded@).take(k as int)),
            decreases loaded@.len() - k,
        {
            let t = loaded[k].duplicate();
            put_topic(&mut topics, t);
            proof {
                let s = topic_views(loaded@).take(k + 1);
                assert(s.drop_last() =~= topic_views(loaded@).take(k as int));
                assert(s.last() == loaded@[k as int]@);
            }
            k = k + 1;
        }
        proof {
            assert(topic_views(loaded@).take(loaded@.len() as int) =~= topic_views(loaded@));
        }
        self.topics = topics;
        Ok(())
    }

    /// Whether `name` is a known topic.
    pub fn contains_topic(&self, name: &TopicName) -> (b: bool)
        requires
            self.wf(),
        ensures
            b == self.known().contains_key(name@),
    {
        match position_of_topic(&self.topics, name) {
            Some(k) => {
                proof {
                    lemma_topic_map_at(topic_views(self.topics@), k as int);
                }
                true
            },
            None => {
                proof {
                    if named(topic_views(self.topics@), name@) {
                        let j = choose|j: int|
                            0 <= j < topic_views(self.topics@).len() && #[trigger] topic_views(self.topics@)[j].0
                                == name@;
                        assert(self.topics@[j].name@ == name@);
                    }
                }
                false
            },
        }
    }
}

/// Every known topic is among those a listing gives.
pub proof fn law_known_topics_listed<F: FileSystem>(m: &TopicManager<F>, listed: Seq<Topic>, n: Seq<char>)
    requires
        m.wf(),
        m.known().contains_key(n),
        topic_views(listed).to_multiset() == topic_views(m.topics@).to_multiset(),
    ensures
        topic_views(listed).contains(m.known()[n]),
{
    broadcast use vstd::seq_lib::group_to_multiset_ensures;

    let s = topic_views(m.topics@);
    let i = choose|i: int| 0 <= i < s.len() && #[trigger] s[i].0 == n;
    lemma_topic_map_at(s, i);
    assert(s.to_multiset().count(s[i]) > 0);
    assert(topic_views(listed).to_multiset().count(s[i]) > 0);
}

} // verus!
