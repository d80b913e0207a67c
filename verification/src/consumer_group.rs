//! Consumer groups: their members, partition assignments and committed
//! offsets.
use vstd::prelude::*;
use vstd::utf8::encode_utf8;

use crate::filesystem::FileSystem;
use crate::model::{BrokerError, ConsumerGroupId, ConsumerId, Offset, PartitionKey, TopicName, TopicPartition};
use crate::offsets::{
    distinct_partitions, lookup, offsets_path, offsets_text, stored_offsets, table_map, table_view, upsert,
    CommittedOffset, OffsetStore,
};
use crate::order::{keys_sorted, lemma_text_keys_multiset, sort_by_text_key, text_keys, text_le, TextKeyed};

verus! {

broadcast use vstd::seq_lib::group_to_multiset_ensures;

/// A member of a consumer group and the topics it subscribes to.
pub struct Consumer {
    pub id: ConsumerId,
    pub group_id: ConsumerGroupId,
    pub subscriptions: Vec<TopicName>,
}

impl Consumer {
    pub fn new(id: ConsumerId, group_id: ConsumerGroupId, subscriptions: Vec<TopicName>) -> (c: Self)
        ensures
            c.id@ == id@,
            c.group_id@ == group_id@,
            c.subscriptions@ == subscriptions@,
    {
        Consumer { id, group_id, subscriptions }
    }
}

/// The partitions given to one consumer.
pub struct PartitionAssignment {
    pub consumer_id: ConsumerId,
    pub partitions: Vec<TopicPartition>,
}

impl PartitionAssignment {
    pub fn new(consumer_id: ConsumerId, partitions: Vec<TopicPartition>) -> (a: Self)
        ensures
            a.consumer_id@ == consumer_id@,
            a.partitions@ == partitions@,
    {
        PartitionAssignment { consumer_id, partitions }
    }

    pub fn consumer_id(&self) -> (c: &ConsumerId)
        ensures
            c@ == self.consumer_id@,
    {
        &self.consumer_id
    }

    pub fn partitions(&self) -> (ps: &Vec<TopicPartition>)
        ensures
            ps@ == self.partitions@,
    {
        &self.partitions
    }

    /// A copy of the assignment.
    pub fn duplicate(&self) -> (a: Self)
        ensures
            assignment_view(a) == assignment_view(*self),
    {
        let mut ps: Vec<TopicPartition> = Vec::new();
        let mut k: usize = 0;
        while k < self.partitions.len()
            invariant
                k <= self.partitions@.len(),
                ps@.len() == k,
                forall|j: int| 0 <= j < k ==> #[trigger] ps@[j]@ == self.partitions@[j]@,
            decreases self.partitions@.len() - k,
        {
            ps.push(self.partitions[k].duplicate());
            k = k + 1;
        }
        proof {
            assert(partition_keys(ps@) =~= partition_keys(self.partitions@));
        }
        PartitionAssignment { consumer_id: self.consumer_id.duplicate(), partitions: ps }
    }
}

/// An assignment as plain values: the consumer and its partitions.
pub open spec fn assignment_view(a: PartitionAssignment) -> (Seq<char>, Seq<PartitionKey>) {
    (a.consumer_id@, partition_keys(a.partitions@))
}

pub open spec fn assignments_view(s: Seq<PartitionAssignment>) -> Seq<(Seq<char>, Seq<PartitionKey>)> {
    s.map_values(|a: PartitionAssignment| assignment_view(a))
}

/// The round-robin plan: the consumer at position `j` of `ids` gets the
/// partitions whose position is `j` modulo the number of consumers.
pub open spec fn round_robin_plan(ids: Seq<Seq<char>>, ps: Seq<PartitionKey>) -> Seq<(Seq<char>, Seq<PartitionKey>)> {
    Seq::new(ids.len(), |j: int| (ids[j], round_robin(ps, ids.len(), j as nat)))
}

/// Whether texts are in order.
pub open spec fn text_sorted(s: Seq<Seq<char>>) -> bool {
    forall|i: int, j: int| 0 <= i < j < s.len() ==> text_le(#[trigger] s[i], #[trigger] s[j])
}

/// The texts of consumer identifiers, in order.
pub open spec fn id_views(s: Seq<ConsumerId>) -> Seq<Seq<char>> {
    s.map_values(|c: ConsumerId| c@)
}

/// A consumer identifier, ordered by its text.
pub struct SortableId {
    pub id: ConsumerId,
}

impl TextKeyed for SortableId {
    open spec fn text_key(&self) -> Seq<char> {
        self.id@
    }

    fn key_chars(&self) -> (k: Vec<char>) {
        crate::text::chars_of(self.id.as_str())
    }
}

/// The partitions of `ps` whose position is `k` modulo `n`, in order.
pub open spec fn round_robin(ps: Seq<PartitionKey>, n: nat, k: nat) -> Seq<PartitionKey>
    decreases ps.len(),
{
    if ps.len() == 0 {
        Seq::empty()
    } else {
        let rest = round_robin(ps.drop_last(), n, k);
        if (ps.len() - 1) % (n as int) == k {
            rest.push(ps.last())
        } else {
            rest
        }
    }
}

pub open spec fn partition_keys(ps: Seq<TopicPartition>) -> Seq<PartitionKey> {
    ps.map_values(|p: TopicPartition| p@)
}

/// What a group holds: its members, their assignments and its committed
/// offsets.
pub struct ConsumerGroupState {
    pub group_id: ConsumerGroupId,
    pub consumers: Vec<Consumer>,
    pub assignments: Vec<PartitionAssignment>,
    pub committed_offsets: Vec<CommittedOffset>,
}

impl ConsumerGroupState {
    pub open spec fn wf(&self) -> bool {
        &&& distinct_partitions(self.committed_offsets@)
        &&& forall|i: int, j: int|
            0 <= i < j < self.consumers@.len() ==> #[trigger] self.consumers@[i].id@
                != #[trigger] self.consumers@[j].id@
    }

    fn new(group_id: ConsumerGroupId, committed_offsets: Vec<CommittedOffset>) -> (s: Self)
        requires
            distinct_partitions(committed_offsets@),
        ensures
            s.wf(),
            s.group_id@ == group_id@,
            s.consumers@.len() == 0,
            s.assignments@.len() == 0,
            s.committed_offsets@ == committed_offsets@,
    {
        ConsumerGroupState { group_id, consumers: Vec::new(), assignments: Vec::new(), committed_offsets }
    }
}

/// The identifiers of the members of a group.
pub open spec fn member_ids(cs: Seq<Consumer>) -> Seq<Seq<char>> {
    cs.map_values(|c: Consumer| c.id@)
}

/// `after` is `before` with the member `id` of group `g` added, or with the
/// member of that identifier replaced.
pub open spec fn registered(
    before: Seq<Consumer>,
    after: Seq<Consumer>,
    id: Seq<char>,
    g: Seq<char>,
    subs: Seq<TopicName>,
) -> bool {
    let fresh = |c: Consumer| c.id@ == id && c.group_id@ == g && c.subscriptions@ == subs;
    if exists|k: int| 0 <= k < before.len() && #[trigger] before[k].id@ == id {
        let k = choose|k: int| 0 <= k < before.len() && #[trigger] before[k].id@ == id;
        after.len() == before.len() && fresh(after[k]) && forall|j: int|
            0 <= j < before.len() && j != k ==> #[trigger] after[j] == before[j]
    } else {
        after.len() == before.len() + 1 && fresh(after.last()) && forall|j: int|
            0 <= j < before.len() ==> #[trigger] after[j] == before[j]
    }
}

/// `after` is `before` without its member `id`, if it had one.
pub open spec fn removed(before: Seq<Consumer>, after: Seq<Consumer>, id: Seq<char>) -> bool {
    if exists|k: int| 0 <= k < before.len() && #[trigger] before[k].id@ == id {
        let k = choose|k: int| 0 <= k < before.len() && #[trigger] before[k].id@ == id;
        after == before.remove(k)
    } else {
        after == before
    }
}

/// The consumers that assignments are for, in order.
pub open spec fn assignment_owners(a: Seq<PartitionAssignment>) -> Seq<Seq<char>> {
    a.map_values(|x: PartitionAssignment| x.consumer_id@)
}

/// Keeps the state of consumer groups, loading a group's committed offsets
/// from the offset store the first time the group is used.
pub struct ConsumerGroupManager<F: FileSystem> {
    pub offset_store: OffsetStore<F>,
    pub groups: Vec<ConsumerGroupState>,
}

impl<F: FileSystem> ConsumerGroupManager<F> {
    pub open spec fn wf(&self) -> bool {
        &&& self.offset_store.file_system.inv()
        &&& forall|i: int| 0 <= i < self.groups@.len() ==> #[trigger] self.groups@[i].wf()
        &&& forall|i: int, j: int|
            0 <= i < j < self.groups@.len() ==> #[trigger] self.groups@[i].group_id@
                != #[trigger] self.groups@[j].group_id@
    }

    /// Whether the group is held in memory.
    pub open spec fn loaded(&self, g: Seq<char>) -> bool {
        exists|i: int| 0 <= i < self.groups@.len() && #[trigger] self.groups@[i].group_id@ == g
    }

    /// The position of a group held in memory.
    pub open spec fn index_of(&self, g: Seq<char>) -> int {
        choose|i: int| 0 <= i < self.groups@.len() && #[trigger] self.groups@[i].group_id@ == g
    }

    /// The committed offsets of a group held in memory.
    pub open spec fn committed(&self, g: Seq<char>) -> Map<PartitionKey, u64> {
        table_map(self.groups@[self.index_of(g)].committed_offsets@)
    }

    /// The members of a group held in memory.
    pub open spec fn members(&self, g: Seq<char>) -> Seq<Consumer> {
        self.groups@[self.index_of(g)].consumers@
    }

    /// The committed-offset entries of a group held in memory.
    pub open spec fn committed_table(&self, g: Seq<char>) -> Seq<(PartitionKey, u64)> {
        table_view(self.groups@[self.index_of(g)].committed_offsets@)
    }

    /// The current assignments of a group held in memory.
    pub open spec fn assignments_of(&self, g: Seq<char>) -> Seq<PartitionAssignment> {
        self.groups@[self.index_of(g)].assignments@
    }

    pub fn new(offset_store: OffsetStore<F>) -> (m: Self)
        requires
            offset_store.file_system.inv(),
        ensures
            m.wf(),
            m.offset_store == offset_store,
            forall|g: Seq<char>| !m.loaded(g),
    {
        ConsumerGroupManager { offset_store, groups: Vec::new() }
    }

    proof fn lemma_index_of(&self, i: int)
        requires
            self.wf(),
            0 <= i < self.groups@.len(),
        ensures
            self.loaded(self.groups@[i].group_id@),
            self.index_of(self.groups@[i].group_id@) == i,
    {
        let g = self.groups@[i].group_id@;
        assert(self.loaded(g));
        let j = self.index_of(g);
        if j != i {
            if j < i {
                assert(self.groups@[j].group_id@ != self.groups@[i].group_id@);
            } else {
                assert(self.groups@[i].group_id@ != self.groups@[j].group_id@);
            }
        }
    }

    fn find_group(&self, group_id: &ConsumerGroupId) -> (r: Option<usize>)
        requires
            self.wf(),
        ensures
            r matches Some(i) ==> i < self.groups@.len() && self.loaded(group_id@) && self.index_of(
                group_id@,
            ) == i,
            r is None ==> !self.loaded(group_id@),
    {
        let mut i: usize = 0;
        while i < self.groups.len()
            invariant
                self.wf(),
                i <= self.groups@.len(),
                forall|j: int| 0 <= j < i ==> #[trigger] self.groups@[j].group_id@ != group_id@,
            decreases self.groups@.len() - i,
        {
            if self.groups[i].group_id.same_as(group_id) {
                proof {
                    self.lemma_index_of(i as int);
                }
                return Some(i);
            }
            i = i + 1;
        }
        None
    }

    /// The position of the group, loading it first if needed.
    fn ensure_group(&mut self, group_id: &ConsumerGroupId) -> (r: Result<usize, BrokerError>)
        requires
            old(self).wf(),
        ensures
            final(self).wf(),
            final(self).offset_store.root_directory == old(self).offset_store.root_directory,
            final(self).offset_store.file_system == old(self).offset_store.file_system,
            r matches Ok(i) ==> i < final(self).groups@.len() && final(self).loaded(group_id@)
                && final(self).index_of(group_id@) == i,
            old(self).loaded(group_id@) ==> final(self).groups == old(self).groups && r is Ok,
            !old(self).loaded(group_id@) && r is Ok ==> {
                &&& final(self).groups@.len() == old(self).groups@.len() + 1
                &&& forall|i: int| 0 <= i < old(self).groups@.len() ==> #[trigger] final(self).groups@[i] == old(self).groups@[i]
                &&& final(self).members(group_id@).len() == 0
                &&& final(self).assignments_of(group_id@).len() == 0
                &&& match stored_offsets(
                    old(self).offset_store.file_system.files(),
                    old(self).offset_store.root_directory@,
                    group_id@,
                ) {
                    None => final(self).committed(group_id@) == Map::<PartitionKey, u64>::empty(),
                    Some(s) => s == Ok::<Map<PartitionKey, u64>, Seq<char>>(final(self).committed(group_id@)),
                }
            },
            !old(self).loaded(group_id@) && r is Err ==> final(self).groups == old(self).groups,
            old(self).ready(group_id@) ==> r is Ok,
            old(self).unreadable(group_id@) ==> r is Err,
    {
        match self.find_group(group_id) {
            Some(i) => return Ok(i),
            None => {},
        }
        let offsets = match self.offset_store.load(group_id) {
            Ok(t) => t,
            Err(e) => return Err(e),
        };
        let ghost before = self.groups@;
        let ghost loaded_table = offsets@;
        self.groups.push(ConsumerGroupState::new(group_id.duplicate(), offsets));
        let i = self.groups.len() - 1;
        proof {
            assert forall|a: int, b: int|
                0 <= a < b < self.groups@.len() implies #[trigger] self.groups@[a].group_id@
                    != #[trigger] self.groups@[b].group_id@ by {
                if b < before.len() {
                    assert(self.groups@[a] == before[a] && self.groups@[b] == before[b]);
                } else {
                    assert(self.groups@[a] == before[a]);
                }
            }
            assert forall|k: int| 0 <= k < self.groups@.len() implies #[trigger] self.groups@[k].wf() by {
                if k < before.len() {
                    assert(self.groups@[k] == before[k]);
                }
            }
            self.lemma_index_of(i as int);
            if loaded_table.len() == 0 {
                assert(table_map(loaded_table) =~= Map::<PartitionKey, u64>::empty());
            }
        }
        Ok(i)
    }

    /// Group `g` can be used without reading a file: it is held in memory,
    /// or it has no offsets file.
    pub open spec fn ready(&self, g: Seq<char>) -> bool {
        self.loaded(g) || !(self.offset_store.file_system.files().contains_key(
            offsets_path(self.offset_store.root_directory@, g),
        ) || self.offset_store.file_system.directories().contains(offsets_path(self.offset_store.root_directory@, g)))
    }

    /// Group `g` is not held and its offsets file does not read as offsets.
    pub open spec fn unreadable(&self, g: Seq<char>) -> bool {
        !self.loaded(g) && stored_offsets(
            self.offset_store.file_system.files(),
            self.offset_store.root_directory@,
            g,
        ) matches Some(Err(_))
    }

    /// The committed offsets a group starts from when it is first used: those
    /// of its offsets file, or none.
    pub open spec fn starting_offsets(&self, g: Seq<char>) -> Map<PartitionKey, u64> {
        if self.loaded(g) {
            self.committed(g)
        } else {
            match stored_offsets(self.offset_store.file_system.files(), self.offset_store.root_directory@, g) {
                Some(Ok(m)) => m,
                _ => Map::empty(),
            }
        }
    }

    /// The members a group starts from when it is used: none for a group
    /// not yet held in memory.
    pub open spec fn starting_members(&self, g: Seq<char>) -> Seq<Consumer> {
        if self.loaded(g) {
            self.members(g)
        } else {
            Seq::empty()
        }
    }

    /// The assignments a group starts from when it is used: none for a
    /// group not yet held in memory.
    pub open spec fn starting_assignments(&self, g: Seq<char>) -> Seq<PartitionAssignment> {
        if self.loaded(g) {
            self.assignments_of(g)
        } else {
            Seq::empty()
        }
    }

    proof fn lemma_ensured(&self, old_self: &Self, g: Seq<char>, i: int)
        requires
            old_self.wf(),
            self.wf(),
            0 <= i < self.groups@.len(),
            self.loaded(g),
            self.index_of(g) == i,
            old_self.loaded(g) ==> self.groups == old_self.groups,
            !old_self.loaded(g) ==> {
                &&& self.members(g).len() == 0
                &&& self.assignments_of(g).len() == 0
                &&& match stored_offsets(
                    old_self.offset_store.file_system.files(),
                    old_self.offset_store.root_directory@,
                    g,
                ) {
                    None => self.committed(g) == Map::<PartitionKey, u64>::empty(),
                    Some(s) => s == Ok::<Map<PartitionKey, u64>, Seq<char>>(self.committed(g)),
                }
            },
        ensures
            table_map(self.groups@[i].committed_offsets@) == old_self.starting_offsets(g),
            self.groups@[i].consumers@ == old_self.starting_members(g),
            self.groups@[i].assignments@ == old_self.starting_assignments(g),
            self.groups@[i].group_id@ == g,
    {
        if !old_self.loaded(g) {
            assert(self.groups@[i].consumers@ =~= Seq::<Consumer>::empty());
            assert(self.groups@[i].assignments@ =~= Seq::<PartitionAssignment>::empty());
        }
    }

    /// Puts back a group's state at its position.
    fn put_back(&mut self, i: usize, st: ConsumerGroupState)
        requires
            old(self).wf(),
            i <= old(self).groups@.len(),
            st.wf(),
            forall|j: int| 0 <= j < old(self).groups@.len() ==> #[trigger] old(self).groups@[j].group_id@ != st.group_id@,
        ensures
            final(self).wf(),
            final(self).offset_store == old(self).offset_store,
            final(self).groups@ == old(self).groups@.insert(i as int, st),
            final(self).loaded(st.group_id@),
            final(self).index_of(st.group_id@) == i,
    {
        self.groups.insert(i, st);
        proof {
            let before = old(self).groups@;
            assert forall|a: int, b: int|
                0 <= a < b < self.groups@.len() implies #[trigger] self.groups@[a].group_id@
                    != #[trigger] self.groups@[b].group_id@ by {
                if b < i {
                    assert(self.groups@[a] == before[a] && self.groups@[b] == before[b]);
                } else if b == i {
                    assert(self.groups@[a] == before[a]);
                } else if a < i {
                    assert(self.groups@[a] == before[a] && self.groups@[b] == before[b - 1]);
                } else if a == i {
                    assert(self.groups@[b] == before[b - 1]);
                } else {
                    assert(self.groups@[a] == before[a - 1] && self.groups@[b] == before[b - 1]);
                }
            }
            assert forall|k: int| 0 <= k < self.groups@.len() implies #[trigger] self.groups@[k].wf() by {
                if k < i {
                    assert(self.groups@[k] == before[k]);
                } else if k > i {
                    assert(self.groups@[k] == before[k - 1]);
                }
            }
            self.lemma_index_of(i as int);
        }
    }

    /// Takes out the state of the group at position `i`.
    fn take_out(&mut self, i: usize) -> (st: ConsumerGroupState)
        requires
            old(self).wf(),
            i < old(self).groups@.len(),
        ensures
            final(self).wf(),
            final(self).offset_store == old(self).offset_store,
            st == old(self).groups@[i as int],
            final(self).groups@ == old(self).groups@.remove(i as int),
            forall|j: int| 0 <= j < final(self).groups@.len() ==> #[trigger] final(self).groups@[j].group_id@ != st.group_id@,
    {
        let st = self.groups.remove(i);
        proof {
            let before = old(self).groups@;
            assert forall|a: int, b: int|
                0 <= a < b < self.groups@.len() implies #[trigger] self.groups@[a].group_id@
                    != #[trigger] self.groups@[b].group_id@ by {
                if b < i {
                    assert(self.groups@[a] == before[a] && self.groups@[b] == before[b]);
                } else if a < i {
                    assert(self.groups@[a] == before[a] && self.groups@[b] == before[b + 1]);
                } else {
                    assert(self.groups@[a] == before[a + 1] && self.groups@[b] == before[b + 1]);
                }
            }
            assert forall|k: int| 0 <= k < self.groups@.len() implies #[trigger] self.groups@[k].wf() by {
                if k < i {
                    assert(self.groups@[k] == before[k]);
                } else {
                    assert(self.groups@[k] == before[k + 1]);
                }
            }
            assert forall|j: int| 0 <= j < self.groups@.len() implies #[trigger] self.groups@[j].group_id@ != st.group_id@ by {
                if j < i {
                    assert(self.groups@[j] == before[j]);
                } else {
                    assert(self.groups@[j] == before[j + 1]);
                }
            }
        }
        st
    }


    /// Adds a member to the group, or replaces the member with that
    /// identifier.
    pub fn register_consumer(
        &mut self,
        group_id: ConsumerGroupId,
        consumer_id: ConsumerId,
        subscriptions: Vec<TopicName>,
    ) -> (r: Result<(), BrokerError>)
        requires
            old(self).wf(),
        ensures
            final(self).wf(),
            final(self).offset_store == old(self).offset_store,
            r is Ok ==> {
                &&& final(self).loaded(group_id@)
                &&& final(self).committed(group_id@) == old(self).starting_offsets(group_id@)
                &&& final(self).assignments_of(group_id@) == old(self).starting_assignments(group_id@)
                &&& registered(
                    old(self).starting_members(group_id@),
                    final(self).members(group_id@),
                    consumer_id@,
                    group_id@,
                    subscriptions@,
                )
            },
            r is Err ==> final(self).groups == old(self).groups,
            old(self).ready(group_id@) ==> r is Ok,
            old(self).unreadable(group_id@) ==> r is Err,
    {
        let i = match self.ensure_group(&group_id) {
            Ok(i) => i,
            Err(e) => return Err(e),
        };
        proof {
            self.lemma_ensured(old(self), group_id@, i as int);
            assert(self.groups@[i as int].wf());
        }
        let mut st = self.take_out(i);
        let ghost before = st.consumers@;
        let pos = find_consumer(&st.consumers, &consumer_id);
        let c = Consumer::new(consumer_id, group_id.duplicate(), subscriptions);
        match pos {
            Some(k) => {
                st.consumers.set(k, c);
                proof {
                    assert forall|a: int, b: int|
                        0 <= a < b < st.consumers@.len() implies #[trigger] st.consumers@[a].id@
                            != #[trigger] st.consumers@[b].id@ by {
                        if a != k && b != k {
                            assert(st.consumers@[a] == before[a] && st.consumers@[b] == before[b]);
                        } else if a == k {
                            assert(st.consumers@[b] == before[b]);
                            assert(before[a].id@ != before[b].id@);
                        } else {
                            assert(st.consumers@[a] == before[a]);
                            assert(before[a].id@ != before[b].id@);
                        }
                    }
                    lemma_unique_member(before, k as int, consumer_id@);
                }
            },
            None => {
                st.consumers.push(c);
                proof {
                    assert forall|a: int, b: int|
                        0 <= a < b < st.consumers@.len() implies #[trigger] st.consumers@[a].id@
                            != #[trigger] st.consumers@[b].id@ by {
                        if b < before.len() {
                            assert(st.consumers@[a] == before[a] && st.consumers@[b] == before[b]);
                        } else {
                            assert(st.consumers@[a] == before[a]);
                        }
                    }
                }
            },
        }
        proof {
            assert(registered(before, st.consumers@, consumer_id@, group_id@, subscriptions@));
        }
        let ghost stv = st;
        self.put_back(i, st);
        proof {
            assert(self.groups@[i as int] == stv);
        }
        Ok(())
    }

    /// Removes a member from the group, with its assignments.
    pub fn remove_consumer(&mut self, group_id: &ConsumerGroupId, consumer_id: &ConsumerId) -> (r: Result<(), BrokerError>)
        requires
            old(self).wf(),
        ensures
            final(self).wf(),
            final(self).offset_store == old(self).offset_store,
            r is Ok ==> {
                &&& final(self).loaded(group_id@)
                &&& final(self).committed(group_id@) == old(self).starting_offsets(group_id@)
                &&& removed(old(self).starting_members(group_id@), final(self).members(group_id@), consumer_id@)
                &&& final(self).assignments_of(group_id@) == old(self).starting_assignments(group_id@).filter(
                    not_owned_by(consumer_id@),
                )
            },
            r is Err ==> final(self).groups == old(self).groups,
            old(self).ready(group_id@) ==> r is Ok,
            old(self).unreadable(group_id@) ==> r is Err,
    {
        let i = match self.ensure_group(group_id) {
            Ok(i) => i,
            Err(e) => return Err(e),
        };
        proof {
            self.lemma_ensured(old(self), group_id@, i as int);
            assert(self.groups@[i as int].wf());
        }
        let mut st = self.take_out(i);
        let ghost before = st.consumers@;
        match find_consumer(&st.consumers, consumer_id) {
            Some(k) => {
                st.consumers.remove(k);
                proof {
                    assert forall|a: int, b: int|
                        0 <= a < b < st.consumers@.len() implies #[trigger] st.consumers@[a].id@
                            != #[trigger] st.consumers@[b].id@ by {
                        if b < k {
                            assert(st.consumers@[a] == before[a] && st.consumers@[b] == before[b]);
                        } else if a < k {
                            assert(st.consumers@[a] == before[a] && st.consumers@[b] == before[b + 1]);
                        } else {
                            assert(st.consumers@[a] == before[a + 1] && st.consumers@[b] == before[b + 1]);
                        }
                    }
                    lemma_unique_member(before, k as int, consumer_id@);
                }
            },
            None => {},
        }
        proof {
            assert(removed(before, st.consumers@, consumer_id@));
        }
        let mut all: Vec<PartitionAssignment> = Vec::new();
        std::mem::swap(&mut all, &mut st.assignments);
        st.assignments = without_owner(all, consumer_id);
        let ghost stv = st;
        self.put_back(i, st);
        proof {
            assert(self.groups@[i as int] == stv);
        }
        Ok(())
    }

    /// Spreads `partitions` over the members of the group, round robin in
    /// the text order of their identifiers, and keeps the result as the
    /// group's assignments. A group without members gets none.
    pub fn assign_partitions(&mut self, group_id: &ConsumerGroupId, partitions: Vec<TopicPartition>) -> (r: Result<
        Vec<PartitionAssignment>,
        BrokerError,
    >)
        requires
            old(self).wf(),
        ensures
            final(self).wf(),
            final(self).offset_store == old(self).offset_store,
            r is Err ==> final(self).groups == old(self).groups,
            r matches Ok(out) ==> {
                &&& final(self).loaded(group_id@)
                &&& final(self).committed(group_id@) == old(self).starting_offsets(group_id@)
                &&& final(self).members(group_id@) == old(self).starting_members(group_id@)
                &&& assignment_owners(out@).to_multiset() == member_ids(old(self).starting_members(group_id@)).to_multiset()
                &&& text_sorted(assignment_owners(out@))
                &&& assignments_view(out@) == round_robin_plan(assignment_owners(out@), partition_keys(partitions@))
                &&& assignments_view(final(self).assignments_of(group_id@)) == assignments_view(out@)
            },
            old(self).ready(group_id@) ==> r is Ok,
            old(self).unreadable(group_id@) ==> r is Err,
    {
        let i = match self.ensure_group(group_id) {
            Ok(i) => i,
            Err(e) => return Err(e),
        };
        proof {
            self.lemma_ensured(old(self), group_id@, i as int);
            assert(self.groups@[i as int].wf());
        }
        let mut st = self.take_out(i);
        let ids = sorted_member_ids(&st.consumers);
        let out = round_robin_assign(&ids, &partitions);
        let mut kept: Vec<PartitionAssignment> = Vec::new();
        let mut k: usize = 0;
        while k < out.len()
            invariant
                k <= out@.len(),
                kept@.len() == k,
                forall|j: int| 0 <= j < k ==> #[trigger] assignment_view(kept@[j]) == assignment_view(out@[j]),
            decreases out@.len() - k,
        {
            kept.push(out[k].duplicate());
            k = k + 1;
        }
        st.assignments = kept;
        proof {
            assert(assignments_view(st.assignments@) =~= assignments_view(out@));
            assert(assignment_owners(out@) =~= id_views(ids@)) by {
                assert forall|j: int| 0 <= j < out@.len() implies #[trigger] assignment_owners(out@)[j] == id_views(ids@)[j] by {
                    assert(assignments_view(out@)[j] == assignment_view(out@[j]));
                }
            }
        }
        let ghost stv = st;
        self.put_back(i, st);
        proof {
            assert(self.groups@[i as int] == stv);
        }
        Ok(out)
    }

    /// Records `offset` as the group's committed offset for `partition` and
    /// writes the group's offsets file.
    pub fn commit_offset(&mut self, group_id: &ConsumerGroupId, partition: TopicPartition, offset: Offset) -> (r:
        Result<Offset, BrokerError>)
        requires
            old(self).wf(),
        ensures
            final(self).wf(),
            final(self).offset_store.root_directory == old(self).offset_store.root_directory,
            !final(self).loaded(group_id@) ==> final(self).groups == old(self).groups
                && final(self).offset_store == old(self).offset_store && r is Err,
            final(self).loaded(group_id@) ==> {
                &&& final(self).committed(group_id@) == old(self).starting_offsets(group_id@).insert(partition@, offset.value)
                &&& final(self).members(group_id@) == old(self).starting_members(group_id@)
                &&& final(self).assignments_of(group_id@) == old(self).starting_assignments(group_id@)
            },
            r matches Ok(o) ==> {
                &&& o == offset
                &&& final(self).loaded(group_id@)
                &&& exists|text: Seq<char>|
                    #![trigger encode_utf8(text)]
                    offsets_text(final(self).committed_table(group_id@), text)
                        && final(self).offset_store.file_system.files() == old(self).offset_store.file_system.files().insert(
                        offsets_path(old(self).offset_store.root_directory@, group_id@),
                        encode_utf8(text),
                    )
            },
    {
        let i = match self.ensure_group(group_id) {
            Ok(i) => i,
            Err(e) => return Err(e),
        };
        proof {
            self.lemma_ensured(old(self), group_id@, i as int);
            assert(self.groups@[i as int].wf());
        }
        let ghost mid = *self;
        let mut st = self.take_out(i);
        upsert(&mut st.committed_offsets, partition, offset);
        let ghost stv = st;
        self.put_back(i, st);
        proof {
            assert(self.groups@[i as int] == stv);
        }
        let result = self.offset_store.save(group_id, &self.groups[i].committed_offsets);
        match result {
            Ok(()) => Ok(offset),
            Err(e) => Err(e),
        }
    }

    /// The group's committed offset for `partition`, if it has one.
    pub fn committed_offset(&mut self, group_id: &ConsumerGroupId, partition: &TopicPartition) -> (r: Result<
        Option<Offset>,
        BrokerError,
    >)
        requires
            old(self).wf(),
        ensures
            final(self).wf(),
            final(self).offset_store == old(self).offset_store,
            r is Err ==> final(self).groups == old(self).groups,
            r matches Ok(o) ==> {
                &&& final(self).loaded(group_id@)
                &&& final(self).committed(group_id@) == old(self).starting_offsets(group_id@)
                &&& final(self).members(group_id@) == old(self).starting_members(group_id@)
                &&& final(self).assignments_of(group_id@) == old(self).starting_assignments(group_id@)
                &&& match o {
                    Some(x) => old(self).starting_offsets(group_id@).contains_key(partition@)
                        && old(self).starting_offsets(group_id@)[partition@] == x.value,
                    None => !old(self).starting_offsets(group_id@).contains_key(partition@),
                }
            },
            old(self).ready(group_id@) ==> r is Ok,
            old(self).unreadable(group_id@) ==> r is Err,
    {
        let i = match self.ensure_group(group_id) {
            Ok(i) => i,
            Err(e) => return Err(e),
        };
        proof {
            self.lemma_ensured(old(self), group_id@, i as int);
            assert(self.groups@[i as int].wf());
        }
        Ok(lookup(&self.groups[i].committed_offsets, partition))
    }
}

/// The position of the member `id` among `cs`, if there is one.
fn find_consumer(cs: &Vec<Consumer>, id: &ConsumerId) -> (r: Option<usize>)
    ensures
        r matches Some(k) ==> k < cs@.len() && cs@[k as int].id@ == id@,
        r is None ==> forall|j: int| 0 <= j < cs@.len() ==> #[trigger] cs@[j].id@ != id@,
{
    let mut k: usize = 0;
    while k < cs.len()
        invariant
            k <= cs@.len(),
            forall|j: int| 0 <= j < k ==> #[trigger] cs@[j].id@ != id@,
        decreases cs@.len() - k,
    {
        if cs[k].id.same_as(id) {
            return Some(k);
        }
        k = k + 1;
    }
    None
}

/// Among members with distinct identifiers, the one at `k` is the one that
/// `registered` and `removed` pick.
proof fn lemma_unique_member(cs: Seq<Consumer>, k: int, id: Seq<char>)
    requires
        0 <= k < cs.len(),
        cs[k].id@ == id,
        forall|i: int, j: int| 0 <= i < j < cs.len() ==> #[trigger] cs[i].id@ != #[trigger] cs[j].id@,
    ensures
        (choose|m: int| 0 <= m < cs.len() && #[trigger] cs[m].id@ == id) == k,
{
    let m = choose|m: int| 0 <= m < cs.len() && #[trigger] cs[m].id@ == id;
    assert(0 <= m < cs.len() && cs[m].id@ == id);
    if m < k {
        assert(cs[m].id@ != cs[k].id@);
    } else if m > k {
        assert(cs[k].id@ != cs[m].id@);
    }
}

/// Whether an assignment is for some consumer other than `id`.
pub open spec fn not_owned_by(id: Seq<char>) -> spec_fn(PartitionAssignment) -> bool {
    |a: PartitionAssignment| a.consumer_id@ != id
}

/// The assignments of `all` that are not for `id`, in order.
fn without_owner(all: Vec<PartitionAssignment>, id: &ConsumerId) -> (kept: Vec<PartitionAssignment>)
    ensures
        kept@ == all@.filter(not_owned_by(id@)),
{
    let ghost whole = all@;
    let mut rest = all;
    let mut kept: Vec<PartitionAssignment> = Vec::new();
    let ghost mut taken: Seq<PartitionAssignment> = Seq::empty();
    proof {
        assert(taken.filter(not_owned_by(id@)) =~= Seq::<PartitionAssignment>::empty()) by {
            reveal(Seq::filter);
        }
        assert(taken + rest@ =~= whole);
    }
    while rest.len() > 0
        invariant
            taken + rest@ == whole,
            kept@ == taken.filter(not_owned_by(id@)),
        decreases rest@.len(),
    {
        let ghost r0 = rest@;
        let a = rest.remove(0);
        let keep = !a.consumer_id.same_as(id);
        proof {
            taken.lemma_filter_push(a, not_owned_by(id@));
            assert(taken.push(a) + rest@ =~= taken + r0);
            taken = taken.push(a);
        }
        if keep {
            kept.push(a);
        }
    }
    proof {
        assert(taken + rest@ =~= taken);
    }
    kept
}

/// The identifiers of the members, in text order.
fn sorted_member_ids(cs: &Vec<Consumer>) -> (ids: Vec<ConsumerId>)
    ensures
        id_views(ids@).to_multiset() == member_ids(cs@).to_multiset(),
        text_sorted(id_views(ids@)),
{
    let mut keyed: Vec<SortableId> = Vec::new();
    let mut k: usize = 0;
    while k < cs.len()
        invariant
            k <= cs@.len(),
            keyed@.len() == k,
            forall|j: int| 0 <= j < k ==> #[trigger] keyed@[j].id@ == cs@[j].id@,
        decreases cs@.len() - k,
    {
        keyed.push(SortableId { id: cs[k].id.duplicate() });
        k = k + 1;
    }
    proof {
        assert(text_keys(keyed@) =~= member_ids(cs@));
    }
    let ghost unsorted = keyed@;
    let sorted = sort_by_text_key(keyed);
    proof {
        lemma_text_keys_multiset(unsorted, sorted@);
    }
    let mut ids: Vec<ConsumerId> = Vec::new();
    let mut j: usize = 0;
    while j < sorted.len()
        invariant
            j <= sorted@.len(),
            ids@.len() == j,
            forall|m: int| 0 <= m < j ==> #[trigger] ids@[m]@ == sorted@[m].id@,
        decreases sorted@.len() - j,
    {
        ids.push(sorted[j].id.duplicate());
        j = j + 1;
    }
    proof {
        assert(id_views(ids@) =~= text_keys(sorted@));
        assert forall|a: int, b: int| 0 <= a < b < id_views(ids@).len() implies text_le(
            #[trigger] id_views(ids@)[a],
            #[trigger] id_views(ids@)[b],
        ) by {
            assert(id_views(ids@)[a] == sorted@[a].text_key());
            assert(id_views(ids@)[b] == sorted@[b].text_key());
        }
    }
    ids
}

/// The round-robin assignment of `partitions` to `ids`, one assignment per
/// consumer, in the order of `ids`.
fn round_robin_assign(ids: &Vec<ConsumerId>, partitions: &Vec<TopicPartition>) -> (out: Vec<PartitionAssignment>)
    ensures
        assignments_view(out@) == round_robin_plan(id_views(ids@), partition_keys(partitions@)),
{
    let n = ids.len();
    let ghost keys = partition_keys(partitions@);
    if n == 0 {
        let out: Vec<PartitionAssignment> = Vec::new();
        proof {
            assert(assignments_view(out@) =~= round_robin_plan(id_views(ids@), keys));
        }
        return out;
    }
    let mut buckets: Vec<Vec<TopicPartition>> = Vec::new();
    let mut j: usize = 0;
    while j < n
        invariant
            j <= n,
            buckets@.len() == j,
            forall|m: int| 0 <= m < j ==> (#[trigger] buckets@[m])@.len() == 0,
        decreases n - j,
    {
        buckets.push(Vec::new());
        j = j + 1;
    }
    proof {
        assert forall|m: int| 0 <= m < n implies partition_keys((#[trigger] buckets@[m])@) == round_robin(
            keys.take(0),
            n as nat,
            m as nat,
        ) by {
            assert(partition_keys(buckets@[m]@) =~= Seq::<PartitionKey>::empty());
        }
    }
    let mut idx: usize = 0;
    while idx < partitions.len()
        invariant
            n == ids@.len(),
            n > 0,
            idx <= partitions@.len(),
            buckets@.len() == n,
            keys == partition_keys(partitions@),
            forall|m: int| 0 <= m < n ==> partition_keys((#[trigger] buckets@[m])@) == round_robin(
                keys.take(idx as int),
                n as nat,
                m as nat,
            ),
        decreases partitions@.len() - idx,
    {
        let b = idx % n;
        let p = partitions[idx].duplicate();
        let ghost before = buckets@;
        buckets[b].push(p);
        proof {
            assert(keys.take(idx + 1).drop_last() =~= keys.take(idx as int));
            assert(keys.take(idx + 1).last() == p@);
            assert forall|m: int| 0 <= m < n implies partition_keys((#[trigger] buckets@[m])@) == round_robin(
                keys.take(idx + 1),
                n as nat,
                m as nat,
            ) by {
                if m == b {
                    assert(partition_keys(buckets@[m]@) =~= partition_keys(before[m]@).push(p@));
                } else {
                    assert(buckets@[m] == before[m]);
                }
            }
        }
        idx = idx + 1;
    }
    proof {
        assert(keys.take(partitions@.len() as int) =~= keys);
    }
    let mut out: Vec<PartitionAssignment> = Vec::new();
    let mut m: usize = 0;
    while m < n
        invariant
            n == ids@.len(),
            m <= n,
            out@.len() == m,
            buckets@.len() == n,
            forall|q: int| m <= q < n ==> partition_keys((#[trigger] buckets@[q])@) == round_robin(keys, n as nat, q as nat),
            forall|q: int| 0 <= q < m ==> #[trigger] assignment_view(out@[q]) == (ids@[q]@, round_robin(keys, n as nat, q as nat)),
        decreases n - m,
    {
        let mut bucket: Vec<TopicPartition> = Vec::new();
        let ghost before = buckets@;
        std::mem::swap(&mut bucket, &mut buckets[m]);
        proof {
            assert forall|q: int| m < q < n implies #[trigger] buckets@[q] == before[q] by {}
        }
        out.push(PartitionAssignment::new(ids[m].duplicate(), bucket));
        m = m + 1;
    }
    proof {
        assert(assignments_view(out@) =~= round_robin_plan(id_views(ids@), keys));
    }
    out
}

/// The partitions round robin gives the first `k` consumers, one consumer
/// after the other.
pub open spec fn buckets_upto(ps: Seq<PartitionKey>, n: nat, k: nat) -> Seq<PartitionKey>
    decreases k,
{
    if k == 0 {
        Seq::empty()
    } else {
        buckets_upto(ps, n, (k - 1) as nat) + round_robin(ps, n, (k - 1) as nat)
    }
}

proof fn lemma_buckets_push(q: Seq<PartitionKey>, x: PartitionKey, n: nat, k: nat)
    requires
        n > 0,
    ensures
        buckets_upto(q.push(x), n, k).to_multiset() == if (q.len() as int) % (n as int) < k {
            buckets_upto(q, n, k).to_multiset().insert(x)
        } else {
            buckets_upto(q, n, k).to_multiset()
        },
    decreases k,
{
    broadcast use vstd::seq_lib::lemma_multiset_commutative;

    let ps = q.push(x);
    assert(ps.drop_last() =~= q);
    if k > 0 {
        let j = (k - 1) as nat;
        lemma_buckets_push(q, x, n, j);
        let r = round_robin(ps, n, j);
        let rq = round_robin(q, n, j);
        if (q.len() as int) % (n as int) == j {
            assert(r == rq.push(x));
            assert(r.to_multiset() =~= rq.to_multiset().insert(x));
        } else {
            assert(r == rq);
        }
        assert(buckets_upto(ps, n, k).to_multiset() =~= buckets_upto(ps, n, j).to_multiset().add(r.to_multiset()));
        assert(buckets_upto(q, n, k).to_multiset() =~= buckets_upto(q, n, j).to_multiset().add(rq.to_multiset()));
    }
}

proof fn lemma_buckets_empty(n: nat, k: nat)
    ensures
        buckets_upto(Seq::empty(), n, k) == Seq::<PartitionKey>::empty(),
    decreases k,
{
    if k > 0 {
        lemma_buckets_empty(n, (k - 1) as nat);
        assert(round_robin(Seq::empty(), n, (k - 1) as nat) == Seq::<PartitionKey>::empty());
        assert(Seq::<PartitionKey>::empty() + Seq::<PartitionKey>::empty() =~= Seq::<PartitionKey>::empty());
    }
}

/// Round robin gives every partition to exactly one consumer: together,
/// the consumers get the partitions, each as often as it was given.
pub proof fn law_round_robin_covers(ps: Seq<PartitionKey>, n: nat)
    requires
        n > 0,
    ensures
        buckets_upto(ps, n, n).to_multiset() == ps.to_multiset(),
    decreases ps.len(),
{
    if ps.len() == 0 {
        lemma_buckets_empty(n, n);
        assert(ps =~= Seq::<PartitionKey>::empty());
    } else {
        let q = ps.drop_last();
        let x = ps.last();
        assert(ps =~= q.push(x));
        law_round_robin_covers(q, n);
        lemma_buckets_push(q, x, n, n);
        assert((q.len() as int) % (n as int) < n);
    }
}

/// The identifiers of the members are distinct.
pub open spec fn distinct_members(cs: Seq<Consumer>) -> bool {
    forall|i: int, j: int| 0 <= i < j < cs.len() ==> #[trigger] cs[i].id@ != #[trigger] cs[j].id@
}

/// After a member is registered it is a member, with the subscriptions it
/// was registered with.
pub proof fn law_registered_is_member(
    before: Seq<Consumer>,
    after: Seq<Consumer>,
    id: Seq<char>,
    g: Seq<char>,
    subs: Seq<TopicName>,
)
    requires
        registered(before, after, id, g, subs),
    ensures
        exists|k: int| 0 <= k < after.len() && #[trigger] after[k].id@ == id && after[k].subscriptions@ == subs,
{
    if exists|k: int| 0 <= k < before.len() && #[trigger] before[k].id@ == id {
        let k = choose|k: int| 0 <= k < before.len() && #[trigger] before[k].id@ == id;
        assert(after[k].id@ == id);
    } else {
        assert(after[after.len() - 1].id@ == id);
    }
}

/// After a member is removed, no member has its identifier.
pub proof fn law_removed_is_gone(before: Seq<Consumer>, after: Seq<Consumer>, id: Seq<char>)
    requires
        distinct_members(before),
        removed(before, after, id),
    ensures
        forall|k: int| 0 <= k < after.len() ==> #[trigger] after[k].id@ != id,
{
    if exists|k: int| 0 <= k < before.len() && #[trigger] before[k].id@ == id {
        let k = choose|k: int| 0 <= k < before.len() && #[trigger] before[k].id@ == id;
        assert forall|j: int| 0 <= j < after.len() implies #[trigger] after[j].id@ != id by {
            if j < k {
                assert(after[j] == before[j]);
                assert(before[j].id@ != before[k].id@);
            } else {
                assert(after[j] == before[j + 1]);
                assert(before[k].id@ != before[j + 1].id@);
            }
        }
    }
}

/// A committed offset is what the group then reads back for that
/// partition.
pub proof fn law_commit_then_read<F: FileSystem>(
    m: &ConsumerGroupManager<F>,
    g: Seq<char>,
    p: PartitionKey,
    o: u64,
    earlier: Map<PartitionKey, u64>,
)
    requires
        m.loaded(g),
        m.committed(g) == earlier.insert(p, o),
    ensures
        m.starting_offsets(g).contains_key(p),
        m.starting_offsets(g)[p] == o,
{
}

} // verus!
