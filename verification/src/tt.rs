//! The transposition table: a cache of search results of fixed capacity,
//! keyed by the hash of a position.
//!
//! A key belongs to the slot `key % capacity`. Where a result arrives for
//! an occupied slot, the replacement policy decides which of the two stays.

use vstd::prelude::*;
use crate::rules::Move;

verus! {

/// The number of slots that one megabyte of table holds.
pub const SLOTS_PER_MB: usize = 32768;

/// How a stored score relates to the value of the position.
#[derive(Clone, Copy, Debug, PartialEq, Eq, Structural)]
pub enum Flag {
    /// The score is the value.
    Exact,
    /// The value is at least the score.
    LowerBound,
    /// The value is at most the score.
    UpperBound,
}

/// The result of one search of one position.
#[derive(Clone, Copy, Debug)]
pub struct TTEntry {
    pub depth: i32,
    pub score: i32,
    pub flag: Flag,
    pub best_move: Option<Move>,
    /// The generation of the table when the result was found.
    pub age: i32,
}

/// The table, as specifications see it: each slot is empty or holds a key
/// with its entry.
pub struct TableView {
    pub slots: Seq<Option<(u64, TTEntry)>>,
    pub generation: int,
}

pub struct TranspositionTable {
    pub slots: Vec<Option<(u64, TTEntry)>>,
    pub generation: i32,
}

/// The slot of a key in a table of `capacity` slots.
pub open spec fn slot_of(key: u64, capacity: int) -> int
    recommends
        capacity > 0,
{
    key as int % capacity
}

/// The entry found for a key: the one in the key's slot, if that slot
/// holds this very key.
pub open spec fn probe_of(t: TableView, key: u64) -> Option<TTEntry> {
    if t.slots.len() == 0 {
        None
    } else {
        match t.slots[slot_of(key, t.slots.len() as int)] {
            Some((k, e)) => if k == key {
                Some(e)
            } else {
                None
            },
            None => None,
        }
    }
}

/// The replacement policy: the stored entry stays if it is deeper than the
/// incoming one, unless the incoming entry is of the current generation
/// and the stored one is not. With equal depths the incoming entry wins.
pub open spec fn keeps_stored(stored: TTEntry, incoming: TTEntry, generation: int) -> bool {
    stored.depth > incoming.depth && !(incoming.age == generation && stored.age != generation)
}

/// The table after `entry` arrives for `key`.
pub open spec fn store_of(t: TableView, key: u64, entry: TTEntry) -> TableView {
    if t.slots.len() == 0 {
        t
    } else {
        let i = slot_of(key, t.slots.len() as int);
        match t.slots[i] {
            Some((_, stored)) => if keeps_stored(stored, entry, t.generation) {
                t
            } else {
                TableView { slots: t.slots.update(i, Some((key, entry))), ..t }
            },
            None => TableView { slots: t.slots.update(i, Some((key, entry))), ..t },
        }
    }
}

/// The table after a run of arrivals, the first of them first.
pub open spec fn store_all(t: TableView, arrivals: Seq<(u64, TTEntry)>) -> TableView
    decreases arrivals.len(),
{
    if arrivals.len() == 0 {
        t
    } else {
        store_of(store_all(t, arrivals.drop_last()), arrivals.last().0, arrivals.last().1)
    }
}

/// An arrival never replaces a deeper entry of the current generation.
pub proof fn lemma_store_keeps_deeper(t: TableView, key: u64, entry: TTEntry, other: u64)
    requires
        probe_of(t, other).is_some(),
        probe_of(t, other).unwrap().age == t.generation,
        probe_of(t, other).unwrap().depth > entry.depth,
    ensures
        probe_of(store_of(t, key, entry), other) == probe_of(t, other),
{
}

/// After an arrival for a key, a probe for that key never finds a
/// shallower entry than the one that arrived.
pub proof fn lemma_store_then_probe(t: TableView, key: u64, entry: TTEntry)
    ensures
        probe_of(store_of(t, key, entry), key).is_some() ==> probe_of(
            store_of(t, key, entry),
            key,
        ).unwrap().depth >= entry.depth,
        t.slots.len() > 0 && t.slots[slot_of(key, t.slots.len() as int)].is_none() ==> probe_of(
            store_of(t, key, entry),
            key,
        ) == Some(entry),
{
}

/// A run of arrivals changes neither the capacity nor the generation.
pub proof fn lemma_store_all_frame(t: TableView, arrivals: Seq<(u64, TTEntry)>)
    ensures
        store_all(t, arrivals).slots.len() == t.slots.len(),
        store_all(t, arrivals).generation == t.generation,
    decreases arrivals.len(),
{
    if arrivals.len() > 0 {
        lemma_store_all_frame(t, arrivals.drop_last());
    }
}

/// After a run of arrivals with no change of generation between them, the
/// entry found for a key is at least as deep as the shallowest entry that
/// arrived for that key.
pub proof fn lemma_probe_depth(t: TableView, arrivals: Seq<(u64, TTEntry)>, key: u64)
    requires
        exists|i: int| 0 <= i < arrivals.len() && (#[trigger] arrivals[i]).0 == key,
        probe_of(store_all(t, arrivals), key).is_some(),
    ensures
        exists|i: int|
            0 <= i < arrivals.len() && (#[trigger] arrivals[i]).0 == key && probe_of(
                store_all(t, arrivals),
                key,
            ).unwrap().depth >= arrivals[i].1.depth,
    decreases arrivals.len(),
{
    let n = arrivals.len() as int;
    let last = arrivals[n - 1];
    let before = store_all(t, arrivals.drop_last());
    lemma_store_all_frame(t, arrivals.drop_last());
    if last.0 == key {
        lemma_store_then_probe(before, key, last.1);
    } else {
        let w = choose|i: int| 0 <= i < arrivals.len() && (#[trigger] arrivals[i]).0 == key;
        assert(arrivals.drop_last()[w].0 == key);
        assert(probe_of(before, key) == probe_of(store_all(t, arrivals), key));
        lemma_probe_depth(t, arrivals.drop_last(), key);
        let j = choose|i: int|
            0 <= i < arrivals.drop_last().len() && (#[trigger] arrivals.drop_last()[i]).0 == key
                && probe_of(before, key).unwrap().depth >= arrivals.drop_last()[i].1.depth;
        assert(arrivals[j] == arrivals.drop_last()[j]);
    }
}

/// Every arrival is for `key` and of the given generation.
pub open spec fn all_fresh_for(arrivals: Seq<(u64, TTEntry)>, key: u64, generation: int) -> bool {
    forall|i: int|
        0 <= i < arrivals.len() ==> (#[trigger] arrivals[i]).0 == key && arrivals[i].1.age
            == generation
}

/// The entry is one of the arrivals, and none of them is deeper.
pub open spec fn is_deepest(e: TTEntry, arrivals: Seq<(u64, TTEntry)>) -> bool {
    &&& exists|i: int| 0 <= i < arrivals.len() && (#[trigger] arrivals[i]).1 == e
    &&& forall|i: int| 0 <= i < arrivals.len() ==> e.depth >= (#[trigger] arrivals[i]).1.depth
}

/// In a table with slots, after a run of arrivals for one key, all of the
/// table's generation, onto a slot that held nothing of this generation,
/// a probe for the key finds the deepest of them: a shallower arrival
/// never replaces a deeper entry of its generation.
pub proof fn lemma_probe_deepest(t: TableView, arrivals: Seq<(u64, TTEntry)>, key: u64)
    requires
        t.slots.len() > 0,
        arrivals.len() >= 1,
        all_fresh_for(arrivals, key, t.generation),
        match t.slots[slot_of(key, t.slots.len() as int)] {
            Some((_, stored)) => stored.age != t.generation,
            None => true,
        },
    ensures
        match probe_of(store_all(t, arrivals), key) {
            Some(e) => is_deepest(e, arrivals),
            None => false,
        },
    decreases arrivals.len(),
{
    let n = arrivals.len() as int;
    let last = arrivals[n - 1];
    let rest = arrivals.drop_last();
    let before = store_all(t, rest);
    lemma_store_all_frame(t, rest);
    assert(last.0 == key && last.1.age == t.generation);
    if n == 1 {
        assert(rest.len() == 0);
        assert(before == t);
        assert(probe_of(store_of(t, key, last.1), key) == Some(last.1));
        assert(arrivals[0].1 == last.1);
    } else {
        assert forall|i: int| 0 <= i < rest.len() implies (#[trigger] rest[i]).0 == key
            && rest[i].1.age == t.generation by {
            assert(rest[i] == arrivals[i]);
        }
        lemma_probe_deepest(t, rest, key);
        let held = probe_of(before, key).unwrap();
        let w = choose|i: int| 0 <= i < rest.len() && (#[trigger] rest[i]).1 == held;
        assert(arrivals[w] == rest[w]);
        let found = probe_of(store_of(before, key, last.1), key).unwrap();
        assert(found == held || found == last.1);
        assert forall|i: int| 0 <= i < arrivals.len() implies found.depth >= (
        #[trigger] arrivals[i]).1.depth by {
            if i < n - 1 {
                assert(rest[i] == arrivals[i]);
            }
        }
        if found == held {
            assert(arrivals[w].1 == found);
        } else {
            assert(arrivals[n - 1].1 == found);
        }
    }
}

impl View for TranspositionTable {
    type V = TableView;

    open spec fn view(&self) -> TableView {
        TableView { slots: self.slots@, generation: self.generation as int }
    }
}

impl TranspositionTable {
    /// Every occupied slot holds a key that belongs to it.
    pub open spec fn wf(&self) -> bool {
        forall|i: int|
            0 <= i < self@.slots.len() ==> match #[trigger] self@.slots[i] {
                Some((k, _)) => slot_of(k, self@.slots.len() as int) == i,
                None => true,
            }
    }

    /// An empty table of `size_mb` megabytes, `SLOTS_PER_MB` slots each,
    /// at generation 0.
    pub fn new(size_mb: usize) -> (t: TranspositionTable)
        requires
            size_mb * SLOTS_PER_MB <= usize::MAX,
        ensures
            t.wf(),
            t@.generation == 0,
            t@.slots.len() == size_mb * SLOTS_PER_MB,
            forall|i: int| 0 <= i < t@.slots.len() ==> (#[trigger] t@.slots[i]).is_none(),
    {
        let n: usize = size_mb * SLOTS_PER_MB;
        let mut slots: Vec<Option<(u64, TTEntry)>> = Vec::new();
        let mut i: usize = 0;
        while i < n
            invariant
                i <= n,
                slots@.len() == i,
                forall|j: int| 0 <= j < i ==> (#[trigger] slots@[j]).is_none(),
            decreases n - i,
        {
            slots.push(None);
            i += 1;
        }
        TranspositionTable { slots, generation: 0 }
    }

    /// The number of slots.
    pub fn capacity(&self) -> (n: usize)
        ensures
            n == self@.slots.len(),
    {
        self.slots.len()
    }

    /// The entry stored for the key, if its slot holds one for this key.
    pub fn probe(&self, key: u64) -> (found: Option<TTEntry>)
        ensures
            found == probe_of(self@, key),
    {
        let n: usize = self.slots.len();
        if n == 0 {
            return None;
        }
        let i: usize = (key % (n as u64)) as usize;
        match self.slots[i] {
            Some((k, e)) => if k == key {
                Some(e)
            } else {
                None
            },
            None => None,
        }
    }

    /// Puts the entry into the key's slot, unless the replacement policy
    /// keeps what the slot holds. A table without slots stays empty.
    pub fn store(&mut self, key: u64, entry: TTEntry)
        requires
            old(self).wf(),
        ensures
            final(self).wf(),
            final(self)@ == store_of(old(self)@, key, entry),
    {
        let n: usize = self.slots.len();
        if n == 0 {
            return ;
        }
        let i: usize = (key % (n as u64)) as usize;
        let keep: bool = match self.slots[i] {
            Some((_, stored)) => stored.depth > entry.depth && !(entry.age == self.generation
                && stored.age != self.generation),
            None => false,
        };
        if !keep {
            self.slots[i] = Some((key, entry));
        }
    }

    /// Empties every slot and begins the next generation.
    pub fn clear(&mut self)
        requires
            old(self).wf(),
            old(self)@.generation < i32::MAX,
        ensures
            final(self).wf(),
            final(self)@.generation == old(self)@.generation + 1,
            final(self)@.slots.len() == old(self)@.slots.len(),
            forall|i: int|
                0 <= i < final(self)@.slots.len() ==> (#[trigger] final(self)@.slots[i]).is_none(),
    {
        let n: usize = self.slots.len();
        let mut i: usize = 0;
        while i < n
            invariant
                i <= n,
                self.slots@.len() == n,
                self.generation == old(self).generation,
                forall|j: int| 0 <= j < i ==> (#[trigger] self.slots@[j]).is_none(),
            decreases n - i,
        {
            self.slots[i] = None;
            i += 1;
        }
        self.generation += 1;
    }

    /// Begins the next generation and keeps every entry: what is stored
    /// now counts as aged.
    pub fn new_search(&mut self)
        requires
            old(self).wf(),
            old(self)@.generation < i32::MAX,
        ensures
            final(self).wf(),
            final(self)@.generation == old(self)@.generation + 1,
            final(self)@.slots == old(self)@.slots,
    {
        self.generation += 1;
    }
}

} // verus!
