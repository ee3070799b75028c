//! Counters per key: one sparse gene counter for each key that was seen, in
//! the order in which the keys first appeared.

use crate::genes::{
    count_of, incremented, lemma_incremented_total, lemma_merge_total, lemma_slot_le_sum, merged,
    slot_at, sum, Genes, Slots,
};
use crate::table::{distinct, lemma_position_of, position_of, KeyIndex};
use vstd::prelude::*;

verus! {

/// The entries of a table in its order: each key with the slots of its counter.
pub type Entries = Seq<(u64, Slots)>;

/// The keys of a table, in its order.
pub open spec fn keys_of(entries: Entries) -> Seq<u64> {
    Seq::new(entries.len(), |i: int| entries[i].0)
}

/// The counter that stands at `key`, or an empty one where the key is new.
pub open spec fn counts_at(entries: Entries, key: u64) -> Slots {
    match position_of(keys_of(entries), key) {
        Some(i) => entries[i].1,
        None => Seq::empty(),
    }
}

/// The table with `counts` at `key`: in the key's place where it has one, at
/// the end where the key is new.
pub open spec fn put(entries: Entries, key: u64, counts: Slots) -> Entries {
    match position_of(keys_of(entries), key) {
        Some(i) => entries.update(i, (key, counts)),
        None => entries.push((key, counts)),
    }
}

/// The table after one more event for `gene` at `key`.
pub open spec fn with_increment(entries: Entries, key: u64, gene: nat) -> Entries {
    put(entries, key, incremented(counts_at(entries, key), gene))
}

/// The table after `other` was merged into the counter at `key`.
pub open spec fn with_merge(
    entries: Entries,
    key: u64,
    other: Slots,
) -> Entries {
    put(entries, key, merged(counts_at(entries, key), other))
}

/// A sparse gene counter for each key, the keys in the order of their first
/// appearance.
pub struct GeneTable {
    index: KeyIndex,
    counters: Vec<Genes>,
}

impl View for GeneTable {
    type V = Entries;

    closed spec fn view(&self) -> Entries {
        Seq::new(self.index@.len(), |i: int| (self.index@[i], self.counters@[i]@))
    }
}

impl GeneTable {
    /// Every key has its counter, and every counter is well formed.
    pub closed spec fn wf(&self) -> bool {
        &&& self.index.wf()
        &&& self.counters@.len() == self.index@.len()
        &&& forall|i: int| 0 <= i < self.counters@.len() ==> (#[trigger] self.counters@[i]).wf()
    }

    /// A table without keys.
    pub fn new() -> (res: Self)
        ensures
            res.wf(),
            res@ == Entries::empty(),
            events(res@) == 0,
    {
        let res = GeneTable { index: KeyIndex::new(), counters: Vec::new() };
        assert(res@ =~= Entries::empty());
        res
    }

    /// The keys of the table are the keys of its index.
    proof fn lemma_keys(&self)
        requires
            self.wf(),
        ensures
            keys_of(self@) == self.index@,
            self@.len() == self.index@.len(),
            distinct(keys_of(self@)),
    {
        assert(keys_of(self@) =~= self.index@);
        self.index.lemma_distinct();
    }

    /// The place of `key`, with a counter in it: the key's own, or an empty
    /// one at the end where the key is new.
    fn place_of(&mut self, key: u64) -> (place: usize)
        requires
            old(self).wf(),
        ensures
            final(self).wf(),
            final(self)@ == put(old(self)@, key, counts_at(old(self)@, key)),
            position_of(keys_of(final(self)@), key) == Some(place as int),
            place < final(self).counters@.len(),
            final(self).counters@[place as int]@ == counts_at(old(self)@, key),
    {
        proof {
            self.lemma_keys();
            lemma_position_of(self.index@, key);
        }
        let place = self.index.intern(key);
        if place == self.counters.len() {
            self.counters.push(Genes::default());
        }
        proof {
            assert(keys_of(self@) =~= self.index@);
            assert(self@ =~= put(old(self)@, key, counts_at(old(self)@, key)));
        }
        place
    }

    /// Counts one more event for `gene` at `key`.
    pub fn increment(&mut self, key: u64, gene: usize)
        requires
            old(self).wf(),
            gene < usize::MAX,
            count_of(slot_at(counts_at(old(self)@, key), gene as int)) < isize::MAX || events(
                old(self)@,
            ) < isize::MAX,
        ensures
            final(self).wf(),
            final(self)@ == with_increment(old(self)@, key, gene as nat),
            events(final(self)@) == events(old(self)@) + 1,
    {
        proof {
            lemma_events_increment(old(self)@, key, gene as nat);
        }
        let place = self.place_of(key);
        let ghost placed = self@;
        let ghost counters = self.counters@;
        proof {
            self.lemma_keys();
            lemma_position_of(keys_of(placed), key);
        }
        self.counters[place].increment(gene);
        proof {
            assert(self.counters@.len() == counters.len());
            assert(forall|i: int|
                0 <= i < counters.len() && i != place ==> self.counters@[i] == counters[i]);
            assert(self.counters@[place as int]@ == incremented(
                counts_at(old(self)@, key),
                gene as nat,
            ));
            assert(placed[place as int].0 == key);
            assert(self@ =~= placed.update(
                place as int,
                (key, incremented(counts_at(old(self)@, key), gene as nat)),
            ));
            old(self).lemma_keys();
            lemma_position_of(keys_of(old(self)@), key);
            assert(self@ =~= with_increment(old(self)@, key, gene as nat));
        }
    }

    /// Merges `other` into the counter at `key`.
    pub fn merge(&mut self, key: u64, other: &Genes)
        requires
            old(self).wf(),
            other.wf(),
            (forall|g: int|
                0 <= g < other@.len() && other@[g] is Some ==> count_of(
                    #[trigger] slot_at(counts_at(old(self)@, key), g),
                ) + count_of(other@[g]) <= isize::MAX) || events(old(self)@) + sum(other@)
                <= isize::MAX,
        ensures
            final(self).wf(),
            final(self)@ == with_merge(old(self)@, key, other@),
            events(final(self)@) == events(old(self)@) + sum(other@),
    {
        proof {
            lemma_events_merge(old(self)@, key, other@);
        }
        let place = self.place_of(key);
        let ghost placed = self@;
        let ghost counters = self.counters@;
        proof {
            self.lemma_keys();
            lemma_position_of(keys_of(placed), key);
        }
        self.counters[place].merge_from(other);
        proof {
            assert(self.counters@.len() == counters.len());
            assert(forall|i: int|
                0 <= i < counters.len() && i != place ==> self.counters@[i] == counters[i]);
            assert(self.counters@[place as int]@ == merged(counts_at(old(self)@, key), other@));
            assert(placed[place as int].0 == key);
            assert(self@ =~= placed.update(
                place as int,
                (key, merged(counts_at(old(self)@, key), other@)),
            ));
            old(self).lemma_keys();
            lemma_position_of(keys_of(old(self)@), key);
            assert(self@ =~= with_merge(old(self)@, key, other@));
        }
    }

    /// Puts `genes` at `key`, in place of the counter that may stand there.
    pub fn set(&mut self, key: u64, genes: Genes)
        requires
            old(self).wf(),
            genes.wf(),
        ensures
            final(self).wf(),
            final(self)@ == put(old(self)@, key, genes@),
    {
        proof {
            self.lemma_keys();
            lemma_position_of(self.index@, key);
        }
        let place = self.index.intern(key);
        if place == self.counters.len() {
            self.counters.push(genes);
        } else {
            self.counters.set(place, genes);
        }
        proof {
            assert(keys_of(self@) =~= self.index@);
            assert(self@ =~= put(old(self)@, key, genes@));
        }
    }

    /// Every count of a well-formed table fits the machine's signed word.
    pub proof fn lemma_counts_fit(&self, i: int, g: int)
        requires
            self.wf(),
            0 <= i < self@.len(),
        ensures
            count_of(slot_at(self@[i].1, g)) <= isize::MAX,
    {
        assert(self.counters@[i].wf());
    }

    /// The number of events that the table holds, or `None` where it exceeds
    /// the machine word.
    pub fn checked_events(&self) -> (res: Option<usize>)
        requires
            self.wf(),
        ensures
            match res {
                Some(total) => total == events(self@),
                None => events(self@) > usize::MAX,
            },
    {
        let mut acc: usize = 0;
        let mut i: usize = 0;
        assert(self@.take(0) =~= Entries::empty());
        while i < self.counters.len()
            invariant
                self.wf(),
                i <= self@.len(),
                acc == events(self@.take(i as int)),
            decreases self@.len() - i,
        {
            proof {
                lemma_events_take_step(self@, i as int);
                lemma_events_take_le(self@, i + 1);
                assert(self.counters@[i as int].wf());
            }
            match self.counters[i].checked_total() {
                Some(total) => {
                    if total > usize::MAX - acc {
                        return None;
                    }
                    acc = acc + total;
                },
                None => {
                    return None;
                },
            }
            i += 1;
        }
        assert(self@.take(i as int) =~= self@);
        Some(acc)
    }

    /// The number of keys.
    pub fn len(&self) -> (res: usize)
        requires
            self.wf(),
        ensures
            res == self@.len(),
    {
        self.index.len()
    }

    /// The key at place `i`.
    pub fn key_at(&self, i: usize) -> (res: u64)
        requires
            self.wf(),
            i < self@.len(),
        ensures
            res == self@[i as int].0,
    {
        self.index.key(i)
    }

    /// The counter at place `i`.
    pub fn genes_at(&self, i: usize) -> (res: &Genes)
        requires
            self.wf(),
            i < self@.len(),
        ensures
            res@ == self@[i as int].1,
            res.wf(),
    {
        &self.counters[i]
    }

    /// The counter at `key`, where the key was seen.
    pub fn get(&self, key: u64) -> (res: Option<&Genes>)
        requires
            self.wf(),
        ensures
            match res {
                Some(genes) => position_of(keys_of(self@), key) is Some && genes@ == counts_at(
                    self@,
                    key,
                ) && genes.wf(),
                None => position_of(keys_of(self@), key) is None,
            },
    {
        proof {
            self.lemma_keys();
            lemma_position_of(self.index@, key);
        }
        match self.index.find(key) {
            Some(place) => Some(&self.counters[place]),
            None => None,
        }
    }

    /// The keys of a well-formed table are distinct.
    pub proof fn lemma_distinct_keys(&self)
        requires
            self.wf(),
        ensures
            distinct(keys_of(self@)),
    {
        self.lemma_keys();
    }
}

/// The number of events that a table holds, over all keys and genes.
pub open spec fn events(entries: Entries) -> nat
    decreases entries.len(),
{
    if entries.len() == 0 {
        0
    } else {
        events(entries.drop_last()) + sum(entries.last().1)
    }
}

/// Changing the counter in one place changes the events by the difference of
/// the two counters.
pub proof fn lemma_events_update(entries: Entries, i: int, entry: (u64, Slots))
    requires
        0 <= i < entries.len(),
    ensures
        events(entries.update(i, entry)) + sum(entries[i].1) == events(entries) + sum(entry.1),
    decreases entries.len(),
{
    let changed = entries.update(i, entry);
    if i == entries.len() - 1 {
        assert(changed.drop_last() =~= entries.drop_last());
    } else {
        assert(changed.drop_last() =~= entries.drop_last().update(i, entry));
        lemma_events_update(entries.drop_last(), i, entry);
    }
}

/// No counter holds more events than the whole table.
pub proof fn lemma_events_bound(entries: Entries, i: int)
    requires
        0 <= i < entries.len(),
    ensures
        sum(entries[i].1) <= events(entries),
    decreases entries.len(),
{
    if i < entries.len() - 1 {
        lemma_events_bound(entries.drop_last(), i);
    }
}

/// Putting a counter at a key changes the events by the difference to the
/// counter that stood there.
pub proof fn lemma_events_put(entries: Entries, key: u64, counts: Slots)
    ensures
        events(put(entries, key, counts)) + sum(counts_at(entries, key)) == events(entries) + sum(
            counts,
        ),
        sum(counts_at(entries, key)) <= events(entries),
{
    lemma_position_of(keys_of(entries), key);
    match position_of(keys_of(entries), key) {
        Some(i) => {
            lemma_events_update(entries, i, (key, counts));
            lemma_events_bound(entries, i);
        },
        None => {
            assert(put(entries, key, counts).drop_last() =~= entries);
        },
    }
}

/// An increment adds one event, and no slot holds more than the events of the table.
pub proof fn lemma_events_increment(entries: Entries, key: u64, gene: nat)
    ensures
        events(with_increment(entries, key, gene)) == events(entries) + 1,
        count_of(slot_at(counts_at(entries, key), gene as int)) <= events(entries),
{
    lemma_events_put(entries, key, incremented(counts_at(entries, key), gene));
    lemma_incremented_total(counts_at(entries, key), gene);
    lemma_slot_le_sum(counts_at(entries, key), gene as int);
}

/// A merge adds the events of the counter that is merged in.
pub proof fn lemma_events_merge(entries: Entries, key: u64, other: Slots)
    ensures
        events(with_merge(entries, key, other)) == events(entries) + sum(other),
        forall|g: int|
            count_of(#[trigger] slot_at(counts_at(entries, key), g)) + count_of(slot_at(other, g))
                <= events(entries) + sum(other),
{
    lemma_events_put(entries, key, merged(counts_at(entries, key), other));
    lemma_merge_total(counts_at(entries, key), other);
    assert forall|g: int|
        count_of(#[trigger] slot_at(counts_at(entries, key), g)) + count_of(slot_at(other, g))
            <= events(entries) + sum(other) by {
        lemma_slot_le_sum(counts_at(entries, key), g);
        lemma_slot_le_sum(other, g);
    }
}

/// The events of the first `i + 1` entries are those of the first `i` and of entry `i`.
pub proof fn lemma_events_take_step(entries: Entries, i: int)
    requires
        0 <= i < entries.len(),
    ensures
        events(entries.take(i + 1)) == events(entries.take(i)) + sum(entries[i].1),
{
    assert(entries.take(i + 1).drop_last() =~= entries.take(i));
}

/// The first entries hold no more events than all of them.
pub proof fn lemma_events_take_le(entries: Entries, i: int)
    requires
        0 <= i <= entries.len(),
    ensures
        events(entries.take(i)) <= events(entries),
    decreases entries.len() - i,
{
    if i == entries.len() {
        assert(entries.take(i) =~= entries);
    } else {
        lemma_events_take_step(entries, i);
        lemma_events_take_le(entries, i + 1);
    }
}

/// Putting a counter at a key makes the key present with that counter, and
/// leaves every other key as it was.
pub proof fn lemma_put(entries: Entries, key: u64, counts: Slots, other: u64)
    ensures
        position_of(keys_of(put(entries, key, counts)), key) is Some,
        counts_at(put(entries, key, counts), key) == counts,
        other != key ==> position_of(keys_of(put(entries, key, counts)), other) == position_of(
            keys_of(entries),
            other,
        ),
        other != key ==> counts_at(put(entries, key, counts), other) == counts_at(entries, other),
{
    let after = put(entries, key, counts);
    lemma_position_of(keys_of(entries), key);
    lemma_position_of(keys_of(entries), other);
    lemma_position_of(keys_of(after), key);
    lemma_position_of(keys_of(after), other);
    match position_of(keys_of(entries), key) {
        Some(i) => {
            assert(keys_of(after) =~= keys_of(entries));
        },
        None => {
            assert(keys_of(after) =~= keys_of(entries).push(key));
            assert(keys_of(after)[entries.len() as int] == key);
            assert forall|j: int| 0 <= j < entries.len() implies keys_of(after)[j] == keys_of(
                entries,
            )[j] by {}
        },
    }
}

} // verus!
