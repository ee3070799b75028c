//! An index from keys to dense positions, handed out in the order in which the
//! keys are first seen.

use std::collections::HashMap;
use vstd::prelude::*;
use vstd::std_specs::hash::group_hash_axioms;

verus! {

/// Where `key` stands in `keys`, if it does.
pub open spec fn position_of(keys: Seq<u64>, key: u64) -> Option<int>
    decreases keys.len(),
{
    if keys.len() == 0 {
        None
    } else if keys.last() == key && position_of(keys.drop_last(), key) is None {
        Some(keys.len() - 1)
    } else {
        position_of(keys.drop_last(), key)
    }
}

/// Whether no key stands twice in `keys`.
pub open spec fn distinct(keys: Seq<u64>) -> bool {
    forall|i: int, j: int| 0 <= i < j < keys.len() ==> keys[i] != keys[j]
}

/// `position_of` finds the first place of a key, and finds every key that is there.
pub proof fn lemma_position_of(keys: Seq<u64>, key: u64)
    ensures
        match position_of(keys, key) {
            Some(i) => 0 <= i < keys.len() && keys[i] == key && forall|j: int|
                0 <= j < i ==> keys[j] != key,
            None => forall|j: int| 0 <= j < keys.len() ==> keys[j] != key,
        },
    decreases keys.len(),
{
    if keys.len() > 0 {
        lemma_position_of(keys.drop_last(), key);
        assert forall|j: int| 0 <= j < keys.len() - 1 implies keys[j] == keys.drop_last()[j] by {}
    }
}

/// In a sequence of distinct keys, a key is found exactly where it stands.
pub proof fn lemma_position_unique(keys: Seq<u64>, i: int)
    requires
        distinct(keys),
        0 <= i < keys.len(),
    ensures
        position_of(keys, keys[i]) == Some(i),
{
    lemma_position_of(keys, keys[i]);
}

/// The distinct keys seen so far, in the order of their first appearance, with
/// a hash map from each key to its place.
pub struct KeyIndex {
    keys: Vec<u64>,
    places: HashMap<u64, usize>,
}

impl View for KeyIndex {
    type V = Seq<u64>;

    closed spec fn view(&self) -> Seq<u64> {
        self.keys@
    }
}

impl KeyIndex {
    /// The hash map holds the place of every key, and of nothing else.
    pub closed spec fn wf(&self) -> bool {
        &&& forall|i: int|
            0 <= i < self.keys@.len() ==> self.places@.contains_key(#[trigger] self.keys@[i])
                && self.places@[self.keys@[i]] == i
        &&& forall|k: u64| #[trigger]
            self.places@.contains_key(k) ==> self.places@[k] < self.keys@.len()
                && self.keys@[self.places@[k] as int] == k
    }

    /// The keys of a well-formed index are distinct.
    pub proof fn lemma_distinct(&self)
        requires
            self.wf(),
        ensures
            distinct(self@),
    {
    }

    /// An index without keys.
    pub fn new() -> (res: Self)
        ensures
            res.wf(),
            res@ == Seq::<u64>::empty(),
    {
        KeyIndex { keys: Vec::new(), places: HashMap::new() }
    }

    /// The number of keys.
    pub fn len(&self) -> (res: usize)
        ensures
            res == self@.len(),
    {
        self.keys.len()
    }

    /// The key at place `i`.
    pub fn key(&self, i: usize) -> (res: u64)
        requires
            i < self@.len(),
        ensures
            res == self@[i as int],
    {
        self.keys[i]
    }

    /// The place of `key`, if it was seen.
    pub fn find(&self, key: u64) -> (res: Option<usize>)
        requires
            self.wf(),
        ensures
            match res {
                Some(i) => position_of(self@, key) == Some(i as int),
                None => position_of(self@, key) is None,
            },
    {
        broadcast use group_hash_axioms;

        proof {
            lemma_position_of(self@, key);
        }
        match self.places.get(&key) {
            Some(place) => {
                proof {
                    lemma_position_unique(self@, *place as int);
                }
                Some(*place)
            },
            None => None,
        }
    }

    /// The place of `key`, which is a new one at the end where the key was
    /// not seen before.
    pub fn intern(&mut self, key: u64) -> (res: usize)
        requires
            old(self).wf(),
        ensures
            final(self).wf(),
            match position_of(old(self)@, key) {
                Some(i) => final(self)@ == old(self)@ && res == i,
                None => final(self)@ == old(self)@.push(key) && res == old(self)@.len(),
            },
            position_of(final(self)@, key) == Some(res as int),
    {
        broadcast use group_hash_axioms;

        match self.find(key) {
            Some(place) => place,
            None => {
                let place = self.keys.len();
                proof {
                    lemma_position_of(old(self)@, key);
                }
                self.keys.push(key);
                self.places.insert(key, place);
                proof {
                    assert forall|i: int|
                        0 <= i < self.keys@.len() implies self.places@.contains_key(
                        #[trigger] self.keys@[i],
                    ) && self.places@[self.keys@[i]] == i by {
                        if i < place {
                            assert(self.keys@[i] == old(self).keys@[i]);
                        }
                    }
                    assert(distinct(self.keys@));
                    lemma_position_unique(self.keys@, place as int);
                }
                place
            },
        }
    }
}

} // verus!
