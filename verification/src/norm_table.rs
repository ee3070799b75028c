//! Normalized counters per taxon, in the order in which the taxa first appear.

use crate::genes::{Genes, Slots};
use crate::norm_genes::{marked, ratios_of, sound, undefined_in, NormGenes, Ratio};
use crate::table::{lemma_position_of, position_of, KeyIndex};
use vstd::prelude::*;

verus! {

/// The entries of a table of normalized counters in its order: each key with
/// the touched genes and the ratios of its counter.
pub type Profiles = Seq<(u64, Seq<bool>, Seq<Ratio>)>;

/// The keys of a table of normalized counters, in its order.
pub open spec fn norm_keys(entries: Profiles) -> Seq<u64> {
    Seq::new(entries.len(), |i: int| entries[i].0)
}

/// The table after the ratios of `counts` to `normalizer` were credited to the
/// counter at `key`, which starts empty where the key is new.
pub open spec fn credited(
    entries: Profiles,
    key: u64,
    counts: Slots,
    normalizer: Slots,
) -> Profiles {
    let ratios = ratios_of(counts, normalizer, counts.len());
    match position_of(norm_keys(entries), key) {
        Some(i) => entries.update(i, (key, marked(entries[i].1, counts), entries[i].2 + ratios)),
        None => entries.push((key, marked(Seq::empty(), counts), ratios)),
    }
}

/// A normalized counter for each key, the keys in the order of their first
/// appearance. The view lists each key with the touched genes and the ratios
/// of its counter.
pub struct NormTable {
    index: KeyIndex,
    profiles: Vec<NormGenes>,
}

impl View for NormTable {
    type V = Profiles;

    closed spec fn view(&self) -> Profiles {
        Seq::new(
            self.index@.len(),
            |i: int| (self.index@[i], self.profiles@[i].touched@, self.profiles@[i].terms@),
        )
    }
}

impl NormTable {
    /// Every key has its counter, and every counter is well formed.
    pub closed spec fn wf(&self) -> bool {
        &&& self.index.wf()
        &&& self.profiles@.len() == self.index@.len()
        &&& forall|i: int| 0 <= i < self.profiles@.len() ==> (#[trigger] self.profiles@[i]).wf()
    }

    /// In a well-formed table no ratio divides by zero.
    pub proof fn lemma_sound(&self, i: int)
        requires
            self.wf(),
            0 <= i < self@.len(),
        ensures
            sound(self@[i].1, self@[i].2),
    {
        assert(self.profiles@[i].wf());
    }

    /// A table without keys.
    pub fn new() -> (res: Self)
        ensures
            res.wf(),
            res@ == Profiles::empty(),
    {
        let res = NormTable { index: KeyIndex::new(), profiles: Vec::new() };
        assert(res@ =~= Profiles::empty());
        res
    }

    /// Credits the ratios of `counts` to `normalizer` to the counter at `key`,
    /// and returns how many genes of `counts` had no defined ratio.
    pub fn credit(&mut self, key: u64, counts: &Genes, normalizer: &Genes) -> (undefined: usize)
        requires
            old(self).wf(),
            counts.wf(),
            normalizer.wf(),
        ensures
            final(self).wf(),
            final(self)@ == credited(old(self)@, key, counts@, normalizer@),
            undefined == undefined_in(counts@, normalizer@, counts@.len()),
    {
        proof {
            assert(norm_keys(self@) =~= self.index@);
            lemma_position_of(self.index@, key);
        }
        let place = self.index.intern(key);
        if place == self.profiles.len() {
            self.profiles.push(NormGenes::default());
        }
        let ghost profiles = self.profiles@;
        let undefined = self.profiles[place].merge_normalized_from_counts(counts, normalizer);
        proof {
            assert(self.profiles@.len() == profiles.len());
            assert(forall|i: int|
                0 <= i < profiles.len() && i != place ==> self.profiles@[i] == profiles[i]);
            assert(self@ =~= credited(old(self)@, key, counts@, normalizer@));
        }
        undefined
    }

    /// The number of keys.
    pub fn len(&self) -> (res: usize)
        requires
            self.wf(),
        ensures
            res == self@.len(),
    {
        self.index.len()
    }

    /// The key at place `i`.
    pub fn key_at(&self, i: usize) -> (res: u64)
        requires
            self.wf(),
            i < self@.len(),
        ensures
            res == self@[i as int].0,
    {
        self.index.key(i)
    }

    /// The counter at place `i`.
    pub fn profile_at(&self, i: usize) -> (res: &NormGenes)
        requires
            self.wf(),
            i < self@.len(),
        ensures
            res.touched@ == self@[i as int].1,
            res.terms@ == self@[i as int].2,
            res.wf(),
    {
        &self.profiles[i]
    }
}

} // verus!
