//! The pairwise leak table: for each ordered pair of taxa, how often a read of
//! the first was assigned to a gene of the second.

use crate::common::{ids_of, sam_to_ids, FromTo, MalformedIdentifier, Sam, TinyTaxID};
use crate::gene_table::{
    counts_at, events, keys_of, lemma_events_bound, lemma_events_increment, lemma_events_merge,
    lemma_events_take_le, lemma_events_take_step, put, with_increment, with_merge, Entries,
    GeneTable,
};
use crate::genes::{sum, Slots};
use crate::norm_genes::undefined_in;
use crate::norm_table::{credited, NormTable, Profiles};
use crate::normalization::{lemma_normalized_proper, proper};
use crate::ranking::{lemma_same_items, rank, rank_le, Rank};
use crate::table::{lemma_position_unique, position_of};
pub use crate::genes::Genes;
use vstd::prelude::*;

verus! {

/// An ordered pair of taxa: a read that stems from `from` was assigned to `to`.
#[derive(Debug, Copy, Clone, PartialEq, PartialOrd, Eq, Hash, Structural)]
pub struct LeakagePair {
    pub from: TinyTaxID,
    pub to: TinyTaxID,
}

/// The key under which a pair is kept: `from` in the high half, `to` in the low.
pub open spec fn pair_key(pair: LeakagePair) -> u64 {
    (pair.from * 0x1_0000_0000 + pair.to) as u64
}

/// The pair that is kept under `key`.
pub open spec fn pair_of(key: u64) -> LeakagePair {
    LeakagePair { from: (key / 0x1_0000_0000) as u32, to: (key % 0x1_0000_0000) as u32 }
}

impl LeakagePair {
    /// The pair of a read's origin and the reference it was assigned to.
    pub fn from(origin: TinyTaxID, reference: TinyTaxID) -> (res: Self)
        ensures
            res.from == origin,
            res.to == reference,
    {
        Self { from: origin, to: reference }
    }

    /// The key under which this pair is kept.
    pub fn key(&self) -> (res: u64)
        ensures
            res == pair_key(*self),
            pair_of(res) == *self,
    {
        (self.from as u64) * 0x1_0000_0000u64 + (self.to as u64)
    }

    /// The pair that is kept under `key`.
    pub fn of_key(key: u64) -> (res: Self)
        ensures
            res == pair_of(key),
            pair_key(res) == key,
    {
        Self { from: (key / 0x1_0000_0000u64) as u32, to: (key % 0x1_0000_0000u64) as u32 }
    }
}

/// What becomes of a record in the pairwise table.
#[derive(Debug, Clone, Copy, PartialEq, Eq, Structural)]
pub enum Filing {
    /// The record names no reference: it is not counted.
    Unaligned,
    /// The mapping quality is below the threshold: it is not counted.
    LowQuality,
    /// A name of the record is malformed: the record is rejected.
    Malformed(MalformedIdentifier),
    /// The read was assigned to its own gene: the table holds no such reads.
    Correct(FromTo),
    /// The read was assigned to the same gene of another taxon.
    Leak(FromTo),
    /// The read was assigned to another gene.
    CrossGeneLeak(FromTo),
}

/// What becomes of `sam` at the threshold `min_mapq`. An unaligned record is
/// left out whatever else it holds, then one of low quality, and only then
/// are the names read. A record whose reference gene leaves no room for a
/// slot is rejected like one with a malformed name.
pub open spec fn verdict_of(sam: Sam, min_mapq: u8) -> Filing {
    if sam.rname@ == seq!['*'] {
        Filing::Unaligned
    } else if sam.mapq < min_mapq {
        Filing::LowQuality
    } else {
        match ids_of(sam.qname@, sam.rname@) {
            Err(e) => Filing::Malformed(e),
            Ok(ids) => if ids.reference_gene >= usize::MAX {
                Filing::Malformed(MalformedIdentifier::GeneTooLarge)
            } else if ids.correct() {
                Filing::Correct(ids)
            } else if ids.query_gene != ids.reference_gene {
                Filing::CrossGeneLeak(ids)
            } else {
                Filing::Leak(ids)
            },
        }
    }
}

/// The identities under which a verdict files an event, if it files one.
pub open spec fn leak_of(verdict: Filing) -> Option<FromTo> {
    match verdict {
        Filing::Leak(ids) => Some(ids),
        Filing::CrossGeneLeak(ids) => Some(ids),
        _ => None,
    }
}

/// The table once `verdict` is applied to it: a leak is one more event at the
/// pair of the read's taxon and the reference's taxon, on the reference's
/// gene; nothing else changes the table.
pub open spec fn filed(entries: Entries, verdict: Filing) -> Entries {
    match leak_of(verdict) {
        Some(ids) => with_increment(
            entries,
            pair_key(LeakagePair { from: ids.query, to: ids.reference }),
            ids.reference_gene as nat,
        ),
        None => entries,
    }
}

/// The table that one pass over `records` builds from an empty one.
pub open spec fn table_of(records: Seq<Sam>, min_mapq: u8) -> Entries
    decreases records.len(),
{
    if records.len() == 0 {
        Seq::empty()
    } else {
        filed(table_of(records.drop_last(), min_mapq), verdict_of(records.last(), min_mapq))
    }
}

/// How many of `records` are rejected for a malformed name.
pub open spec fn malformed_in(records: Seq<Sam>, min_mapq: u8) -> nat
    decreases records.len(),
{
    if records.len() == 0 {
        0
    } else {
        malformed_in(records.drop_last(), min_mapq) + if verdict_of(records.last(), min_mapq)
            is Malformed {
            1nat
        } else {
            0nat
        }
    }
}

/// Decides what becomes of a record.
pub fn classify(sam: &Sam, min_mapq: u8) -> (res: Filing)
    ensures
        res == verdict_of(*sam, min_mapq),
{
    if !sam.is_aligned() {
        return Filing::Unaligned;
    }
    if sam.mapq < min_mapq {
        return Filing::LowQuality;
    }
    match sam_to_ids(sam) {
        Err(e) => Filing::Malformed(e),
        Ok(ids) => if ids.reference_gene as usize >= usize::MAX {
            Filing::Malformed(MalformedIdentifier::GeneTooLarge)
        } else if ids.is_correct() {
            Filing::Correct(ids)
        } else if ids.query_gene != ids.reference_gene {
            Filing::CrossGeneLeak(ids)
        } else {
            Filing::Leak(ids)
        },
    }
}

/// The outgoing totals of a table: for each taxon, in the order in which it
/// first appears as the origin of a pair, the merge of the counters of all
/// pairs that lead away from it.
pub open spec fn outgoing_of(entries: Entries) -> Entries
    decreases entries.len(),
{
    if entries.len() == 0 {
        Seq::empty()
    } else {
        with_merge(
            outgoing_of(entries.drop_last()),
            pair_of(entries.last().0).from as u64,
            entries.last().1,
        )
    }
}

/// The incoming leaks of a table, normalized by `totals`: for each taxon, in
/// the order in which it first appears as the target of a pair, the ratios of
/// the counts of every pair that leads to it, each count measured against the
/// total of the pair's origin.
pub open spec fn normalized_with(
    entries: Entries,
    totals: Entries,
) -> Profiles
    decreases entries.len(),
{
    if entries.len() == 0 {
        Seq::empty()
    } else {
        credited(
            normalized_with(entries.drop_last(), totals),
            pair_of(entries.last().0).to as u64,
            entries.last().1,
            counts_at(totals, pair_of(entries.last().0).from as u64),
        )
    }
}

/// How many counts of a table have no defined ratio against `totals`.
pub open spec fn undefined_with(
    entries: Entries,
    totals: Entries,
) -> nat
    decreases entries.len(),
{
    if entries.len() == 0 {
        0
    } else {
        undefined_with(entries.drop_last(), totals) + undefined_in(
            entries.last().1,
            counts_at(totals, pair_of(entries.last().0).from as u64),
            entries.last().1.len(),
        )
    }
}

/// `n`, or the largest machine word where `n` is larger.
pub open spec fn capped(n: nat) -> usize {
    if n > usize::MAX {
        usize::MAX
    } else {
        n as usize
    }
}

/// Whether the pair `a` may stand before `b` in a report: pairs are grouped by
/// their target, smallest first; within a target the pair with fewer events
/// comes first, and among equal ones the smaller origin.
pub open spec fn pair_precedes(a: (u64, Slots), b: (u64, Slots)) -> bool {
    pair_of(a.0).to < pair_of(b.0).to || (pair_of(a.0).to == pair_of(b.0).to && (sum(a.1) < sum(
        b.1,
    ) || (sum(a.1) == sum(b.1) && pair_of(a.0).from <= pair_of(b.0).from)))
}

/// What the pair in place `place` is ranked by.
pub open spec fn pair_rank(entry: (u64, Slots), place: int) -> Rank {
    Rank {
        major: pair_of(entry.0).to as usize,
        minor: sum(entry.1) as usize,
        tie: pair_of(entry.0).from as usize,
        item: place as usize,
    }
}

/// Whether the pair with key `key` stands in the report `res`.
pub open spec fn lists_pair(res: Seq<(LeakagePair, &Genes)>, key: u64) -> bool {
    exists|k: int| 0 <= k < res.len() && pair_key((#[trigger] res[k]).0) == key
}

/// The pairwise leak table. Its view lists, in the order in which the pairs
/// were first seen, each pair by its key with the counter of its events.
pub struct Leakage {
    table: GeneTable,
}

impl View for Leakage {
    type V = Entries;

    closed spec fn view(&self) -> Entries {
        self.table@
    }
}

impl Default for Leakage {
    fn default() -> (res: Self)
        ensures
            res.wf(),
            res@ == Entries::empty(),
            events(res@) == 0,
    {
        Leakage { table: GeneTable::new() }
    }
}

impl Leakage {
    /// The table is well formed: no pair stands twice, and every counter is valid.
    pub closed spec fn wf(&self) -> bool {
        self.table.wf()
    }

    /// The counter of `pair`, empty where the pair holds no event.
    pub open spec fn counts(&self, pair: LeakagePair) -> Slots {
        counts_at(self@, pair_key(pair))
    }

    /// Takes one record into the table and says what became of it.
    pub fn record(&mut self, sam: &Sam, min_mapq: u8) -> (res: Filing)
        requires
            old(self).wf(),
            events(old(self)@) < isize::MAX,
        ensures
            final(self).wf(),
            res == verdict_of(*sam, min_mapq),
            final(self)@ == filed(old(self)@, res),
            events(final(self)@) == events(old(self)@) + if leak_of(res) is Some {
                1nat
            } else {
                0nat
            },
    {
        let verdict = classify(sam, min_mapq);
        match verdict {
            Filing::Leak(ids) => self.file(ids),
            Filing::CrossGeneLeak(ids) => self.file(ids),
            _ => {},
        }
        verdict
    }

    /// Counts one leak under the identities `ids`.
    fn file(&mut self, ids: FromTo)
        requires
            old(self).wf(),
            events(old(self)@) < isize::MAX,
            ids.reference_gene < usize::MAX,
        ensures
            final(self).wf(),
            final(self)@ == with_increment(
                old(self)@,
                pair_key(LeakagePair { from: ids.query, to: ids.reference }),
                ids.reference_gene as nat,
            ),
            events(final(self)@) == events(old(self)@) + 1,
    {
        let key = LeakagePair::from(ids.query, ids.reference).key();
        proof {
            lemma_events_increment(self@, key, ids.reference_gene as nat);
        }
        self.table.increment(key, ids.reference_gene as usize);
    }

    /// Puts `genes` at `pair`, in place of the counter that may stand there.
    pub fn insert(&mut self, pair: LeakagePair, genes: Genes)
        requires
            old(self).wf(),
            genes.wf(),
        ensures
            final(self).wf(),
            final(self)@ == put(old(self)@, pair_key(pair), genes@),
    {
        self.table.set(pair.key(), genes);
    }

    /// The keys of the pairs of a well-formed table are distinct.
    pub proof fn lemma_distinct_pairs(&self)
        requires
            self.wf(),
        ensures
            crate::table::distinct(keys_of(self@)),
    {
        self.table.lemma_distinct_keys();
    }

    /// Every count of a well-formed table fits the machine's signed word.
    pub proof fn lemma_counts_fit(&self, i: int, g: int)
        requires
            self.wf(),
            0 <= i < self@.len(),
        ensures
            crate::genes::count_of(crate::genes::slot_at(self@[i].1, g)) <= isize::MAX,
    {
        self.table.lemma_counts_fit(i, g);
    }

    /// The number of events that the table holds, or `None` where it exceeds
    /// the machine word.
    pub fn checked_events(&self) -> (res: Option<usize>)
        requires
            self.wf(),
        ensures
            match res {
                Some(total) => total == events(self@),
                None => events(self@) > usize::MAX,
            },
    {
        self.table.checked_events()
    }

    /// The number of pairs in the table.
    pub fn len(&self) -> (res: usize)
        requires
            self.wf(),
        ensures
            res == self@.len(),
    {
        self.table.len()
    }

    /// The pair in place `i`, in the order in which the pairs were first seen.
    pub fn pair_at(&self, i: usize) -> (res: LeakagePair)
        requires
            self.wf(),
            i < self@.len(),
        ensures
            res == pair_of(self@[i as int].0),
            pair_key(res) == self@[i as int].0,
    {
        LeakagePair::of_key(self.table.key_at(i))
    }

    /// The counter in place `i`.
    pub fn genes_at(&self, i: usize) -> (res: &Genes)
        requires
            self.wf(),
            i < self@.len(),
        ensures
            res@ == self@[i as int].1,
            res.wf(),
    {
        self.table.genes_at(i)
    }

    /// The counter of `pair`, where the table holds the pair.
    pub fn get(&self, pair: LeakagePair) -> (res: Option<&Genes>)
        requires
            self.wf(),
        ensures
            match res {
                Some(genes) => position_of(keys_of(self@), pair_key(pair)) is Some && genes@
                    == self.counts(pair) && genes.wf(),
                None => position_of(keys_of(self@), pair_key(pair)) is None,
            },
    {
        self.table.get(pair.key())
    }

    /// The outgoing totals: for each taxon that is the origin of a pair, the
    /// merge of the counters of all pairs that lead away from it, keyed by
    /// the taxon.
    pub fn total_outgoing(&self) -> (res: GeneTable)
        requires
            self.wf(),
            events(self@) <= isize::MAX,
        ensures
            res.wf(),
            res@ == outgoing_of(self@),
            events(res@) == events(self@),
    {
        let mut result = GeneTable::new();
        let mut i: usize = 0;
        assert(self@.take(0) =~= Entries::empty());
        while i < self.len()
            invariant
                self.wf(),
                i <= self@.len(),
                events(self@) <= isize::MAX,
                result.wf(),
                result@ == outgoing_of(self@.take(i as int)),
                events(result@) == events(self@.take(i as int)),
            decreases self@.len() - i,
        {
            let from = self.pair_at(i).from;
            let genes = self.genes_at(i);
            proof {
                assert(self@.take(i + 1).drop_last() =~= self@.take(i as int));
                assert(self@.take(i + 1).last() == self@[i as int]);
                lemma_events_take_step(self@, i as int);
                lemma_events_take_le(self@, i + 1);
                lemma_events_merge(result@, from as u64, genes@);
            }
            result.merge(from as u64, genes);
            i += 1;
        }
        assert(self@.take(i as int) =~= self@);
        result
    }

    /// The normalized incoming leaks: every pair's counts are measured, gene
    /// by gene, against the outgoing total of the pair's origin, and the
    /// ratios are credited to the pair's target. A count whose total is unset
    /// or zero has no ratio: it is skipped, and the second result counts such
    /// counts (up to the largest machine word). No ratio divides by zero, and
    /// none exceeds one.
    pub fn normalize_incoming(&self) -> (res: (NormTable, usize))
        requires
            self.wf(),
            events(self@) <= isize::MAX,
        ensures
            res.0.wf(),
            res.0@ == normalized_with(self@, outgoing_of(self@)),
            res.1 == capped(undefined_with(self@, outgoing_of(self@))),
            forall|i: int| 0 <= i < res.0@.len() ==> proper((#[trigger] res.0@[i]).2),
    {
        let totals = self.total_outgoing();
        let unset = Genes::default();
        let mut result = NormTable::new();
        let mut undefined: usize = 0;
        let mut i: usize = 0;
        assert(self@.take(0) =~= Entries::empty());
        while i < self.len()
            invariant
                self.wf(),
                i <= self@.len(),
                totals.wf(),
                totals@ == outgoing_of(self@),
                unset.wf(),
                unset@ == Slots::empty(),
                result.wf(),
                result@ == normalized_with(self@.take(i as int), totals@),
                undefined == capped(undefined_with(self@.take(i as int), totals@)),
            decreases self@.len() - i,
        {
            let pair = self.pair_at(i);
            let genes = self.genes_at(i);
            proof {
                assert(self@.take(i + 1).drop_last() =~= self@.take(i as int));
                assert(self@.take(i + 1).last() == self@[i as int]);
            }
            let normalizer = match totals.get(pair.from as u64) {
                Some(total) => total,
                None => &unset,
            };
            let skipped = result.credit(pair.to as u64, genes, normalizer);
            undefined = if skipped > usize::MAX - undefined {
                usize::MAX
            } else {
                undefined + skipped
            };
            i += 1;
        }
        assert(self@.take(i as int) =~= self@);
        proof {
            assert forall|i: int| 0 <= i < result@.len() implies proper(
                (#[trigger] result@[i]).2,
            ) by {
                lemma_normalized_proper(self@, i);
            }
        }
        (result, undefined)
    }

    /// All pairs with their counters, in the order of a report: by target,
    /// then by the number of events, then by origin.
    pub fn ranked_pairs(&self) -> (res: Vec<(LeakagePair, &Genes)>)
        requires
            self.wf(),
            events(self@) <= usize::MAX,
        ensures
            res@.len() == self@.len(),
            forall|k: int|
                0 <= k < res@.len() ==> position_of(
                    keys_of(self@),
                    pair_key((#[trigger] res@[k]).0),
                ) is Some && res@[k].1@ == self.counts(res@[k].0),
            forall|p: int| 0 <= p < self@.len() ==> lists_pair(res@, (#[trigger] self@[p]).0),
            forall|i: int, j: int|
                0 <= i < j < res@.len() ==> pair_precedes(
                    (pair_key(res@[i].0), res@[i].1@),
                    (pair_key(res@[j].0), res@[j].1@),
                ),
    {
        let mut ranks: Vec<Rank> = Vec::new();
        let mut place: usize = 0;
        while place < self.len()
            invariant
                self.wf(),
                events(self@) <= usize::MAX,
                place <= self@.len(),
                ranks@.len() == place,
                forall|p: int| 0 <= p < place ==> #[trigger] ranks@[p] == pair_rank(self@[p], p),
            decreases self@.len() - place,
        {
            let pair = self.pair_at(place);
            proof {
                lemma_events_bound(self@, place as int);
            }
            let total = self.genes_at(place).total();
            ranks.push(
                Rank {
                    major: pair.to as usize,
                    minor: total,
                    tie: pair.from as usize,
                    item: place,
                },
            );
            place += 1;
        }
        let sorted = rank(&ranks);
        proof {
            lemma_same_items(sorted@, ranks@);
            self.table.lemma_distinct_keys();
        }
        let mut res: Vec<(LeakagePair, &Genes)> = Vec::new();
        let mut k: usize = 0;
        while k < sorted.len()
            invariant
                self.wf(),
                k <= sorted@.len(),
                sorted@.len() == self@.len(),
                ranks@.len() == self@.len(),
                forall|p: int|
                    0 <= p < ranks@.len() ==> #[trigger] ranks@[p] == pair_rank(self@[p], p),
                forall|i: int| 0 <= i < sorted@.len() ==> ranks@.contains(#[trigger] sorted@[i]),
                res@.len() == k,
                forall|i: int|
                    0 <= i < k ==> (#[trigger] sorted@[i]).item < self@.len() && pair_key(
                        res@[i].0,
                    ) == self@[sorted@[i].item as int].0 && res@[i].1@
                        == self@[sorted@[i].item as int].1,
            decreases sorted@.len() - k,
        {
            let item = sorted[k].item;
            proof {
                assert(ranks@.contains(sorted@[k as int]));
                let p = choose|p: int| 0 <= p < ranks@.len() && ranks@[p] == sorted@[k as int];
                assert(ranks@[p] == pair_rank(self@[p], p));
            }
            res.push((self.pair_at(item), self.genes_at(item)));
            k += 1;
        }
        proof {
            assert forall|i: int| 0 <= i < res@.len() implies position_of(
                keys_of(self@),
                pair_key((#[trigger] res@[i]).0),
            ) is Some && res@[i].1@ == self.counts(res@[i].0) by {
                assert(sorted@[i].item < self@.len());
                lemma_position_unique(keys_of(self@), sorted@[i].item as int);
            }
            assert forall|p: int| 0 <= p < self@.len() implies lists_pair(
                res@,
                (#[trigger] self@[p]).0,
            ) by {
                assert(ranks@[p] == pair_rank(self@[p], p));
                assert(sorted@.contains(ranks@[p]));
                let k = choose|k: int| 0 <= k < sorted@.len() && sorted@[k] == ranks@[p];
                assert(sorted@[k].item < self@.len());
                assert(pair_key(res@[k].0) == self@[p].0);
            }
            assert forall|i: int, j: int| 0 <= i < j < res@.len() implies pair_precedes(
                (pair_key(res@[i].0), res@[i].1@),
                (pair_key(res@[j].0), res@[j].1@),
            ) by {
                assert(rank_le(sorted@[i], sorted@[j]));
                assert(ranks@.contains(sorted@[i]));
                assert(ranks@.contains(sorted@[j]));
                let p = choose|p: int| 0 <= p < ranks@.len() && ranks@[p] == sorted@[i];
                let q = choose|q: int| 0 <= q < ranks@.len() && ranks@[q] == sorted@[j];
                assert(ranks@[p] == pair_rank(self@[p], p));
                assert(ranks@[q] == pair_rank(self@[q], q));
                lemma_events_bound(self@, p);
                lemma_events_bound(self@, q);
                assert(sorted@[i].item == p);
                assert(sorted@[j].item == q);
                assert(pair_key(res@[i].0) == self@[p].0 && res@[i].1@ == self@[p].1);
                assert(pair_key(res@[j].0) == self@[q].0 && res@[j].1@ == self@[q].1);
            }
        }
        res
    }

    /// Builds the table in one pass over `records`, and counts the records
    /// that were rejected for a malformed name. Such a record is skipped:
    /// it changes no counter, and the pass goes on.
    pub fn from_sam(records: &[Sam], min_mapq: u8) -> (res: (Self, usize))
        requires
            records@.len() <= isize::MAX,
        ensures
            res.0.wf(),
            res.0@ == table_of(records@, min_mapq),
            res.1 == malformed_in(records@, min_mapq),
            events(res.0@) <= records@.len(),
    {
        let mut table = Leakage::default();
        let mut malformed: usize = 0;
        let mut i: usize = 0;
        assert(records@.take(0) =~= Seq::<Sam>::empty());
        while i < records.len()
            invariant
                i <= records@.len(),
                records@.len() <= isize::MAX,
                table.wf(),
                table@ == table_of(records@.take(i as int), min_mapq),
                malformed == malformed_in(records@.take(i as int), min_mapq),
                events(table@) <= i,
                malformed <= i,
            decreases records@.len() - i,
        {
            let ghost before = table@;
            assert(records@.take(i + 1).drop_last() =~= records@.take(i as int));
            assert(records@.take(i + 1).last() == records@[i as int]);
            let verdict = table.record(&records[i], min_mapq);
            proof {
                if leak_of(verdict) is Some {
                    let ids = leak_of(verdict)->0;
                    lemma_events_increment(
                        before,
                        pair_key(LeakagePair { from: ids.query, to: ids.reference }),
                        ids.reference_gene as nat,
                    );
                }
            }
            if let Filing::Malformed(_) = verdict {
                malformed += 1;
            }
            i += 1;
        }
        assert(records@.take(i as int) =~= records@);
        (table, malformed)
    }
}

} // verus!
