//! What holds of the normalized incoming leaks of every pairwise table: each
//! count is measured against a total that holds it, so no ratio divides by
//! zero or exceeds one, and only a count of zero can be left without a ratio.

use crate::gene_table::{counts_at, events, keys_of, lemma_events_bound, lemma_put, put, Entries};
use crate::genes::{count_of, lemma_merged_slot, lemma_slot_le_sum, merged, slot_at, sum, Slots};
use crate::norm_genes::{ratio_at, ratios_of, undefined_at, Ratio};
use crate::norm_table::norm_keys;
use crate::pairwise_leakage::{normalized_with, outgoing_of, pair_of};
use crate::table::{lemma_position_of, position_of};
use vstd::prelude::*;

verus! {

/// Whether every count of `counts` is held by the slot of the same gene in
/// `normalizer`: that slot is set, no smaller, and fits a machine word.
pub open spec fn dominated(counts: Slots, normalizer: Slots) -> bool {
    forall|g: int|
        (#[trigger] slot_at(counts, g)) is Some ==> slot_at(normalizer, g) is Some && count_of(
            slot_at(counts, g),
        ) <= count_of(slot_at(normalizer, g)) <= usize::MAX
}

/// Whether no ratio of `terms` divides by zero or exceeds one.
pub open spec fn proper(terms: Seq<Ratio>) -> bool {
    forall|j: int|
        0 <= j < terms.len() ==> 0 < (#[trigger] terms[j]).normalizer && terms[j].count
            <= terms[j].normalizer
}

/// The outgoing total of a taxon holds the counts of every pair that leads
/// away from it: the total exists, and gene by gene it is set where the
/// pair's count is set, and no smaller.
pub proof fn lemma_outgoing_covers(entries: Entries, i: int, g: int)
    requires
        0 <= i < entries.len(),
    ensures
        position_of(keys_of(outgoing_of(entries)), pair_of(entries[i].0).from as u64) is Some,
        slot_at(entries[i].1, g) is Some ==> slot_at(
            counts_at(outgoing_of(entries), pair_of(entries[i].0).from as u64),
            g,
        ) is Some,
        count_of(slot_at(entries[i].1, g)) <= count_of(
            slot_at(counts_at(outgoing_of(entries), pair_of(entries[i].0).from as u64), g),
        ),
    decreases entries.len(),
{
    let origin = pair_of(entries[i].0).from as u64;
    let last_origin = pair_of(entries.last().0).from as u64;
    let before = outgoing_of(entries.drop_last());
    let total = merged(counts_at(before, last_origin), entries.last().1);
    assert(outgoing_of(entries) == put(before, last_origin, total));
    lemma_put(before, last_origin, total, origin);
    lemma_merged_slot(counts_at(before, last_origin), entries.last().1, g);
    if i < entries.len() - 1 {
        lemma_outgoing_covers(entries.drop_last(), i, g);
    }
}

/// The outgoing totals hold as many events as the table.
pub proof fn lemma_outgoing_events(entries: Entries)
    ensures
        events(outgoing_of(entries)) == events(entries),
    decreases entries.len(),
{
    if entries.len() > 0 {
        let last_origin = pair_of(entries.last().0).from as u64;
        let before = outgoing_of(entries.drop_last());
        lemma_outgoing_events(entries.drop_last());
        crate::gene_table::lemma_events_merge(before, last_origin, entries.last().1);
    }
}

/// No slot of a table's counters holds more events than the table.
pub proof fn lemma_counts_at_bound(entries: Entries, key: u64, g: int)
    ensures
        count_of(slot_at(counts_at(entries, key), g)) <= events(entries),
{
    lemma_position_of(keys_of(entries), key);
    lemma_slot_le_sum(counts_at(entries, key), g);
    if position_of(keys_of(entries), key) is Some {
        lemma_events_bound(entries, position_of(keys_of(entries), key)->0);
    }
}

/// In a table whose events fit a machine word, the counts of every pair are
/// dominated by the outgoing total of the pair's origin.
pub proof fn lemma_pair_dominated(entries: Entries, i: int)
    requires
        0 <= i < entries.len(),
        events(entries) <= usize::MAX,
    ensures
        dominated(
            entries[i].1,
            counts_at(outgoing_of(entries), pair_of(entries[i].0).from as u64),
        ),
{
    let origin = pair_of(entries[i].0).from as u64;
    lemma_outgoing_events(entries);
    assert forall|g: int| (#[trigger] slot_at(entries[i].1, g)) is Some implies slot_at(
        counts_at(outgoing_of(entries), origin),
        g,
    ) is Some && count_of(slot_at(entries[i].1, g)) <= count_of(
        slot_at(counts_at(outgoing_of(entries), origin), g),
    ) <= usize::MAX by {
        lemma_outgoing_covers(entries, i, g);
        lemma_counts_at_bound(outgoing_of(entries), origin, g);
    }
}

/// The ratios of dominated counts are proper.
pub proof fn lemma_ratios_proper(counts: Slots, normalizer: Slots, upto: nat)
    requires
        dominated(counts, normalizer),
    ensures
        proper(ratios_of(counts, normalizer, upto)),
    decreases upto,
{
    if upto > 0 {
        lemma_ratios_proper(counts, normalizer, (upto - 1) as nat);
        let g = upto - 1;
        if ratio_at(counts, normalizer, g) is Some {
            assert(slot_at(counts, g) is Some);
        }
    }
}

/// Of dominated counts, only one that is zero has no ratio.
pub proof fn lemma_undefined_is_zero(counts: Slots, normalizer: Slots, g: int)
    requires
        dominated(counts, normalizer),
        undefined_at(counts, normalizer, g),
    ensures
        slot_at(counts, g) == Some(0nat),
{
}

/// The normalized leaks of the first pairs of a table are proper where every
/// pair's counts are dominated by the total that they are measured against.
pub proof fn lemma_normalized_with_proper(
    entries: Entries,
    totals: Entries,
    i: int,
)
    requires
        forall|k: int|
            0 <= k < entries.len() ==> dominated(
                (#[trigger] entries[k]).1,
                counts_at(totals, pair_of(entries[k].0).from as u64),
            ),
        0 <= i < normalized_with(entries, totals).len(),
    ensures
        proper(normalized_with(entries, totals)[i].2),
    decreases entries.len(),
{
    if entries.len() > 0 {
        let before = normalized_with(entries.drop_last(), totals);
        let target = pair_of(entries.last().0).to as u64;
        let counts = entries.last().1;
        let normalizer = counts_at(totals, pair_of(entries.last().0).from as u64);
        let ratios = ratios_of(counts, normalizer, counts.len());
        assert(dominated(counts, normalizer));
        lemma_ratios_proper(counts, normalizer, counts.len());
        lemma_position_of(norm_keys(before), target);
        assert forall|k: int| 0 <= k < entries.drop_last().len() implies dominated(
            (#[trigger] entries.drop_last()[k]).1,
            counts_at(totals, pair_of(entries.drop_last()[k].0).from as u64),
        ) by {
            assert(entries.drop_last()[k] == entries[k]);
        }
        if i < before.len() {
            lemma_normalized_with_proper(entries.drop_last(), totals, i);
        }
    }
}

/// In the normalized incoming leaks of a table whose events fit a machine
/// word, no ratio divides by zero and none exceeds one: every value is a sum
/// of fractions between zero and one, so it is neither negative nor infinite.
pub proof fn lemma_normalized_proper(entries: Entries, i: int)
    requires
        events(entries) <= usize::MAX,
        0 <= i < normalized_with(entries, outgoing_of(entries)).len(),
    ensures
        proper(normalized_with(entries, outgoing_of(entries))[i].2),
{
    assert forall|k: int| 0 <= k < entries.len() implies dominated(
        (#[trigger] entries[k]).1,
        counts_at(outgoing_of(entries), pair_of(entries[k].0).from as u64),
    ) by {
        lemma_pair_dominated(entries, k);
    }
    lemma_normalized_with_proper(entries, outgoing_of(entries), i);
}

} // verus!
