//! One pass over alignment records into the per-taxon ledger, and the two
//! passes of the fractional scheme: the totals of reads per query gene, and
//! the credits that each read is worth against them.

use crate::common::{identity_of, taxid_geneid, GeneID, MalformedIdentifier, Sam, TaxID};
use crate::gene_table::{
    counts_at, events, lemma_events_increment, lemma_put, with_increment, Entries, GeneTable,
};
use crate::genes::{count_of, incremented, lemma_incremented_slot, slot_at, Slots};
use crate::mask_genes::{credited_at, ledger_sum, Account, GeneLeaks, Ledger};
use crate::normalization::lemma_counts_at_bound;
use vstd::prelude::*;

verus! {

/// The identities of a record in full: where the read stems from (query) and
/// where it was assigned to (reference).
#[derive(Debug, Clone, Copy, PartialEq, Eq, Structural)]
pub struct Identities {
    pub query_taxon: TaxID,
    pub query_gene: GeneID,
    pub reference_taxon: TaxID,
    pub reference_gene: GeneID,
}

impl Identities {
    /// Whether the read was assigned to the gene that it stems from.
    pub open spec fn correct(&self) -> bool {
        self.query_taxon == self.reference_taxon && self.query_gene == self.reference_gene
    }
}

/// The identities that the names of a record encode, the query's name read
/// first, or what is wrong with the first name that is malformed.
pub open spec fn identities_of(qname: Seq<char>, rname: Seq<char>) -> Result<
    Identities,
    MalformedIdentifier,
> {
    match identity_of(qname) {
        Err(e) => Err(e),
        Ok((query_taxon, query_gene)) => match identity_of(rname) {
            Err(e) => Err(e),
            Ok((reference_taxon, reference_gene)) => Ok(
                Identities {
                    query_taxon: query_taxon as usize,
                    query_gene: query_gene as usize,
                    reference_taxon: reference_taxon as usize,
                    reference_gene: reference_gene as usize,
                },
            ),
        },
    }
}

/// Resolves the identities of a record from its query and reference names.
pub fn resolve(sam: &Sam) -> (res: Result<Identities, MalformedIdentifier>)
    ensures
        res == identities_of(sam.qname@, sam.rname@),
{
    let (query_taxon, query_gene) = match taxid_geneid(sam.qname.as_str()) {
        Ok(identity) => identity,
        Err(e) => {
            return Err(e);
        },
    };
    let (reference_taxon, reference_gene) = match taxid_geneid(sam.rname.as_str()) {
        Ok(identity) => identity,
        Err(e) => {
            return Err(e);
        },
    };
    Ok(Identities { query_taxon, query_gene, reference_taxon, reference_gene })
}

/// What a record is counted as.
#[derive(Debug, Clone, Copy, PartialEq, Eq, Structural)]
pub enum Assignment {
    /// The record names no reference: it is not counted.
    Unaligned,
    /// The mapping quality is below the threshold: it is not counted.
    LowQuality,
    /// A name of the record is malformed: the record is rejected.
    Malformed(MalformedIdentifier),
    /// The read was assigned to the gene that it stems from.
    Correct(Identities),
    /// The read was assigned to another gene or taxon.
    Incorrect(Identities),
}

/// What `sam` is counted as at the threshold `min_mapq`. An unaligned record
/// is left out whatever else it holds, then one of low quality, and only then
/// are the names read. A record with a gene that leaves no room for a slot
/// is rejected like one with a malformed name.
pub open spec fn assignment_of(sam: Sam, min_mapq: u8) -> Assignment {
    if sam.rname@ == seq!['*'] {
        Assignment::Unaligned
    } else if sam.mapq < min_mapq {
        Assignment::LowQuality
    } else {
        match identities_of(sam.qname@, sam.rname@) {
            Err(e) => Assignment::Malformed(e),
            Ok(ids) => if ids.query_gene >= usize::MAX || ids.reference_gene >= usize::MAX {
                Assignment::Malformed(MalformedIdentifier::GeneTooLarge)
            } else if ids.correct() {
                Assignment::Correct(ids)
            } else {
                Assignment::Incorrect(ids)
            },
        }
    }
}

/// Decides what a record is counted as.
pub fn assign(sam: &Sam, min_mapq: u8) -> (res: Assignment)
    ensures
        res == assignment_of(*sam, min_mapq),
{
    if !sam.is_aligned() {
        return Assignment::Unaligned;
    }
    if sam.mapq < min_mapq {
        return Assignment::LowQuality;
    }
    match resolve(sam) {
        Err(e) => Assignment::Malformed(e),
        Ok(ids) => if ids.query_gene >= usize::MAX || ids.reference_gene >= usize::MAX {
            Assignment::Malformed(MalformedIdentifier::GeneTooLarge)
        } else if ids.query_taxon == ids.reference_taxon && ids.query_gene
            == ids.reference_gene {
            Assignment::Correct(ids)
        } else {
            Assignment::Incorrect(ids)
        },
    }
}

/// The identities of a record that is counted.
pub open spec fn counted(assignment: Assignment) -> Option<Identities> {
    match assignment {
        Assignment::Correct(ids) => Some(ids),
        Assignment::Incorrect(ids) => Some(ids),
        _ => None,
    }
}

/// The ledger after a record was entered: a correct read is one more correct
/// event at its gene; an incorrect one is one more incoming event at the gene
/// that it was assigned to, and one more outgoing event at the gene that it
/// stems from. Nothing else changes the ledger.
pub open spec fn entered(entries: Ledger, assignment: Assignment) -> Ledger {
    match assignment {
        Assignment::Correct(ids) => credited_at(
            entries,
            ids.query_taxon,
            ids.query_gene as nat,
            Account::Correct,
            1,
        ),
        Assignment::Incorrect(ids) => credited_at(
            credited_at(
                entries,
                ids.reference_taxon,
                ids.reference_gene as nat,
                Account::Incoming,
                1,
            ),
            ids.query_taxon,
            ids.query_gene as nat,
            Account::Outgoing,
            1,
        ),
        _ => entries,
    }
}

/// The ledger that one pass over `records` builds from an empty one.
pub open spec fn ledger_of(records: Seq<Sam>, min_mapq: u8) -> Ledger
    decreases records.len(),
{
    if records.len() == 0 {
        Seq::empty()
    } else {
        entered(ledger_of(records.drop_last(), min_mapq), assignment_of(records.last(), min_mapq))
    }
}

/// How many of `records` are rejected for a malformed name.
pub open spec fn rejected_in(records: Seq<Sam>, min_mapq: u8) -> nat
    decreases records.len(),
{
    if records.len() == 0 {
        0
    } else {
        rejected_in(records.drop_last(), min_mapq) + if assignment_of(records.last(), min_mapq)
            is Malformed {
            1nat
        } else {
            0nat
        }
    }
}

/// Whether every account of the ledger sums to no more than `limit`.
pub open spec fn sums_within(entries: Ledger, limit: nat) -> bool {
    forall|account: Account| #[trigger] ledger_sum(entries, account) <= limit
}

/// Enters one record into the ledger and says what it was counted as.
pub fn enter(ledger: &mut GeneLeaks, sam: &Sam, min_mapq: u8) -> (res: Assignment)
    requires
        old(ledger).wf(),
        sums_within(old(ledger)@, (usize::MAX - 1) as nat),
    ensures
        final(ledger).wf(),
        res == assignment_of(*sam, min_mapq),
        final(ledger)@ == entered(old(ledger)@, res),
        forall|limit: nat|
            sums_within(old(ledger)@, limit) ==> sums_within(final(ledger)@, limit + 1),
{
    let assignment = assign(sam, min_mapq);
    let ghost before = ledger@;
    match assignment {
        Assignment::Correct(ids) => {
            assert(ledger_sum(before, Account::Correct) <= usize::MAX - 1);
            ledger.count_correct(ids.query_taxon, ids.query_gene, 1);
        },
        Assignment::Incorrect(ids) => {
            assert(ledger_sum(before, Account::Incoming) <= usize::MAX - 1);
            assert(ledger_sum(before, Account::Outgoing) <= usize::MAX - 1);
            ledger.count_incorrect(ids.reference_taxon, ids.reference_gene, true, 1);
            assert(ledger_sum(ledger@, Account::Outgoing) <= usize::MAX - 1);
            ledger.count_incorrect(ids.query_taxon, ids.query_gene, false, 1);
        },
        _ => {},
    }
    proof {
        assert forall|limit: nat| sums_within(before, limit) implies sums_within(
            ledger@,
            limit + 1,
        ) by {
            assert forall|account: Account| #[trigger]
                ledger_sum(ledger@, account) <= limit + 1 by {
                assert(ledger_sum(before, account) <= limit);
            }
        }
    }
    assignment
}

/// Builds the ledger in one pass over `records`, every event counted as one,
/// and counts the records that were rejected for a malformed name. Such a
/// record is skipped: it changes no count, and the pass goes on.
pub fn get_gene_leaks(records: &[Sam], min_mapq: u8) -> (res: (GeneLeaks, usize))
    ensures
        res.0.wf(),
        res.0@ == ledger_of(records@, min_mapq),
        res.1 == rejected_in(records@, min_mapq),
        sums_within(res.0@, records@.len()),
{
    let mut ledger = GeneLeaks::default();
    let mut rejected: usize = 0;
    let mut i: usize = 0;
    assert(records@.take(0) =~= Seq::<Sam>::empty());
    while i < records.len()
        invariant
            i <= records@.len(),
            ledger.wf(),
            ledger@ == ledger_of(records@.take(i as int), min_mapq),
            rejected == rejected_in(records@.take(i as int), min_mapq),
            rejected <= i,
            sums_within(ledger@, i as nat),
        decreases records@.len() - i,
    {
        assert(records@.take(i + 1).drop_last() =~= records@.take(i as int));
        assert(records@.take(i + 1).last() == records@[i as int]);
        assert forall|account: Account| #[trigger]
            ledger_sum(ledger@, account) <= usize::MAX - 1 by {
            assert(ledger_sum(ledger@, account) <= i);
        }
        let assignment = enter(&mut ledger, &records[i], min_mapq);
        if let Assignment::Malformed(_) = assignment {
            rejected += 1;
        }
        i += 1;
    }
    assert(records@.take(i as int) =~= records@);
    (ledger, rejected)
}

/// Whether `sam` passes the filter: it is aligned, and its quality is no
/// lower than `min_mapq`.
pub open spec fn passes(sam: Sam, min_mapq: u8) -> bool {
    sam.rname@ != seq!['*'] && sam.mapq >= min_mapq
}

/// The taxon and gene under which `sam` counts as a read: those that its
/// query name encodes, where the record passes the filter and the gene leaves
/// room for a slot. The reference name is not read here.
pub open spec fn query_of(sam: Sam, min_mapq: u8) -> Option<(nat, nat)> {
    if passes(sam, min_mapq) {
        match identity_of(sam.qname@) {
            Ok((taxon, gene)) => if gene < usize::MAX {
                Some((taxon, gene))
            } else {
                None
            },
            Err(_) => None,
        }
    } else {
        None
    }
}

/// The totals after one record: one more read of the gene under which the
/// record counts, where it counts.
pub open spec fn tallied(entries: Entries, sam: Sam, min_mapq: u8) -> Entries {
    match query_of(sam, min_mapq) {
        Some((taxon, gene)) => with_increment(entries, taxon as u64, gene),
        None => entries,
    }
}

/// The number of reads per query taxon and gene among `records`.
pub open spec fn totals_of(records: Seq<Sam>, min_mapq: u8) -> Entries
    decreases records.len(),
{
    if records.len() == 0 {
        Seq::empty()
    } else {
        tallied(totals_of(records.drop_last(), min_mapq), records.last(), min_mapq)
    }
}

/// Whether `sam` passes the filter but cannot be counted: its query name is
/// malformed, or its gene leaves no room for a slot.
pub open spec fn unreadable(sam: Sam, min_mapq: u8) -> bool {
    passes(sam, min_mapq) && query_of(sam, min_mapq) is None
}

/// How many of `records` pass the filter with a malformed query name.
pub open spec fn unreadable_in(records: Seq<Sam>, min_mapq: u8) -> nat
    decreases records.len(),
{
    if records.len() == 0 {
        0
    } else {
        unreadable_in(records.drop_last(), min_mapq) + if unreadable(records.last(), min_mapq) {
            1nat
        } else {
            0nat
        }
    }
}

/// Counts one record into the totals of reads, and says whether it was
/// skipped for a malformed query name.
pub fn tally_read(totals: &mut GeneTable, sam: &Sam, min_mapq: u8) -> (skipped: bool)
    requires
        old(totals).wf(),
        events(old(totals)@) < isize::MAX,
    ensures
        final(totals).wf(),
        final(totals)@ == tallied(old(totals)@, *sam, min_mapq),
        skipped == unreadable(*sam, min_mapq),
        events(final(totals)@) <= events(old(totals)@) + 1,
{
    if sam.is_aligned() && sam.mapq >= min_mapq {
        match taxid_geneid(sam.qname.as_str()) {
            Ok((taxon, gene)) => {
                if gene < usize::MAX {
                    totals.increment(taxon as u64, gene);
                    false
                } else {
                    true
                }
            },
            Err(_) => true,
        }
    } else {
        false
    }
}

/// The first pass of the fractional scheme: counts, for each query taxon and
/// gene, the reads that pass the filter, keyed by the taxon. The second result
/// counts the records that were skipped for a malformed query name.
pub fn get_species_total(records: &[Sam], min_mapq: u8) -> (res: (GeneTable, usize))
    requires
        records@.len() <= isize::MAX,
    ensures
        res.0.wf(),
        res.0@ == totals_of(records@, min_mapq),
        res.1 == unreadable_in(records@, min_mapq),
        events(res.0@) <= records@.len(),
{
    let mut totals = GeneTable::new();
    let mut skipped: usize = 0;
    let mut i: usize = 0;
    assert(records@.take(0) =~= Seq::<Sam>::empty());
    while i < records.len()
        invariant
            i <= records@.len(),
            records@.len() <= isize::MAX,
            totals.wf(),
            totals@ == totals_of(records@.take(i as int), min_mapq),
            skipped == unreadable_in(records@.take(i as int), min_mapq),
            skipped <= i,
            events(totals@) <= i,
        decreases records@.len() - i,
    {
        assert(records@.take(i + 1).drop_last() =~= records@.take(i as int));
        assert(records@.take(i + 1).last() == records@[i as int]);
        if tally_read(&mut totals, &records[i], min_mapq) {
            skipped += 1;
        }
        i += 1;
    }
    assert(records@.take(i as int) =~= records@);
    (totals, skipped)
}

/// One credit of the fractional scheme: `1 / normalizer` for `account` of
/// gene `gene` of `taxon`.
#[derive(Debug, Clone, Copy, PartialEq, Eq, Structural)]
pub struct Credit {
    pub taxon: TaxID,
    pub gene: GeneID,
    pub account: Account,
    pub normalizer: usize,
}

/// The total of reads of gene `gene` of `taxon`, where it can be divided by:
/// a total that is missing or zero is none.
pub open spec fn total_at(totals: Entries, taxon: TaxID, gene: GeneID) -> Option<usize> {
    match slot_at(counts_at(totals, taxon as u64), gene as int) {
        Some(n) => if 0 < n <= usize::MAX {
            Some(n as usize)
        } else {
            None
        },
        None => None,
    }
}

/// The credits of one record against `totals`. A correct read is worth one
/// share of its own gene's total, to that gene's correct count. An incorrect
/// read is worth one share of its own gene's total, to the incoming count of
/// the gene it was assigned to, and one share of that gene's total, to the
/// outgoing count of its own gene. A share of a total that is missing or zero
/// is undefined, and is left out.
pub open spec fn credits_for(assignment: Assignment, totals: Entries) -> Seq<Credit> {
    match assignment {
        Assignment::Correct(ids) => match total_at(totals, ids.query_taxon, ids.query_gene) {
            Some(n) => seq![
                Credit {
                    taxon: ids.query_taxon,
                    gene: ids.query_gene,
                    account: Account::Correct,
                    normalizer: n,
                },
            ],
            None => Seq::empty(),
        },
        Assignment::Incorrect(ids) => {
            let incoming = match total_at(totals, ids.query_taxon, ids.query_gene) {
                Some(n) => seq![
                    Credit {
                        taxon: ids.reference_taxon,
                        gene: ids.reference_gene,
                        account: Account::Incoming,
                        normalizer: n,
                    },
                ],
                None => Seq::empty(),
            };
            let outgoing = match total_at(totals, ids.reference_taxon, ids.reference_gene) {
                Some(n) => seq![
                    Credit {
                        taxon: ids.query_taxon,
                        gene: ids.query_gene,
                        account: Account::Outgoing,
                        normalizer: n,
                    },
                ],
                None => Seq::empty(),
            };
            incoming + outgoing
        },
        _ => Seq::empty(),
    }
}

/// How many shares of one record are undefined against `totals`.
pub open spec fn undefined_for(assignment: Assignment, totals: Entries) -> nat {
    match assignment {
        Assignment::Correct(ids) => if total_at(totals, ids.query_taxon, ids.query_gene) is None {
            1
        } else {
            0
        },
        Assignment::Incorrect(ids) => (if total_at(totals, ids.query_taxon, ids.query_gene)
            is None {
            1nat
        } else {
            0nat
        }) + (if total_at(totals, ids.reference_taxon, ids.reference_gene) is None {
            1nat
        } else {
            0nat
        }),
        _ => 0,
    }
}

/// The total of reads of gene `gene` of `taxon`, where it can be divided by.
pub fn lookup_total(totals: &GeneTable, taxon: TaxID, gene: GeneID) -> (res: Option<usize>)
    requires
        totals.wf(),
    ensures
        res == total_at(totals@, taxon, gene),
        res is Some ==> res->0 > 0,
{
    match totals.get(taxon as u64) {
        Some(genes) => match genes.get(gene) {
            Some(n) => if n > 0 {
                Some(n)
            } else {
                None
            },
            None => None,
        },
        None => None,
    }
}

/// The credits of one record against `totals`, and the number of its shares
/// that are undefined.
pub fn fractional_credits(
    assignment: &Assignment,
    totals: &GeneTable,
) -> (res: (Vec<Credit>, usize))
    requires
        totals.wf(),
    ensures
        res.0@ == credits_for(*assignment, totals@),
        res.1 == undefined_for(*assignment, totals@),
        forall|i: int| 0 <= i < res.0@.len() ==> (#[trigger] res.0@[i]).normalizer > 0,
{
    let mut credits: Vec<Credit> = Vec::new();
    let mut undefined: usize = 0;
    match assignment {
        Assignment::Correct(ids) => {
            match lookup_total(totals, ids.query_taxon, ids.query_gene) {
                Some(n) => credits.push(
                    Credit {
                        taxon: ids.query_taxon,
                        gene: ids.query_gene,
                        account: Account::Correct,
                        normalizer: n,
                    },
                ),
                None => {
                    undefined += 1;
                },
            }
        },
        Assignment::Incorrect(ids) => {
            match lookup_total(totals, ids.query_taxon, ids.query_gene) {
                Some(n) => credits.push(
                    Credit {
                        taxon: ids.reference_taxon,
                        gene: ids.reference_gene,
                        account: Account::Incoming,
                        normalizer: n,
                    },
                ),
                None => {
                    undefined += 1;
                },
            }
            match lookup_total(totals, ids.reference_taxon, ids.reference_gene) {
                Some(n) => credits.push(
                    Credit {
                        taxon: ids.query_taxon,
                        gene: ids.query_gene,
                        account: Account::Outgoing,
                        normalizer: n,
                    },
                ),
                None => {
                    undefined += 1;
                },
            }
        },
        _ => {},
    }
    assert(credits@ =~= credits_for(*assignment, totals@));
    (credits, undefined)
}

/// The credits of all of `records` against `totals`, record by record.
pub open spec fn credits_of(
    records: Seq<Sam>,
    min_mapq: u8,
    totals: Entries,
) -> Seq<Credit>
    decreases records.len(),
{
    if records.len() == 0 {
        Seq::empty()
    } else {
        credits_of(records.drop_last(), min_mapq, totals) + credits_for(
            assignment_of(records.last(), min_mapq),
            totals,
        )
    }
}

/// How many of `records` have a share that is undefined against `totals`.
pub open spec fn undefined_among(
    records: Seq<Sam>,
    min_mapq: u8,
    totals: Entries,
) -> nat
    decreases records.len(),
{
    if records.len() == 0 {
        0
    } else {
        undefined_among(records.drop_last(), min_mapq, totals) + if undefined_for(
            assignment_of(records.last(), min_mapq),
            totals,
        ) > 0 {
            1nat
        } else {
            0nat
        }
    }
}

/// What the second pass of the fractional scheme finds.
pub struct FractionalLeaks {
    /// The credits of all records, record by record.
    pub credits: Vec<Credit>,
    /// How many records had a share that was undefined and left out.
    pub undefined: usize,
    /// How many records were rejected for a malformed name.
    pub rejected: usize,
}

/// The second pass of the fractional scheme: the credits of every record
/// against `totals`, the totals of reads per query gene. A share of a total
/// that is missing or zero is never divided by: it is left out and counted. A
/// record with a malformed name is skipped and counted.
pub fn get_normalized_gene_leaks(records: &[Sam], min_mapq: u8, totals: &GeneTable) -> (res:
    FractionalLeaks)
    requires
        totals.wf(),
    ensures
        res.credits@ == credits_of(records@, min_mapq, totals@),
        res.undefined == undefined_among(records@, min_mapq, totals@),
        res.rejected == rejected_in(records@, min_mapq),
        forall|i: int| 0 <= i < res.credits@.len() ==> (#[trigger] res.credits@[i]).normalizer > 0,
{
    let mut credits: Vec<Credit> = Vec::new();
    let mut undefined: usize = 0;
    let mut rejected: usize = 0;
    let mut i: usize = 0;
    assert(records@.take(0) =~= Seq::<Sam>::empty());
    while i < records.len()
        invariant
            i <= records@.len(),
            totals.wf(),
            credits@ == credits_of(records@.take(i as int), min_mapq, totals@),
            undefined == undefined_among(records@.take(i as int), min_mapq, totals@),
            rejected == rejected_in(records@.take(i as int), min_mapq),
            undefined <= i,
            rejected <= i,
            forall|j: int| 0 <= j < credits@.len() ==> (#[trigger] credits@[j]).normalizer > 0,
        decreases records@.len() - i,
    {
        assert(records@.take(i + 1).drop_last() =~= records@.take(i as int));
        assert(records@.take(i + 1).last() == records@[i as int]);
        let assignment = assign(&records[i], min_mapq);
        let (mut shares, missing) = fractional_credits(&assignment, totals);
        let ghost before = credits@;
        let ghost added = shares@;
        credits.append(&mut shares);
        assert(credits@ =~= before + added);
        if missing > 0 {
            undefined += 1;
        }
        if let Assignment::Malformed(_) = assignment {
            rejected += 1;
        }
        i += 1;
    }
    assert(records@.take(i as int) =~= records@);
    FractionalLeaks { credits, undefined, rejected }
}

/// The number of reads that `entries` holds for gene `gene` at `key`.
pub open spec fn tally(entries: Entries, key: u64, gene: int) -> nat {
    count_of(slot_at(counts_at(entries, key), gene))
}

/// One more read raises the tally of its own gene by one, and no other tally.
pub proof fn lemma_tally_increment(
    entries: Entries,
    key: u64,
    gene: nat,
    other_key: u64,
    other_gene: int,
)
    ensures
        tally(with_increment(entries, key, gene), other_key, other_gene) == tally(
            entries,
            other_key,
            other_gene,
        ) + if other_key == key && other_gene == gene {
            1nat
        } else {
            0nat
        },
{
    lemma_put(entries, key, incremented(counts_at(entries, key), gene), other_key);
    lemma_incremented_slot(counts_at(entries, key), gene, other_gene);
}

/// The totals of reads hold no more reads than there are records.
pub proof fn lemma_totals_events(records: Seq<Sam>, min_mapq: u8)
    ensures
        events(totals_of(records, min_mapq)) <= records.len(),
    decreases records.len(),
{
    if records.len() > 0 {
        lemma_totals_events(records.drop_last(), min_mapq);
        let before = totals_of(records.drop_last(), min_mapq);
        let sam = records.last();
        match query_of(sam, min_mapq) {
            Some((taxon, gene)) => {
                lemma_events_increment(before, taxon as u64, gene);
            },
            None => {},
        }
    }
}

/// In the totals of the reads of `records`, the total of the query gene of
/// every counted record is defined: the record itself is among its reads. So
/// where the second pass runs over the records of the first, the share of a
/// read in its own gene is never undefined.
pub proof fn lemma_query_total_defined(records: Seq<Sam>, min_mapq: u8, i: int)
    requires
        0 <= i < records.len(),
        records.len() <= usize::MAX,
        counted(assignment_of(records[i], min_mapq)) is Some,
    ensures
        total_at(
            totals_of(records, min_mapq),
            counted(assignment_of(records[i], min_mapq))->0.query_taxon,
            counted(assignment_of(records[i], min_mapq))->0.query_gene,
        ) is Some,
{
    let ids = counted(assignment_of(records[i], min_mapq))->0;
    let totals = totals_of(records, min_mapq);
    lemma_tally_counted(records, min_mapq, i);
    lemma_totals_events(records, min_mapq);
    lemma_counts_at_bound(totals, ids.query_taxon as u64, ids.query_gene as int);
}

/// The tally of the query gene of a counted record is at least one.
pub proof fn lemma_tally_counted(records: Seq<Sam>, min_mapq: u8, i: int)
    requires
        0 <= i < records.len(),
        counted(assignment_of(records[i], min_mapq)) is Some,
    ensures
        tally(
            totals_of(records, min_mapq),
            counted(assignment_of(records[i], min_mapq))->0.query_taxon as u64,
            counted(assignment_of(records[i], min_mapq))->0.query_gene as int,
        ) >= 1,
    decreases records.len(),
{
    let ids = counted(assignment_of(records[i], min_mapq))->0;
    let before = totals_of(records.drop_last(), min_mapq);
    let sam = records.last();
    if i < records.len() - 1 {
        assert(records.drop_last()[i] == records[i]);
        lemma_tally_counted(records.drop_last(), min_mapq, i);
    }
    match query_of(sam, min_mapq) {
        Some((taxon, gene)) => {
            lemma_tally_increment(
                before,
                taxon as u64,
                gene,
                ids.query_taxon as u64,
                ids.query_gene as int,
            );
        },
        None => {},
    }
}

} // verus!
