use fix_gtdb_mg::common::{MalformedIdentifier, Sam};
use fix_gtdb_mg::mask_genes::{Account, GeneLeaks, Leaks, Species};
use fix_gtdb_mg::read_counts::{
    assign, enter, fractional_credits, get_gene_leaks, get_normalized_gene_leaks,
    get_species_total, lookup_total, resolve, Assignment, Credit, Identities,
};

fn read(qname: &str, rname: &str, mapq: u8) -> Sam {
    Sam {
        qname: qname.to_string(),
        flag: 0,
        rname: rname.to_string(),
        pos: 1,
        mapq,
        cigar: "10M".to_string(),
        rnext: "*".to_string(),
        pnext: 0,
        tlen: 0,
        seq: "ACGT".to_string(),
        qual: "IIII".to_string(),
    }
}

fn leaks(correct: usize, incoming: usize, outgoing: usize) -> Option<Leaks> {
    Some(Leaks { correct, incoming, outgoing })
}

#[test]
fn three_reads_fill_the_ledger() {
    let records =
        vec![read("1_2", "1_2", 10), read("1_2", "3_4", 10), read("3_4", "1_2", 10)];
    let (ledger, rejected) = get_gene_leaks(&records, 4);
    assert_eq!(rejected, 0);
    assert_eq!(ledger.len(), 2);
    let one = ledger.species(1).unwrap();
    assert_eq!(one.id, 1);
    assert_eq!(one.leaks, vec![None, None, leaks(1, 1, 1)]);
    let three = ledger.species(3).unwrap();
    assert_eq!(three.id, 3);
    assert_eq!(three.leaks, vec![None, None, None, None, leaks(0, 1, 1)]);
    assert_eq!(one.leaks[2].unwrap().correct, 1);
    assert_eq!(one.leaks[2].unwrap().incoming, 1);
    assert_eq!(three.leaks[4].unwrap().outgoing, 1);
    assert!(ledger.species(2).is_none());
}

#[test]
fn ledger_leaves_out_filtered_reads() {
    let records = vec![
        read("1_2", "1_2", 3),
        read("1_2", "3_4", 3),
        read("1_2", "*", 60),
        read("1_2", "*", 0),
    ];
    let (ledger, rejected) = get_gene_leaks(&records, 4);
    assert_eq!(ledger.len(), 0);
    assert_eq!(rejected, 0);
    assert_eq!(assign(&read("1_2", "1_2", 3), 4), Assignment::LowQuality);
    assert_eq!(assign(&read("1_2", "*", 60), 4), Assignment::Unaligned);
}

#[test]
fn ledger_skips_and_counts_malformed_names() {
    let records = vec![read("1_2", "1_2", 10), read("1-2", "1_2", 10), read("1_2", "_", 10)];
    let (ledger, rejected) = get_gene_leaks(&records, 4);
    assert_eq!(rejected, 2);
    assert_eq!(ledger.len(), 1);
    assert_eq!(ledger.species(1).unwrap().leaks, vec![None, None, leaks(1, 0, 0)]);
    assert_eq!(
        assign(&read("1-2", "1_2", 10), 4),
        Assignment::Malformed(MalformedIdentifier::MissingField)
    );
    assert_eq!(
        resolve(&read("1_2", "_", 10)),
        Err(MalformedIdentifier::InvalidTaxon)
    );
}

#[test]
fn identities_are_kept_in_full() {
    let ids = resolve(&read("4294967297_2", "3_4", 10)).unwrap();
    assert_eq!(
        ids,
        Identities {
            query_taxon: 4294967297,
            query_gene: 2,
            reference_taxon: 3,
            reference_gene: 4
        }
    );
    assert_eq!(assign(&read("4294967297_2", "1_2", 10), 4), Assignment::Incorrect(Identities {
        query_taxon: 4294967297,
        query_gene: 2,
        reference_taxon: 1,
        reference_gene: 2
    }));
}

#[test]
fn gene_without_room_for_a_slot_is_rejected() {
    let largest = format!("1_{}", usize::MAX);
    let records = vec![read(&largest, "1_2", 10), read("1_2", &largest, 10), read("1_2", "1_2", 10)];
    let (ledger, rejected) = get_gene_leaks(&records, 4);
    assert_eq!(rejected, 2);
    assert_eq!(ledger.len(), 1);
    assert_eq!(
        assign(&records[0], 4),
        Assignment::Malformed(MalformedIdentifier::GeneTooLarge)
    );
    let (totals, skipped) = get_species_total(&records, 4);
    assert_eq!(skipped, 1);
    assert_eq!(totals.get(1).unwrap().data, vec![-1, -1, 2]);
}

#[test]
fn enter_counts_one_read() {
    let mut ledger = GeneLeaks::default();
    let assignment = enter(&mut ledger, &read("5_1", "6_0", 10), 4);
    assert!(matches!(assignment, Assignment::Incorrect(_)));
    assert_eq!(ledger.len(), 2);
    assert_eq!(ledger.species_at(0).id, 6);
    assert_eq!(ledger.species_at(0).leaks, vec![leaks(0, 1, 0)]);
    assert_eq!(ledger.species_at(1).id, 5);
    assert_eq!(ledger.species_at(1).leaks, vec![None, leaks(0, 0, 1)]);
}

#[test]
fn species_grows_by_untouched_slots() {
    let mut species = Species::new(7);
    assert_eq!(species.id, 7);
    assert_eq!(species.num_genes(), 0);
    species.add_correct(3, 2);
    assert_eq!(species.leaks, vec![None, None, None, leaks(2, 0, 0)]);
    species.add_incorrect(1, true, 5);
    species.add_incorrect(1, false, 4);
    species.add_correct(3, 1);
    assert_eq!(species.leaks, vec![None, leaks(0, 5, 4), None, leaks(3, 0, 0)]);
    assert_eq!(species.num_genes(), 2);
}

#[test]
fn species_get_touches_without_shrinking() {
    let mut species = Species::new(1);
    species.add_correct(4, 1);
    let slot = species.get(1);
    assert_eq!(*slot, Leaks { correct: 0, incoming: 0, outgoing: 0 });
    slot.outgoing = 8;
    assert_eq!(species.leaks, vec![None, leaks(0, 0, 8), None, None, leaks(1, 0, 0)]);
    assert_eq!(species.get(4).correct, 1);
    assert_eq!(species.leaks.len(), 5);
}

fn sample() -> Species {
    let mut species = Species::new(12);
    species.add_correct(0, 3);
    species.add_incorrect(1, true, 2);
    species.add_incorrect(2, true, 7);
    species.add_incorrect(4, false, 1);
    species.add_incorrect(5, true, 1);
    species
}

#[test]
fn thresholded_queries() {
    let species = sample();
    assert_eq!(species.num_genes(), 5);
    assert_eq!(species.num_leaked_on_genes(0), 3);
    assert_eq!(species.num_leaked_on_genes(1), 2);
    assert_eq!(species.num_leaked_on_genes(2), 1);
    assert_eq!(species.num_leaked_on_genes(7), 0);
    assert_eq!(species.total_incoming_leaks(0), 10);
    assert_eq!(species.total_incoming_leaks(1), 9);
    assert_eq!(species.total_incoming_leaks(2), 7);
    assert_eq!(species.total_incoming_leaks(7), 0);
    assert_eq!(species.num_good_genes(0), 2);
    assert_eq!(species.num_good_genes(2), 4);
}

#[test]
fn good_and_leaked_genes_are_all_touched_genes() {
    let species = sample();
    for threshold in 0..10 {
        assert_eq!(
            species.num_good_genes(threshold) + species.num_leaked_on_genes(threshold),
            species.num_genes()
        );
    }
    let empty = Species::new(0);
    assert_eq!(empty.num_good_genes(0) + empty.num_leaked_on_genes(0), empty.num_genes());
    assert_eq!(
        species.num_good_genes(usize::MAX) + species.num_leaked_on_genes(usize::MAX),
        species.num_genes()
    );
}

#[test]
fn ledger_counts_per_taxon() {
    let mut ledger = GeneLeaks::default();
    ledger.count_correct(4, 1, 2);
    ledger.count_incorrect(9, 0, true, 3);
    ledger.count_incorrect(4, 1, false, 1);
    ledger.count_incorrect(4, 0, true, 6);
    assert_eq!(ledger.len(), 2);
    assert_eq!(ledger.species(4).unwrap().leaks, vec![leaks(0, 6, 0), leaks(2, 0, 1)]);
    assert_eq!(ledger.species(9).unwrap().leaks, vec![leaks(0, 3, 0)]);
}

#[test]
fn taxa_are_ranked_by_leaked_genes_then_reads_then_taxon() {
    let mut ledger = GeneLeaks::default();
    ledger.count_incorrect(30, 0, true, 5);
    ledger.count_incorrect(10, 0, true, 1);
    ledger.count_incorrect(10, 1, true, 1);
    ledger.count_incorrect(20, 3, true, 9);
    ledger.count_correct(40, 0, 100);
    ledger.count_incorrect(5, 2, true, 5);
    ledger.count_incorrect(50, 0, true, 1);
    ledger.count_incorrect(50, 7, true, 1);
    let ranking: Vec<usize> = ledger.top_incoming().iter().map(|(taxon, _)| *taxon).collect();
    assert_eq!(ranking, vec![10, 50, 20, 5, 30, 40]);
    for (taxon, species) in ledger.top_incoming() {
        assert_eq!(taxon, species.id);
    }
}

#[test]
fn species_report_has_three_lines() {
    let mut species = Species::new(12);
    species.add_correct(1, 3);
    species.add_incorrect(1, true, 2);
    species.add_incorrect(3, false, 7);
    assert_eq!(species.line(Account::Correct), "12\t1\t1\tcorrect\tNone\t3\tNone\t0");
    assert_eq!(
        species.report(),
        "12\t1\t1\tcorrect\tNone\t3\tNone\t0\n\
         12\t1\t1\tincoming\tNone\t2\tNone\t0\n\
         12\t1\t1\toutgoing\tNone\t0\tNone\t7"
    );
    assert_eq!(
        Species::new(3).report(),
        "3\t0\t0\tcorrect\n3\t0\t0\tincoming\n3\t0\t0\toutgoing"
    );
}

#[test]
fn totals_count_reads_per_query_gene() {
    let records = vec![
        read("1_2", "1_2", 10),
        read("1_2", "3_4", 10),
        read("3_4", "1_2", 10),
        read("1_0", "nonsense", 10),
        read("1_2", "3_4", 3),
        read("1_2", "*", 10),
        read("bad", "3_4", 10),
    ];
    let (totals, skipped) = get_species_total(&records, 4);
    assert_eq!(skipped, 1);
    assert_eq!(totals.len(), 2);
    assert_eq!(totals.get(1).unwrap().data, vec![1, -1, 2]);
    assert_eq!(totals.get(3).unwrap().data, vec![-1, -1, -1, -1, 1]);
    assert_eq!(lookup_total(&totals, 1, 2), Some(2));
    assert_eq!(lookup_total(&totals, 1, 1), None);
    assert_eq!(lookup_total(&totals, 1, 9), None);
    assert_eq!(lookup_total(&totals, 2, 0), None);
}

fn credit(taxon: usize, gene: usize, account: Account, normalizer: usize) -> Credit {
    Credit { taxon, gene, account, normalizer }
}

#[test]
fn reads_are_credited_by_shares_of_totals() {
    let records = vec![
        read("1_2", "1_2", 10),
        read("1_2", "3_4", 10),
        read("3_4", "1_2", 10),
        read("1_2", "7_7", 10),
        read("1_2", "3", 10),
        read("1_2", "*", 10),
    ];
    let (totals, _) = get_species_total(&records, 4);
    assert_eq!(totals.get(1).unwrap().data, vec![-1, -1, 4]);
    let pass = get_normalized_gene_leaks(&records, 4, &totals);
    assert_eq!(
        pass.credits,
        vec![
            credit(1, 2, Account::Correct, 4),
            credit(3, 4, Account::Incoming, 4),
            credit(1, 2, Account::Outgoing, 1),
            credit(1, 2, Account::Incoming, 1),
            credit(3, 4, Account::Outgoing, 4),
            credit(7, 7, Account::Incoming, 4),
        ]
    );
    assert_eq!(pass.undefined, 1);
    assert_eq!(pass.rejected, 1);
    assert!(pass.credits.iter().all(|credit| credit.normalizer > 0));
}

#[test]
fn share_of_a_missing_or_zero_total_is_left_out() {
    let mut totals = fix_gtdb_mg::gene_table::GeneTable::new();
    totals.set(1, fix_gtdb_mg::genes::Genes::from_slice(&[0, 3]));
    let correct = Assignment::Correct(Identities {
        query_taxon: 1,
        query_gene: 0,
        reference_taxon: 1,
        reference_gene: 0,
    });
    assert_eq!(fractional_credits(&correct, &totals), (vec![], 1));
    let incorrect = Assignment::Incorrect(Identities {
        query_taxon: 2,
        query_gene: 1,
        reference_taxon: 1,
        reference_gene: 1,
    });
    assert_eq!(
        fractional_credits(&incorrect, &totals),
        (vec![credit(2, 1, Account::Outgoing, 3)], 1)
    );
    let both = Assignment::Incorrect(Identities {
        query_taxon: 2,
        query_gene: 1,
        reference_taxon: 1,
        reference_gene: 0,
    });
    assert_eq!(fractional_credits(&both, &totals), (vec![], 2));
    assert_eq!(fractional_credits(&Assignment::Unaligned, &totals), (vec![], 0));
    assert_eq!(fractional_credits(&Assignment::LowQuality, &totals), (vec![], 0));
}
