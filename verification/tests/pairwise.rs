use fix_gtdb_mg::common::{FromTo, MalformedIdentifier, Sam};
use fix_gtdb_mg::genes::Genes;
use fix_gtdb_mg::norm_genes::{NormGenes, Ratio};
use fix_gtdb_mg::pairwise_leakage::{classify, Filing, Leakage, LeakagePair};

fn read(qname: &str, rname: &str, mapq: u8) -> Sam {
    Sam {
        qname: qname.to_string(),
        flag: 0,
        rname: rname.to_string(),
        pos: 1,
        mapq,
        cigar: "10M".to_string(),
        rnext: "*".to_string(),
        pnext: 0,
        tlen: 0,
        seq: "ACGT".to_string(),
        qual: "IIII".to_string(),
    }
}

fn slots(table: &Leakage, from: u32, to: u32) -> Option<Vec<isize>> {
    table.get(LeakagePair::from(from, to)).map(|genes| genes.data.clone())
}

#[test]
fn pair_keeps_origin_and_target_apart() {
    let pair = LeakagePair::from(7, 9);
    assert_eq!(pair.from, 7);
    assert_eq!(pair.to, 9);
    assert_ne!(pair, LeakagePair::from(9, 7));
    assert_eq!(LeakagePair::of_key(pair.key()), pair);
    assert_eq!(pair.key(), 7 * 4294967296 + 9);
    let wide = LeakagePair::from(u32::MAX, u32::MAX);
    assert_eq!(LeakagePair::of_key(wide.key()), wide);
    assert_eq!(wide.key(), u64::MAX);
}

#[test]
fn three_reads_fill_the_pairwise_table() {
    let records =
        vec![read("1_2", "1_2", 10), read("1_2", "3_4", 10), read("3_4", "1_2", 10)];
    let (table, malformed) = Leakage::from_sam(&records, 4);
    assert_eq!(malformed, 0);
    assert_eq!(table.len(), 2);
    assert_eq!(table.get(LeakagePair::from(1, 3)).unwrap().get(4), Some(1));
    assert_eq!(table.get(LeakagePair::from(3, 1)).unwrap().get(2), Some(1));
    assert_eq!(slots(&table, 1, 3), Some(vec![-1, -1, -1, -1, 1]));
    assert_eq!(slots(&table, 3, 1), Some(vec![-1, -1, 1]));
    assert!(table.get(LeakagePair::from(1, 1)).is_none());
    assert!(table.get(LeakagePair::from(3, 3)).is_none());
    assert_eq!(table.pair_at(0), LeakagePair::from(1, 3));
    assert_eq!(table.pair_at(1), LeakagePair::from(3, 1));
}

#[test]
fn read_below_the_threshold_is_left_out() {
    let records = vec![
        read("1_2", "3_4", 3),
        read("1_2", "1_2", 3),
        read("1_2", "3_4", 0),
        read("x", "y", 3),
    ];
    let (table, malformed) = Leakage::from_sam(&records, 4);
    assert_eq!(table.len(), 0);
    assert_eq!(malformed, 0);
    assert_eq!(classify(&read("1_2", "3_4", 3), 4), Filing::LowQuality);
    assert_eq!(classify(&read("1_2", "1_2", 3), 4), Filing::LowQuality);
    let at_threshold = classify(&read("1_2", "3_4", 4), 4);
    assert_eq!(
        at_threshold,
        Filing::CrossGeneLeak(FromTo {
            query: 1,
            reference: 3,
            query_gene: 2,
            reference_gene: 4
        })
    );
}

#[test]
fn unaligned_read_is_left_out() {
    let records = vec![read("1_2", "*", 60), read("nonsense", "*", 60)];
    let (table, malformed) = Leakage::from_sam(&records, 4);
    assert_eq!(table.len(), 0);
    assert_eq!(malformed, 0);
    assert_eq!(classify(&read("1_2", "*", 60), 4), Filing::Unaligned);
    assert_eq!(classify(&read("1_2", "*", 0), 4), Filing::Unaligned);
}

#[test]
fn malformed_names_are_skipped_and_counted() {
    let records = vec![
        read("1_2", "3_4", 10),
        read("12", "3_4", 10),
        read("1_2", "3_x", 10),
        read("1_2", "3_4", 10),
    ];
    let (table, malformed) = Leakage::from_sam(&records, 4);
    assert_eq!(malformed, 2);
    assert_eq!(table.len(), 1);
    assert_eq!(table.get(LeakagePair::from(1, 3)).unwrap().get(4), Some(2));
    assert_eq!(
        classify(&read("12", "3_4", 10), 4),
        Filing::Malformed(MalformedIdentifier::MissingField)
    );
    assert_eq!(
        classify(&read("1_2", "3_x", 10), 4),
        Filing::Malformed(MalformedIdentifier::InvalidGene)
    );
}

#[test]
fn events_of_a_table() {
    assert_eq!(sample().checked_events(), Some(17));
    assert_eq!(Leakage::default().checked_events(), Some(0));
    let mut table = Leakage::default();
    table.insert(LeakagePair::from(1, 2), Genes::from_slice(&[isize::MAX, isize::MAX]));
    table.insert(LeakagePair::from(2, 1), Genes::from_slice(&[2]));
    assert_eq!(table.checked_events(), None);
}

#[test]
fn kinds_of_leaks() {
    let same_gene = FromTo { query: 1, reference: 3, query_gene: 2, reference_gene: 2 };
    assert_eq!(classify(&read("1_2", "3_2", 10), 4), Filing::Leak(same_gene));
    let same_taxon = FromTo { query: 1, reference: 1, query_gene: 2, reference_gene: 5 };
    assert_eq!(classify(&read("1_2", "1_5", 10), 4), Filing::CrossGeneLeak(same_taxon));
    let correct = FromTo { query: 1, reference: 1, query_gene: 2, reference_gene: 2 };
    assert_eq!(classify(&read("1_2", "1_2", 10), 4), Filing::Correct(correct));
}

#[test]
fn record_files_under_the_reference_gene() {
    let mut table = Leakage::default();
    let filing = table.record(&read("1_2", "1_5", 10), 4);
    assert!(matches!(filing, Filing::CrossGeneLeak(_)));
    assert_eq!(slots(&table, 1, 1), Some(vec![-1, -1, -1, -1, -1, 1]));
    table.record(&read("1_2", "1_2", 10), 4);
    assert_eq!(table.len(), 1);
    assert_eq!(slots(&table, 1, 1), Some(vec![-1, -1, -1, -1, -1, 1]));
    table.record(&read("1_9", "1_5", 10), 4);
    assert_eq!(slots(&table, 1, 1), Some(vec![-1, -1, -1, -1, -1, 2]));
}

fn sample() -> Leakage {
    let mut table = Leakage::default();
    table.insert(LeakagePair::from(1, 2), Genes::from_slice(&[-1, 2, 3]));
    table.insert(LeakagePair::from(1, 3), Genes::from_slice(&[1, 2]));
    table.insert(LeakagePair::from(2, 3), Genes::from_slice(&[-1, -1, -1, 5]));
    table.insert(LeakagePair::from(3, 2), Genes::from_slice(&[0, 4]));
    table
}

#[test]
fn insert_replaces_the_counter_of_a_pair() {
    let mut table = sample();
    table.insert(LeakagePair::from(1, 3), Genes::from_slice(&[9]));
    assert_eq!(table.len(), 4);
    assert_eq!(slots(&table, 1, 3), Some(vec![9]));
    assert_eq!(table.pair_at(1), LeakagePair::from(1, 3));
    assert_eq!(table.genes_at(1).data, vec![9]);
}

#[test]
fn outgoing_totals_merge_per_origin() {
    let totals = sample().total_outgoing();
    assert_eq!(totals.len(), 3);
    assert_eq!(totals.key_at(0), 1);
    assert_eq!(totals.key_at(1), 2);
    assert_eq!(totals.key_at(2), 3);
    assert_eq!(totals.get(1).unwrap().data, vec![1, 4, 3]);
    assert_eq!(totals.get(2).unwrap().data, vec![-1, -1, -1, 5]);
    assert_eq!(totals.get(3).unwrap().data, vec![0, 4]);
    assert!(totals.get(4).is_none());
    assert_eq!(totals.genes_at(0).total(), 8);
}

fn profile(touched: &[bool], terms: &[(usize, usize, usize)]) -> (Vec<bool>, Vec<Ratio>) {
    (
        touched.to_vec(),
        terms
            .iter()
            .map(|&(gene, count, normalizer)| Ratio { gene, count, normalizer })
            .collect(),
    )
}

#[test]
fn incoming_leaks_are_measured_against_the_origins_total() {
    let (normalized, undefined) = sample().normalize_incoming();
    assert_eq!(normalized.len(), 2);
    assert_eq!(normalized.key_at(0), 2);
    assert_eq!(normalized.key_at(1), 3);
    let onto_2 = normalized.profile_at(0);
    let expected_2 = profile(&[true, true, true], &[(1, 2, 4), (2, 3, 3), (1, 4, 4)]);
    assert_eq!(onto_2.touched, expected_2.0);
    assert_eq!(onto_2.terms, expected_2.1);
    let onto_3 = normalized.profile_at(1);
    let expected_3 = profile(&[true, true, false, true], &[(0, 1, 1), (1, 2, 4), (3, 5, 5)]);
    assert_eq!(onto_3.touched, expected_3.0);
    assert_eq!(onto_3.terms, expected_3.1);
    assert_eq!(undefined, 1);
}

#[test]
fn ratio_by_a_zero_or_absent_normalizer_contributes_nothing() {
    let mut norm = NormGenes::default();
    let counts = Genes::from_slice(&[3, -1, 4, 5, 6]);
    let normalizer = Genes::from_slice(&[6, 7, 0, -1]);
    let undefined = norm.merge_normalized_from_counts(&counts, &normalizer);
    assert_eq!(undefined, 3);
    assert_eq!(norm.touched, vec![true, false, true, true, true]);
    assert_eq!(norm.terms, vec![Ratio { gene: 0, count: 3, normalizer: 6 }]);
    assert!(norm.terms.iter().all(|term| term.normalizer > 0));
    let total: f64 =
        norm.terms.iter().map(|term| term.count as f64 / term.normalizer as f64).sum();
    assert_eq!(total, 0.5);
    assert!(total.is_finite() && total >= 0.0);
}

#[test]
fn normalized_counter_accumulates_over_merges() {
    let mut norm = NormGenes::default();
    let first =
        norm.merge_normalized_from_counts(&Genes::from_slice(&[-1, 1]), &Genes::from_slice(&[-1, 4]));
    let second = norm.merge_normalized_from_counts(
        &Genes::from_slice(&[2, 3, -1]),
        &Genes::from_slice(&[2, 4, 9]),
    );
    assert_eq!((first, second), (0, 0));
    assert_eq!(norm.touched, vec![true, true]);
    assert_eq!(
        norm.terms,
        vec![
            Ratio { gene: 1, count: 1, normalizer: 4 },
            Ratio { gene: 0, count: 2, normalizer: 2 },
            Ratio { gene: 1, count: 3, normalizer: 4 },
        ]
    );
}

#[test]
fn normalized_leaks_of_a_counted_table_never_divide_by_zero() {
    let records = vec![
        read("1_2", "3_4", 10),
        read("1_2", "3_4", 10),
        read("1_2", "5_4", 10),
        read("5_1", "3_4", 10),
    ];
    let (table, _) = Leakage::from_sam(&records, 4);
    let (normalized, undefined) = table.normalize_incoming();
    assert_eq!(undefined, 0);
    for place in 0..normalized.len() {
        for term in &normalized.profile_at(place).terms {
            assert!(term.normalizer > 0);
            assert!(term.count <= term.normalizer);
        }
    }
    let onto_3 = normalized.profile_at(0);
    assert_eq!(normalized.key_at(0), 3);
    assert_eq!(
        onto_3.terms,
        vec![
            Ratio { gene: 4, count: 2, normalizer: 3 },
            Ratio { gene: 4, count: 1, normalizer: 1 }
        ]
    );
}

#[test]
fn pairs_are_ranked_by_target_then_total_then_origin() {
    let mut table = sample();
    table.insert(LeakagePair::from(9, 2), Genes::from_slice(&[4]));
    table.insert(LeakagePair::from(0, 2), Genes::from_slice(&[2, 2]));
    let ranked: Vec<(u32, u32, usize)> = table
        .ranked_pairs()
        .iter()
        .map(|(pair, genes)| (pair.from, pair.to, genes.total()))
        .collect();
    assert_eq!(ranked, vec![(0, 2, 4), (3, 2, 4), (9, 2, 4), (1, 2, 5), (1, 3, 3), (2, 3, 5)]);
}
