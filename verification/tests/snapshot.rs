use fix_gtdb_mg::genes::Genes;
use fix_gtdb_mg::pairwise_leakage::{Leakage, LeakagePair};
use fix_gtdb_mg::snapshot::{pair_row, parse_row};

fn lines(rows: &[&str]) -> Vec<String> {
    rows.iter().map(|row| row.to_string()).collect()
}

fn contents(table: &Leakage) -> Vec<(u32, u32, Vec<isize>)> {
    (0..table.len())
        .map(|place| {
            let pair = table.pair_at(place);
            (pair.from, pair.to, table.genes_at(place).data.clone())
        })
        .collect()
}

#[test]
fn row_of_a_pair() {
    let genes = Genes::from_slice(&[-1, 3, 0, 12]);
    assert_eq!(pair_row(LeakagePair::from(7, 9), &genes), "7\t9\t15\t-1\t3\t0\t12");
    assert_eq!(pair_row(LeakagePair::from(0, 4294967295), &Genes::default()), "0\t4294967295\t0\t");
}

#[test]
fn rows_follow_the_order_of_the_table() {
    let mut table = Leakage::default();
    table.insert(LeakagePair::from(3, 1), Genes::from_slice(&[-1, -1, 1]));
    table.insert(LeakagePair::from(1, 3), Genes::from_slice(&[-1, -1, -1, -1, 1]));
    assert_eq!(table.rows(), lines(&["3\t1\t1\t-1\t-1\t1", "1\t3\t1\t-1\t-1\t-1\t-1\t1"]));
}

#[test]
fn row_reads_back() {
    let (pair, genes) = parse_row("7\t9\t15\t-1\t3\t0\t12").unwrap();
    assert_eq!(pair, LeakagePair::from(7, 9));
    assert_eq!(genes.data, vec![-1, 3, 0, 12]);
    assert_eq!(genes.get(0), None);
    assert_eq!(genes.get(2), Some(0));
    let (pair, genes) = parse_row("0\t4294967295\t0\t").unwrap();
    assert_eq!(pair, LeakagePair::from(0, u32::MAX));
    assert_eq!(genes.data, Vec::<isize>::new());
}

#[test]
fn third_field_is_not_read() {
    let (pair, genes) = parse_row("1\t2\tanything at all\t5").unwrap();
    assert_eq!(pair, LeakagePair::from(1, 2));
    assert_eq!(genes.data, vec![5]);
    let (_, genes) = parse_row("1\t2\t\t+5\t-1").unwrap();
    assert_eq!(genes.data, vec![5, -1]);
}

#[test]
fn malformed_rows() {
    assert!(parse_row("").is_none());
    assert!(parse_row("1\t2\t3").is_none());
    assert!(parse_row("x\t2\t3\t4").is_none());
    assert!(parse_row("1\t-2\t3\t4").is_none());
    assert!(parse_row("4294967296\t2\t3\t4").is_none());
    assert!(parse_row("1\t2\t3\t4\t").is_none());
    assert!(parse_row("1\t2\t3\t\t4").is_none());
    assert!(parse_row("1\t2\t3\t-2").is_none());
    assert!(parse_row("1\t2\t3\t4.5").is_none());
    assert!(parse_row("1\t2\t3\t99999999999999999999999").is_none());
    assert!(parse_row("1 2 3 4").is_none());
}

#[test]
fn saved_table_loads_as_the_same_table() {
    let mut table = Leakage::default();
    table.insert(LeakagePair::from(3, 1), Genes::from_slice(&[-1, -1, 1]));
    table.insert(LeakagePair::from(1, 3), Genes::from_slice(&[-1, 0, -1, -1, 17]));
    table.insert(LeakagePair::from(1, 1), Genes::default());
    table.insert(LeakagePair::from(u32::MAX, 0), Genes::from_slice(&[isize::MAX]));
    table.insert(LeakagePair::from(2, 2), Genes::from_slice(&[-1]));
    let (loaded, malformed) = Leakage::load(&table.rows());
    assert_eq!(malformed, 0);
    assert_eq!(contents(&loaded), contents(&table));
    assert_eq!(
        contents(&loaded),
        vec![
            (3, 1, vec![-1, -1, 1]),
            (1, 3, vec![-1, 0, -1, -1, 17]),
            (1, 1, vec![]),
            (u32::MAX, 0, vec![isize::MAX]),
            (2, 2, vec![-1]),
        ]
    );
}

#[test]
fn counted_table_survives_saving_in_ranked_order() {
    let table = {
        let mut table = Leakage::default();
        table.insert(LeakagePair::from(5, 9), Genes::from_slice(&[4, -1, 6]));
        table.insert(LeakagePair::from(4, 2), Genes::from_slice(&[-1, 8]));
        table.insert(LeakagePair::from(6, 2), Genes::from_slice(&[1]));
        table
    };
    let rows: Vec<String> =
        table.ranked_pairs().iter().map(|(pair, genes)| pair_row(*pair, genes)).collect();
    assert_eq!(rows, lines(&["6\t2\t1\t1", "4\t2\t8\t-1\t8", "5\t9\t10\t4\t-1\t6"]));
    let (loaded, malformed) = Leakage::load(&rows);
    assert_eq!(malformed, 0);
    assert_eq!(loaded.len(), table.len());
    for place in 0..table.len() {
        let pair = table.pair_at(place);
        assert_eq!(loaded.get(pair).unwrap().data, table.genes_at(place).data);
    }
}

#[test]
fn load_skips_and_counts_malformed_lines() {
    let (table, malformed) = Leakage::load(&lines(&[
        "1\t2\t3\t3",
        "not a row",
        "1\t2",
        "4\t5\t1\t-1\t1",
        "1\t2\t9\t-1\t9",
    ]));
    assert_eq!(malformed, 2);
    assert_eq!(contents(&table), vec![(1, 2, vec![-1, 9]), (4, 5, vec![-1, 1])]);
    let (empty, none) = Leakage::load(&[]);
    assert_eq!(empty.len(), 0);
    assert_eq!(none, 0);
}
