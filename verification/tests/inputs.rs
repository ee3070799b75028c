use fix_gtdb_mg::id_to_label::{get_labels_map, parse_label_line};
use fix_gtdb_mg::leakage::{
    get_leakage_counter, parse_leakage, read_leakage_file, species_pair_leakage, Leakage,
    LeakageCounter,
};
use fix_gtdb_mg::newick::{clean_newick, parse_label, siblings, strip_quotes};
use fix_gtdb_mg::ranking::{may_precede, rank, Rank};
use fix_gtdb_mg::sam_lines::{is_header, sam_records, tsv_entry};
use fix_gtdb_mg::decimal::{signed_text, unsigned_text};
use fix_gtdb_mg::text::{
    chars_of, find_sep, parse_signed, parse_unsigned, split_fields, text_of,
};
use fix_gtdb_mg::utils::is_gzipped;

fn lines(rows: &[&str]) -> Vec<String> {
    rows.iter().map(|row| row.to_string()).collect()
}

fn read(from: usize, from_gene: usize, to: usize, to_gene: usize, correct: bool) -> Leakage {
    Leakage { from, from_gene, to, to_gene, correct, mapq: 30 }
}

#[test]
fn summary_line_is_read() {
    assert_eq!(
        parse_leakage("read1\t1_2\t3_4\tx\t42"),
        Some(Leakage { from: 1, from_gene: 2, to: 3, to_gene: 4, correct: false, mapq: 42 })
    );
    assert_eq!(
        parse_leakage("read1\t1_2\t1_2\tx\t0\tmore"),
        Some(Leakage { from: 1, from_gene: 2, to: 1, to_gene: 2, correct: true, mapq: 0 })
    );
    assert_eq!(
        parse_leakage("read1\t1_2_a\t1_2_b\tx\t7"),
        Some(Leakage { from: 1, from_gene: 2, to: 1, to_gene: 2, correct: false, mapq: 7 })
    );
}

#[test]
fn malformed_summary_lines() {
    assert_eq!(parse_leakage(""), None);
    assert_eq!(parse_leakage("read1\t1_2\t3_4\tx"), None);
    assert_eq!(parse_leakage("read1\t1_2\t3_4\tx\t-1"), None);
    assert_eq!(parse_leakage("read1\t12\t3_4\tx\t1"), None);
    assert_eq!(parse_leakage("read1\t1_2\t3_y\tx\t1"), None);
    let (reads, skipped) =
        read_leakage_file(&lines(&["r\t1_2\t3_4\tx\t5", "broken", "r\t3_4\t3_4\tx\t6"]));
    assert_eq!(skipped, 1);
    assert_eq!(reads.len(), 2);
    assert_eq!(reads[0].mapq, 5);
    assert!(reads[1].correct);
}

#[test]
fn key_of_a_read_is_unordered() {
    assert_eq!(read(5, 0, 2, 0, false).key(), (2, 5));
    assert_eq!(read(2, 0, 5, 0, false).key(), (2, 5));
    assert_eq!(read(4, 0, 4, 1, false).key(), (4, 4));
}

#[test]
fn events_per_pair_of_taxa() {
    let reads = vec![
        read(1, 2, 3, 4, false),
        read(3, 4, 1, 2, false),
        read(1, 0, 1, 1, false),
        read(5, 0, 3, 0, false),
        read(3, 0, 1, 0, false),
        read(2, 0, usize::MAX, 0, false),
    ];
    let (pairs, uncounted) = species_pair_leakage(&reads);
    assert_eq!(uncounted, 1);
    assert_eq!(pairs.len(), 2);
    assert_eq!(pairs.key_at(0), 1);
    assert_eq!(pairs.genes_at(0).data, vec![-1, 1, -1, 3]);
    assert_eq!(pairs.key_at(1), 3);
    assert_eq!(pairs.genes_at(1).data, vec![-1, -1, -1, -1, -1, 1]);
    assert_eq!(pairs.checked_events(), Some(5));
}

#[test]
fn counters_per_taxon() {
    let reads = vec![
        read(1, 2, 1, 2, true),
        read(1, 2, 3, 4, false),
        read(3, 4, 1, 2, false),
        read(1, 5, 7, 0, false),
        read(3, 4, 3, 4, true),
    ];
    let counters = get_leakage_counter(&reads);
    assert_eq!(counters.len(), 3);
    assert_eq!(
        counters.get(1),
        Some(LeakageCounter { total: 3, correct: 1, out_incorrect: 2, in_incorrect: 1 })
    );
    assert_eq!(
        counters.get(3),
        Some(LeakageCounter { total: 2, correct: 1, out_incorrect: 1, in_incorrect: 1 })
    );
    assert_eq!(
        counters.get(7),
        Some(LeakageCounter { total: 0, correct: 0, out_incorrect: 0, in_incorrect: 1 })
    );
    assert_eq!(counters.get(2), None);
    assert_eq!(counters.entry_at(0).0, 1);
    assert_eq!(counters.entry_at(1).0, 3);
    assert_eq!(counters.entry_at(2).0, 7);
    assert_eq!(get_leakage_counter(&[]).len(), 0);
    assert_eq!(LeakageCounter::default().total, 0);
}

#[test]
fn labels_by_identifier() {
    let labels = get_labels_map(&lines(&[
        "GCF_1\t2\tx\td__Bacteria;g__Escherichia;s__Escherichia coli",
        "short line",
        "GCF_2\t0\tx\ts__Alpha",
        "GCF_3\t2\tx\tone;two;",
        "GCF_4\tmany\tx\ts__Beta",
        "GCF_5\t1\tx\tplain\textra",
        "GCF_6\t2\tx\t;s__Ζeta",
    ]));
    assert_eq!(labels.id2lab, lines(&["s__Alpha", "plain", "s__Escherichia colis__Ζeta"]));
    assert_eq!(
        labels.lab2id,
        vec![
            ("s__Escherichia coli".to_string(), 2),
            ("s__Alpha".to_string(), 0),
            ("".to_string(), 2),
            ("plain".to_string(), 1),
            ("s__Ζeta".to_string(), 2),
        ]
    );
    assert_eq!(labels.skipped, 2);
    assert_eq!(parse_label_line("a\t3\tb\tp__X;c__Y"), Some((3, "c__Y".to_string())));
    assert_eq!(parse_label_line("a\t3\tb"), None);
    assert_eq!(parse_label_line(&format!("a\t{}\tb\tc", usize::MAX)), None);
}

#[test]
fn newick_is_requoted() {
    assert_eq!(clean_newick("('a b':1,'c':2);"), "(\"a b\":1,\"c\":2);");
    assert_eq!(clean_newick("('é':1);"), "(\"é\":1);");
    assert_eq!(clean_newick("(a:1,b:2);"), "");
    assert_eq!(clean_newick("('a':1,\"b\":2);"), "");
    assert_eq!(clean_newick("(\"a\":1);"), "");
    assert_eq!(clean_newick(""), "");
    assert_eq!(parse_label("s__Alpha"), "");
}

#[test]
fn labels_lose_their_double_quotes() {
    assert_eq!(strip_quotes("\"s__Alpha beta\""), "s__Alpha beta");
    assert_eq!(strip_quotes("a\"b\"\"c"), "abc");
    assert_eq!(strip_quotes("'plain'"), "'plain'");
    assert_eq!(strip_quotes("\""), "");
    assert_eq!(strip_quotes(""), "");
}

#[test]
fn siblings_are_the_other_children() {
    assert_eq!(siblings(&[4, 7], 4), vec![7]);
    assert_eq!(siblings(&[4, 7], 7), vec![4]);
    assert_eq!(siblings(&[4], 4), Vec::<usize>::new());
    assert_eq!(siblings(&[4, 7, 9], 7), vec![4, 9]);
    assert_eq!(siblings(&[4, 7], 1), vec![4, 7]);
    assert_eq!(siblings(&[], 1), Vec::<usize>::new());
}

#[test]
fn headers_and_records() {
    assert!(is_header("@HD\tVN:1.6"));
    assert!(is_header("@"));
    assert!(!is_header(""));
    assert!(!is_header("read@1"));
    let (records, faulty) = sam_records(&lines(&[
        "@HD\tVN:1.6",
        "1_2\t0\t3_4\t1\t30\t4M\t*\t0\t0\tACGT\tIIII",
        "broken",
        "@SQ\tSN:3_4",
        "3_4\t16\t*\t0\t0\t*\t*\t0\t0\tAC\tII",
        "1_2\t0\t3_4\t1\t300\t4M\t*\t0\t0\tACGT\tIIII",
    ]));
    assert_eq!(faulty, 2);
    assert_eq!(records.len(), 2);
    assert_eq!(records[0].qname, "1_2");
    assert_eq!(records[0].mapq, 30);
    assert_eq!(records[1].qname, "3_4");
    assert!(!records[1].is_aligned());
}

#[test]
fn table_line_splits_at_the_first_tab() {
    let entry = |key: &str, value: &str| Some((key.to_string(), value.to_string()));
    assert_eq!(tsv_entry("key\tvalue"), entry("key", "value"));
    assert_eq!(tsv_entry("key\tvalue\twith\ttabs"), entry("key", "value\twith\ttabs"));
    assert_eq!(tsv_entry("\t"), entry("", ""));
    assert_eq!(tsv_entry("clé\tvaleur é"), entry("clé", "valeur é"));
    assert_eq!(tsv_entry("no tab"), None);
    assert_eq!(tsv_entry(""), None);
}

#[test]
fn gzip_magic() {
    assert!(is_gzipped(&[0x1F, 0x8B]));
    assert!(is_gzipped(&[0x1F, 0x8B, 0x08, 0x00]));
    assert!(!is_gzipped(&[0x1F]));
    assert!(!is_gzipped(&[]));
    assert!(!is_gzipped(&[0x8B, 0x1F]));
    assert!(!is_gzipped(b"@HD"));
}

fn chars(text: &str) -> Vec<char> {
    text.chars().collect()
}

#[test]
fn numbers_are_read_within_their_limits() {
    let text = chars("x+12y-7z007");
    assert_eq!(parse_unsigned(&text, 1, 4, 100), Some(12));
    assert_eq!(parse_unsigned(&text, 2, 4, 11), None);
    assert_eq!(parse_unsigned(&text, 2, 4, 12), Some(12));
    assert_eq!(parse_unsigned(&text, 5, 7, 100), None);
    assert_eq!(parse_unsigned(&text, 8, 11, 100), Some(7));
    assert_eq!(parse_unsigned(&text, 3, 3, 100), None);
    assert_eq!(parse_unsigned(&text, 1, 2, 100), None);
    assert_eq!(parse_signed(&text, 5, 7, -7, 0), Some(-7));
    assert_eq!(parse_signed(&text, 5, 7, -6, 10), None);
    assert_eq!(parse_signed(&text, 1, 4, -1, 12), Some(12));
    assert_eq!(parse_signed(&text, 5, 6, -9, 9), None);
    let signed = |text: &str| parse_signed(&chars(text), 0, text.len(), i64::MIN, i64::MAX);
    assert_eq!(signed("-9223372036854775808"), Some(i64::MIN));
    assert_eq!(signed("-9223372036854775809"), None);
    assert_eq!(signed("9223372036854775807"), Some(i64::MAX));
    assert_eq!(signed("9223372036854775808"), None);
    assert_eq!(parse_signed(&chars("-0"), 0, 2, 0, 0), Some(0));
    let unsigned = |text: &str| parse_unsigned(&chars(text), 0, text.len(), u64::MAX);
    assert_eq!(unsigned("18446744073709551615"), Some(u64::MAX));
    assert_eq!(unsigned("18446744073709551616"), None);
    assert_eq!(unsigned("١٢"), None);
}

#[test]
fn numbers_are_written_in_decimal() {
    assert_eq!(unsigned_text(0), "0");
    assert_eq!(unsigned_text(7), "7");
    assert_eq!(unsigned_text(10), "10");
    assert_eq!(unsigned_text(61046), "61046");
    assert_eq!(unsigned_text(u64::MAX), "18446744073709551615");
    assert_eq!(signed_text(0), "0");
    assert_eq!(signed_text(-1), "-1");
    assert_eq!(signed_text(i64::MAX), "9223372036854775807");
    assert_eq!(signed_text(i64::MIN), "-9223372036854775808");
}

#[test]
fn fields_are_found_between_separators() {
    let text = chars("ab\t\tc\t");
    assert_eq!(find_sep(&text, '\t', 0), 2);
    assert_eq!(find_sep(&text, '\t', 3), 3);
    assert_eq!(find_sep(&text, '\t', 4), 5);
    assert_eq!(find_sep(&text, '\t', 6), 6);
    assert_eq!(split_fields(&text, '\t', 10), vec![(0, 2), (3, 3), (4, 5), (6, 6)]);
    assert_eq!(split_fields(&text, '\t', 2), vec![(0, 2), (3, 3)]);
    assert_eq!(split_fields(&text, '\t', 0), vec![]);
    assert_eq!(split_fields(&[], '\t', 3), vec![(0, 0)]);
    assert_eq!(chars_of("aébc"), vec!['a', 'é', 'b', 'c']);
    assert_eq!(text_of(&chars("aébc"), 1, 3), "éb");
    assert_eq!(text_of(&chars("aébc"), 2, 2), "");
}

#[test]
fn ranking_orders_all_items() {
    let item = |major, minor, tie, item| Rank { major, minor, tie, item };
    let items =
        vec![item(2, 0, 0, 0), item(1, 5, 0, 1), item(1, 5, 0, 2), item(1, 4, 9, 3), item(0, 9, 9, 4)];
    let ranked = rank(&items);
    assert_eq!(ranked.iter().map(|r| r.item).collect::<Vec<usize>>(), vec![4, 3, 1, 2, 0]);
    assert!(may_precede(&items[1], &items[2]));
    assert!(may_precede(&items[2], &items[1]));
    assert!(!may_precede(&items[0], &items[1]));
    assert_eq!(rank(&vec![]), vec![]);
}
