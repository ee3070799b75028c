use fix_gtdb_mg::common::{
    sam_to_ids, taxid_geneid, Args, FromTo, MalformedIdentifier, MalformedRecord, Sam,
};

fn record(qname: &str, rname: &str, mapq: u8) -> Sam {
    Sam {
        qname: qname.to_string(),
        flag: 0,
        rname: rname.to_string(),
        pos: 1,
        mapq,
        cigar: "10M".to_string(),
        rnext: "*".to_string(),
        pnext: 0,
        tlen: 0,
        seq: "ACGT".to_string(),
        qual: "IIII".to_string(),
    }
}

#[test]
fn identifier_of_two_fields() {
    assert_eq!(taxid_geneid("1_2"), Ok((1, 2)));
    assert_eq!(taxid_geneid("61046_117"), Ok((61046, 117)));
    assert_eq!(taxid_geneid("0_0"), Ok((0, 0)));
}

#[test]
fn identifier_reads_only_the_first_two_fields() {
    assert_eq!(taxid_geneid("12_34_56"), Ok((12, 34)));
    assert_eq!(taxid_geneid("12_34_read/1"), Ok((12, 34)));
    assert_eq!(taxid_geneid("7_8_"), Ok((7, 8)));
}

#[test]
fn identifier_accepts_a_plus_sign_and_leading_zeros() {
    assert_eq!(taxid_geneid("+3_007"), Ok((3, 7)));
}

#[test]
fn identifier_without_second_field() {
    assert_eq!(taxid_geneid("12"), Err(MalformedIdentifier::MissingField));
    assert_eq!(taxid_geneid(""), Err(MalformedIdentifier::MissingField));
    assert_eq!(taxid_geneid("*"), Err(MalformedIdentifier::MissingField));
    assert_eq!(taxid_geneid("abc"), Err(MalformedIdentifier::MissingField));
}

#[test]
fn identifier_with_bad_taxon() {
    assert_eq!(taxid_geneid("x_2"), Err(MalformedIdentifier::InvalidTaxon));
    assert_eq!(taxid_geneid("_2"), Err(MalformedIdentifier::InvalidTaxon));
    assert_eq!(taxid_geneid("-1_2"), Err(MalformedIdentifier::InvalidTaxon));
    assert_eq!(taxid_geneid("1 _2"), Err(MalformedIdentifier::InvalidTaxon));
    assert_eq!(taxid_geneid("+_2"), Err(MalformedIdentifier::InvalidTaxon));
    assert_eq!(taxid_geneid("é_2"), Err(MalformedIdentifier::InvalidTaxon));
    assert_eq!(
        taxid_geneid("99999999999999999999999999_2"),
        Err(MalformedIdentifier::InvalidTaxon)
    );
}

#[test]
fn identifier_with_bad_gene() {
    assert_eq!(taxid_geneid("1_"), Err(MalformedIdentifier::InvalidGene));
    assert_eq!(taxid_geneid("1_g"), Err(MalformedIdentifier::InvalidGene));
    assert_eq!(taxid_geneid("1__2"), Err(MalformedIdentifier::InvalidGene));
    assert_eq!(taxid_geneid("1_2.5"), Err(MalformedIdentifier::InvalidGene));
}

#[test]
fn identifier_at_the_largest_machine_word() {
    let text = format!("{}_{}", usize::MAX, usize::MAX);
    assert_eq!(taxid_geneid(&text), Ok((usize::MAX, usize::MAX)));
    let beyond = format!("1_{}0", usize::MAX);
    assert_eq!(taxid_geneid(&beyond), Err(MalformedIdentifier::InvalidGene));
}

#[test]
fn record_identities() {
    let ids = sam_to_ids(&record("1_2", "3_4", 10)).unwrap();
    assert_eq!(ids, FromTo { query: 1, reference: 3, query_gene: 2, reference_gene: 4 });
    assert!(!ids.is_correct());
    let same = sam_to_ids(&record("1_2", "1_2", 10)).unwrap();
    assert!(same.is_correct());
    let other_gene = sam_to_ids(&record("1_2", "1_3", 10)).unwrap();
    assert!(!other_gene.is_correct());
}

#[test]
fn record_identities_keep_the_low_32_bits() {
    let ids = sam_to_ids(&record("4294967297_4294967298", "3_4", 10)).unwrap();
    assert_eq!(ids.query, 1);
    assert_eq!(ids.query_gene, 2);
}

#[test]
fn record_identities_of_malformed_names() {
    assert_eq!(sam_to_ids(&record("1", "3_4", 10)), Err(MalformedIdentifier::MissingField));
    assert_eq!(sam_to_ids(&record("1_2", "x_4", 10)), Err(MalformedIdentifier::InvalidTaxon));
    assert_eq!(sam_to_ids(&record("1_y", "x_4", 10)), Err(MalformedIdentifier::InvalidGene));
}

#[test]
fn sam_line_is_read_field_by_field() {
    let sam = Sam::from_line("1_2\t16\t3_4\t100\t42\t10M\t=\t200\t-150\tACGT\tIIII").unwrap();
    assert_eq!(sam.qname, "1_2");
    assert_eq!(sam.flag, 16);
    assert_eq!(sam.rname, "3_4");
    assert_eq!(sam.pos, 100);
    assert_eq!(sam.mapq, 42);
    assert_eq!(sam.cigar, "10M");
    assert_eq!(sam.rnext, "=");
    assert_eq!(sam.pnext, 200);
    assert_eq!(sam.tlen, -150);
    assert_eq!(sam.seq, "ACGT");
    assert_eq!(sam.qual, "IIII");
}

#[test]
fn sam_line_with_more_fields_and_other_alphabets() {
    let sam = Sam::from_line("lésé_1\t0\t*\t0\t0\t*\t*\t0\t0\tACGT\tIIÿI\tNM:i:0\tAS:i:5").unwrap();
    assert_eq!(sam.qname, "lésé_1");
    assert_eq!(sam.rname, "*");
    assert_eq!(sam.qual, "IIÿI");
    assert!(!sam.is_aligned());
}

#[test]
fn sam_line_with_empty_text_fields() {
    let sam = Sam::from_line("\t1\t\t2\t3\t\t\t4\t+5\t\t").unwrap();
    assert_eq!(sam.qname, "");
    assert_eq!(sam.seq, "");
    assert_eq!(sam.qual, "");
    assert_eq!(sam.tlen, 5);
    assert!(sam.is_aligned());
}

#[test]
fn sam_line_with_too_few_fields() {
    let line = "1_2\t16\t3_4\t100\t42\t10M\t=\t200\t-150\tACGT";
    assert_eq!(Sam::from_line(line).unwrap_err(), format!("Invalid SAM line: {}", line));
    assert_eq!(Sam::from_line("").unwrap_err(), "Invalid SAM line: ");
    assert_eq!(Sam::parse(line).unwrap_err(), MalformedRecord::TooFewFields);
}

#[test]
fn sam_line_with_bad_numbers() {
    let err = |line: &str| Sam::from_line(line).unwrap_err();
    assert_eq!(err("q\t-1\tr\t1\t1\tc\t=\t1\t1\ts\tq"), "Invalid flag");
    assert_eq!(err("q\t65536\tr\t1\t1\tc\t=\t1\t1\ts\tq"), "Invalid flag");
    assert_eq!(err("q\t1\tr\tx\t1\tc\t=\t1\t1\ts\tq"), "Invalid position");
    assert_eq!(err("q\t1\tr\t4294967296\t1\tc\t=\t1\t1\ts\tq"), "Invalid position");
    assert_eq!(err("q\t1\tr\t1\t256\tc\t=\t1\t1\ts\tq"), "Invalid mapping quality");
    assert_eq!(err("q\t1\tr\t1\t\tc\t=\t1\t1\ts\tq"), "Invalid mapping quality");
    assert_eq!(err("q\t1\tr\t1\t1\tc\t=\t1.0\t1\ts\tq"), "Invalid pnext");
    assert_eq!(err("q\t1\tr\t1\t1\tc\t=\t1\t2147483648\ts\tq"), "Invalid template length");
    assert_eq!(err("q\t1\tr\t1\t1\tc\t=\t1\t-\ts\tq"), "Invalid template length");
    assert_eq!(err("q\tf\tr\tp\tm\tc\t=\tn\tt\ts\tq"), "Invalid flag");
}

#[test]
fn sam_numbers_at_their_limits() {
    let sam =
        Sam::from_line("q\t65535\tr\t4294967295\t255\tc\t=\t0\t-2147483648\ts\tq").unwrap();
    assert_eq!(sam.flag, u16::MAX);
    assert_eq!(sam.pos, u32::MAX);
    assert_eq!(sam.mapq, u8::MAX);
    assert_eq!(sam.tlen, i32::MIN);
    let top = Sam::from_line("q\t0\tr\t0\t0\tc\t=\t0\t2147483647\ts\tq").unwrap();
    assert_eq!(top.tlen, i32::MAX);
}

#[test]
fn fault_messages() {
    assert_eq!(MalformedRecord::TooFewFields.message("a\tb"), "Invalid SAM line: a\tb");
    assert_eq!(MalformedRecord::InvalidFlag.message("x"), "Invalid flag");
    assert_eq!(MalformedRecord::InvalidPosition.message("x"), "Invalid position");
    assert_eq!(MalformedRecord::InvalidMapq.message("x"), "Invalid mapping quality");
    assert_eq!(MalformedRecord::InvalidPnext.message("x"), "Invalid pnext");
    assert_eq!(MalformedRecord::InvalidTlen.message("x"), "Invalid template length");
}

#[test]
fn unaligned_is_a_star_and_nothing_else() {
    assert!(!record("1_2", "*", 10).is_aligned());
    assert!(record("1_2", "3_4", 10).is_aligned());
    assert!(record("1_2", "**", 10).is_aligned());
    assert!(record("1_2", "", 10).is_aligned());
}

#[test]
fn default_settings() {
    let args = Args::default();
    assert_eq!(args.input, "");
    assert_eq!(args.min_mapq, 4);
    assert_eq!(args.min_genes, 60);
    assert_eq!(args.max_leaked_reads, 10);
}
