use fix_gtdb_mg::genes::Genes;

#[test]
fn increment_counts_per_gene() {
    let mut genes = Genes::default();
    genes.increment(2);
    genes.increment(2);
    genes.increment(4);
    assert_eq!(genes.get(2), Some(2));
    assert_eq!(genes.get(4), Some(1));
    assert_eq!(genes.data, vec![-1, -1, 2, -1, 1]);
    assert_eq!(genes.total(), 3);
}

#[test]
fn never_incremented_gene_is_unset_not_zero() {
    let mut genes = Genes::default();
    assert_eq!(genes.get(0), None);
    genes.increment(3);
    assert_eq!(genes.get(0), None);
    assert_eq!(genes.get(1), None);
    assert_eq!(genes.get(2), None);
    assert_eq!(genes.get(3), Some(1));
    assert_eq!(genes.get(4), None);
    assert_eq!(genes.get(1000), None);
}

#[test]
fn growth_fills_new_slots_with_the_sentinel() {
    let mut genes = Genes::default();
    genes.increment(0);
    genes.increment(5);
    assert_eq!(genes.data, vec![1, Genes::EMPTY, Genes::EMPTY, Genes::EMPTY, Genes::EMPTY, 1]);
    genes.increment(2);
    assert_eq!(genes.data.len(), 6);
    assert_eq!(genes.data, vec![1, -1, 1, -1, -1, 1]);
}

#[test]
fn total_skips_unset_slots() {
    let genes = Genes::from_slice(&[-1, 3, -1, 0, 4]);
    assert_eq!(genes.total(), 7);
    assert_eq!(Genes::default().total(), 0);
    assert_eq!(Genes::from_slice(&[-1, -1]).total(), 0);
}

#[test]
fn checked_total_tells_overflow() {
    assert_eq!(Genes::from_slice(&[-1, 3, 4]).checked_total(), Some(7));
    assert_eq!(Genes::from_slice(&[isize::MAX, isize::MAX, 1]).checked_total(), Some(usize::MAX));
    assert_eq!(Genes::from_slice(&[isize::MAX, isize::MAX, 2]).checked_total(), None);
    assert_eq!(Genes::default().checked_total(), Some(0));
}

#[test]
fn from_slice_keeps_the_stored_values() {
    let genes = Genes::from_slice(&[5, -1, 0]);
    assert_eq!(genes.data, vec![5, -1, 0]);
    assert_eq!(genes.get(0), Some(5));
    assert_eq!(genes.get(1), None);
    assert_eq!(genes.get(2), Some(0));
}

#[test]
fn merge_adds_overlapping_genes() {
    let mut a = Genes::from_slice(&[1, -1, 2]);
    let b = Genes::from_slice(&[4, 5, -1]);
    a.merge_from(&b);
    assert_eq!(a.data, vec![5, 5, 2]);
}

#[test]
fn merge_leaves_genes_that_are_unset_in_other() {
    let mut a = Genes::from_slice(&[-1, 7]);
    let b = Genes::from_slice(&[-1, -1, -1, 2, -1, -1]);
    a.merge_from(&b);
    assert_eq!(a.data, vec![-1, 7, -1, 2]);
    assert_eq!(a.get(0), None);
    assert_eq!(a.get(2), None);
    assert_eq!(a.get(3), Some(2));
}

#[test]
fn merge_of_a_zero_count_touches_the_gene() {
    let mut a = Genes::default();
    let b = Genes::from_slice(&[-1, 0]);
    a.merge_from(&b);
    assert_eq!(a.data, vec![-1, 0]);
    assert_eq!(a.get(1), Some(0));
}

#[test]
fn merged_total_is_the_sum_of_totals() {
    let a = Genes::from_slice(&[1, -1, 2, 9]);
    let b = Genes::from_slice(&[4, 5, -1]);
    let mut merged = Genes::from_slice(&a.data);
    merged.merge_from(&b);
    assert_eq!(merged.total(), a.total() + b.total());
    assert_eq!(merged.total(), 21);
}

#[test]
fn merge_is_associative() {
    let a = Genes::from_slice(&[1, -1, 2]);
    let b = Genes::from_slice(&[-1, 3]);
    let c = Genes::from_slice(&[-1, -1, -1, -1, 6]);
    let mut left = Genes::from_slice(&a.data);
    left.merge_from(&b);
    left.merge_from(&c);
    let mut bc = Genes::from_slice(&b.data);
    bc.merge_from(&c);
    let mut right = Genes::from_slice(&a.data);
    right.merge_from(&bc);
    assert_eq!(left.data, right.data);
    assert_eq!(left.data, vec![1, 3, 2, -1, 6]);
}

#[test]
fn merge_is_commutative_gene_by_gene() {
    let a = Genes::from_slice(&[1, -1, 2, -1, -1]);
    let b = Genes::from_slice(&[-1, 3]);
    let mut ab = Genes::from_slice(&a.data);
    ab.merge_from(&b);
    let mut ba = Genes::from_slice(&b.data);
    ba.merge_from(&a);
    for gene in 0..8 {
        assert_eq!(ab.get(gene), ba.get(gene));
    }
}

#[test]
fn genes_row_lists_total_and_every_slot() {
    let genes = Genes::from_slice(&[-1, 3, 0, 12]);
    assert_eq!(genes.row(), "15\t-1\t3\t0\t12");
    assert_eq!(Genes::default().row(), "0\t");
}
