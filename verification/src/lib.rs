//! Accounting of taxonomic leakage: how often reads that stem from one
//! reference gene are assigned to another, counted per gene, per taxon and per
//! ordered pair of taxa.

pub mod common;
pub mod decimal;
pub mod gene_table;
pub mod genes;
pub mod id_to_label;
pub mod joining;
pub mod leakage;
pub mod mask_genes;
pub mod newick;
pub mod norm_genes;
pub mod norm_table;
pub mod normalization;
pub mod pairwise_leakage;
pub mod ranking;
pub mod read_counts;
pub mod report;
pub mod sam_lines;
pub mod snapshot;
pub mod table;
pub mod text;
pub mod utils;
