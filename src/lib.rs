//! Quality-control statistics for collections of sequencing-alignment records:
//! read-length percentiles, phase blocks, histograms, per-chromosome counts and
//! the per-record derivations that feed them.

pub mod accumulator;
pub mod calculations;
pub mod cli;
pub mod derivation;
pub mod filter;
pub mod histograms;
pub mod karyotype;
pub mod phased;
pub mod report;
pub mod sorting;
pub mod sums;
