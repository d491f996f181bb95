//! Local haplotype phasing for polyploid genomes.
//!
//! Reads are fragments: allele calls at variant sites. The library selects the
//! fragments that touch an interval, builds the graph of overlapping fragments,
//! seeds one cluster per haplotype from a clique of far-apart fragments, fills
//! the clusters greedily, and refines the partition by single-read moves.
//!
//! Real-valued scores never enter the library. They are ordinal: callers hand
//! them over as signed integers whose order is the order of the scores (see
//! [`weight`]), through the closures that the clustering functions take.

pub mod clique;
pub mod cluster;
pub mod coverage;
pub mod determinism;
pub mod epsilon;
pub mod fx;
pub mod frag;
pub mod graph;
pub mod hap_block;
pub mod interval;
pub mod lookup;
pub mod moves;
pub mod optimize;
pub mod order;
pub mod partition;
pub mod populate;
pub mod stats;
pub mod totals;
pub mod weight;
