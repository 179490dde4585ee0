//! Building blocks of a SPANN/SPTAG-style vector index: the on-disk layout of
//! posting lists, the framing of batch files, the deduplication table used while
//! gathering search candidates, and the integer parts of the tree and graph
//! structures. Every function here is checked by Verus against its contract.
use vstd::prelude::*;

pub mod codec;
pub mod spann;
pub mod recall;
pub mod index;
pub mod multibit;
pub mod datasets;

verus! {

/// Distance metric of the one-bit quantizer.
#[derive(Clone, Copy, PartialEq, Eq, Structural, Debug)]
pub enum MetricType {
    L2,
    IP,
}

} // verus!
