//! Kinds of tree that an SPTAG index can use to find graph entry points.
use vstd::prelude::*;

verus! {

/// Tree that seeds the graph search of an SPTAG index.
#[derive(Clone, Copy, PartialEq, Eq, Structural, Debug)]
pub enum IndexType {
    KDT,
    BKT,
}

} // verus!
