//! Distance metric of the multi-bit quantizer.
use vstd::prelude::*;

verus! {

/// Distance metric of the multi-bit quantizer.
#[derive(Clone, Copy, PartialEq, Eq, Structural, Debug)]
pub enum MetricType {
    L2,
    IP,
}

} // verus!
