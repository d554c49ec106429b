//! Data-source kinds of the metrics archive.

use vstd::prelude::*;

verus! {

/// How a metrics series is to be read.
#[derive(Clone, Copy, Debug, PartialEq, Eq, Structural)]
pub enum DST {
    /// Momentary values.
    Gauge,
    /// A monotonically growing counter; rates are its differences.
    Derive,
}

} // verus!
