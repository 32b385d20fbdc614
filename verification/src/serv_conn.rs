//! The handle by which an upstream is known.

use vstd::prelude::*;

verus! {

/// The handle of an upstream: the number under which the multiplexed
/// connection to a service is kept by whoever drives it.
#[derive(Debug, Clone, Copy, PartialEq, Eq, Hash, Structural)]
pub struct ServiceConnection(pub u64);

} // verus!
