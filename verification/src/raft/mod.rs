//! Consensus-driven VIP ownership.

use vstd::prelude::*;

pub mod cluster;
pub mod network;
pub mod probe;
pub mod store;
pub mod types;
pub mod wire;

verus! {

} // verus!
