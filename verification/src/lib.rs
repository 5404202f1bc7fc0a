//! VIP failover among the members of a Raft cluster.
//!
//! Members report their health through a replicated log. From what has been committed, every member
//! computes the same holder for every virtual IP, and binds an address only once the holder before
//! it has released it or is no longer eligible.

use vstd::prelude::*;

pub mod addr;
pub mod addr_laws;
pub mod bind_policy;
pub mod config;
pub mod config_laws;
pub mod health;
pub mod normalize;
pub mod order;
pub mod ordmap;
pub mod raft;
pub mod submit;
pub mod text;
pub mod vip;

verus! {

} // verus!
