//! The replicated log and the state machine: node health, probe rounds and fenced VIP ownership.

use vstd::prelude::*;

pub mod assignment_laws;
pub mod eligibility_laws;
pub mod fencing_laws;
pub mod handover_laws;
pub mod log;
pub mod log_laws;
pub mod operation_laws;
pub mod placement;
pub mod placement_laws;
pub mod state;
pub mod state_machine;
pub mod store_laws;
pub mod vip_logic;

verus! {

} // verus!
