//! Event-fee escrow and pro-rata distribution: attendees pay a fixed fee, the administrator
//! confirms who attended, and the fees of those who did not are shared among those who did,
//! paid out in bounded batches.
//!
//! `model` states what each operation does on an abstract state, `contract` implements the
//! operations and proves them against it, and `laws` proves properties across operations.

mod identity;
mod model;
mod contract;
pub mod laws;

pub use identity::Identity;
pub use contract::{check_admin, DataKey, DistributionContract, Withdrawal};
pub use model::{Attendee, ContractError, ContractModel, MAX_BATCH};
