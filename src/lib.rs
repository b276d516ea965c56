//! A shared-expense ledger. Groups of registered participants record expenses; each
//! expense is split exactly among its participants and moves their running balances;
//! a planner proposes the payments that bring every balance back to zero; and every
//! change is journaled in a per-group activity log.
//!
//! The modules, leaf first:
//! - `types`: accounts, errors, records and events;
//! - `seqs`: sequence helpers and their lemmas;
//! - `split`: the expense splitter;
//! - `planner`: the settlement planner;
//! - `ledger`: the ledger state machine and its mathematical model;
//! - `laws`: properties that relate several operations.
use vstd::prelude::*;

pub mod laws;
pub mod ledger;
pub mod planner;
pub mod seqs;
pub mod split;
pub mod types;

pub use ledger::LumenSplit;
pub use types::{Account, Activity, ActivityType, Error, Event, Expense, Group, GroupWithBalances, MemberInfo, Settlement};

verus! {

} // verus!
