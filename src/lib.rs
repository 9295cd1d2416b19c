//! Settling a group's debts with as few transfers as possible.
//!
//! Balances are whole minor currency units (cents): a positive balance is
//! owed money, a negative one owes money. `ledger` holds the data and its
//! mathematical model, `share` rebases a group around its mean, `settle` runs
//! the branch-and-bound search for a shortest settlement, and `optimal` proves
//! that no settlement of any shape is shorter than the one the search finds.

pub mod ledger;
pub mod settle;
pub mod share;
pub mod optimal;
