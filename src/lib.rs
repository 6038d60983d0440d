//! A schema-migration engine: which migrations to run, in what order, and
//! how a run proceeds under an exclusive lock with per-unit atomicity.
pub mod catalog;
pub mod ledger;
pub mod migrator;
pub mod order;
pub mod planner;
pub mod run;

pub use crate::migrator::Migrator;
