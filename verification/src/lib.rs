//! Reconciliation of a bank statement export against an accounting-ledger
//! export: records are matched by amount and date, grouped and counted by
//! amount, and the amounts that disagree are reported.

pub mod amounts;
pub mod records;
pub mod amount_map;
pub mod matching;
pub mod reconcile;
pub mod text;
pub mod messages;
pub mod report;
