//! Work-queue policy for in-repo `tasks.yaml` files.
//!
//! The ledger model, the rules a ledger must keep, and the line-preserving
//! text surgery the verbs perform, each stated as a contract and proved.

pub mod chars;
pub mod schema;
pub mod ledger;
pub mod report;
pub mod trailers;
pub mod cli;
pub mod edit;
pub mod hooks;
pub mod mutate;
pub mod document;
pub mod format;
pub mod laws;
pub mod check;
