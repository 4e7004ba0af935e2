//! Dinero: double entry accounting on ledger journal files.
//!
//! The library reads ledger journals into transactions, balances them with
//! exact rational arithmetic and computes the figures that the reports show.

pub mod rational;
pub mod text;
pub mod date;
pub mod models;
pub mod error;
pub mod money;
pub mod transaction;
pub mod assoc;
pub mod list;
pub mod filter;
pub mod chars;
pub mod numbers;
pub mod parser;
pub mod ledger;
pub mod period;
pub mod laws;
pub mod report;
pub mod cli;
pub mod format;
