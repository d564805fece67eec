//! Distribution of one fixed amount of a token from a single source balance
//! to a caller-supplied list of recipient balances, all or nothing.

pub mod laws;
pub mod ledger;
pub mod record;
pub mod splitter;
