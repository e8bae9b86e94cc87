//! A per-client balance ledger driven by a stream of transactions.
//!
//! Every transaction is either applied to the account of its client or
//! rejected with a typed error; the executable code is proved to follow the
//! transition rules stated in each module.

pub mod account;
pub mod numeral;
pub mod record;
pub mod service;
pub mod transaction;
