//! A verified ledger for streamed payment transactions.
//!
//! The crate processes an ordered stream of transaction records (deposit,
//! withdrawal, dispute, resolve, chargeback) and maintains one account per
//! client, each holding available and held funds and a lock flag.  All
//! amounts are exact fixed-point decimals counted in ten-thousandths, so
//! accumulation at 0.0001 granularity is bit-exact.  The state machine for
//! accounts and for the dispute lifecycle is specified by pure transition
//! functions, and every operation is proved to follow them.

pub mod account;
pub mod amount;
pub mod engine;
pub mod transaction;
