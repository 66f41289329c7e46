//! A verified ledger-replay engine: it replays a strictly ordered stream of
//! per-client transaction records (deposits, withdrawals, disputes, resolves,
//! chargebacks) and produces each client's final balance snapshot.
//!
//! Monetary quantities are fixed-point integers in units of 1/10000 of a
//! whole, so the four-decimal-place rounding the account rules call for is
//! exact on every stored balance; rounding happens once, when a decimal
//! string is read into the fixed-point form.
//!
//! Reading and writing the delimited text files is left to the surrounding
//! application; the library receives plain field values and hands back plain
//! snapshots.

pub mod alist;
pub mod amount;
pub mod record;
pub mod account;
pub mod registry;
