//! A personal finance ledger: named buckets of timestamped, signed amounts,
//! stored one record per line, queried for balances, histories and per-day
//! sums. Amounts are held exactly, in hundredths of a unit.

pub mod aggregate;
pub mod buckets;
pub mod clock;
pub mod commands;
pub mod errors;
pub mod numerals;
pub mod records;
