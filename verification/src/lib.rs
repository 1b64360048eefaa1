//! Battery-drain triage: what is draining the battery right now, and did the
//! last change make it worse.
pub mod baseline;
pub mod clipboard;
pub mod layout;
pub mod ledger;
pub mod metric;
pub mod number;
pub mod order;
pub mod orphans;
pub mod ring;
pub mod sample;
pub mod screen;
pub mod strace;
pub mod suite;
pub mod table;
pub mod tally;
pub mod text;
pub mod threads;
