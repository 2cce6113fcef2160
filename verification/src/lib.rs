//! A small expense-ledger library: an in-memory ordered list of expense
//! records with fixed-point prices, a textual persistence format with a
//! proved encode/parse round trip, and table rendering for display.

pub mod codec;
pub mod expense;
pub mod ledger;
pub mod price;
pub mod render;
pub mod session;
mod strbuf;
