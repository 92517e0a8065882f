//! A plain-text double-entry accounting library: account names,
//! commodity symbols, tags, number formats and market-price lines,
//! with their contracts proved by Verus.

mod text;
pub mod decimal;
pub mod date;
pub mod interner;
pub mod symbol;
pub mod iter;
pub mod journal;
pub mod parser;
pub mod number;
pub mod quantity;
pub mod amount;
pub mod pricedb;
pub mod prices;
pub mod xact;
pub mod misc;
pub mod display;
pub mod report;
pub mod catalog;
pub mod holdings;
pub mod ntypes;
pub mod tamount;
pub mod accview;
pub mod balview;
pub mod ledger;
pub mod account;
pub mod register;
pub mod print;
