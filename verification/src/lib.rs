//! A verified double-entry bookkeeping ledger.
//!
//! Users record financial transactions composed of balanced entries against
//! named accounts, in one or more currencies, and later query balances and
//! history. Monetary amounts are exact integers in each currency's minor
//! units; transactions must net to zero per currency.

pub mod dates;
pub mod text;
pub mod currency;
pub mod transactions;
pub mod store;
pub mod reports;
pub mod cursor;
pub mod responses;
