//! Categorization of financial transactions into a hierarchy of categories.
//!
//! Transactions are read from CSV data, matched against declarative rules and
//! aggregated bottom-up into a tree of counts and totals.

pub mod categorizer;
pub mod decimal;
pub mod pattern;
pub mod sorting;
pub mod text;
pub mod timestamp;
pub mod transaction;
pub mod util;
