//! Lists of candidate column names for the fields of a transaction.

use vstd::prelude::*;

verus! {

/// Configuration for parsing transactions from csv files
#[derive(Debug, Clone)]
pub struct TransactionParserCsvConfig {
    pub amount_fields: Vec<String>,
    pub account_fields: Vec<String>,
    pub description_fields: Vec<String>,
    pub time_fields: Vec<String>,
}

/// Configuration for parsing transactions
#[derive(Debug, Clone)]
pub struct TransactionParserConfig {
    pub csv: TransactionParserCsvConfig,
}

} // verus!
