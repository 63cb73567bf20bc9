//! Rules that decide whether a transaction belongs to a category.

use crate::decimal::amount_le;
use crate::decimal::decimal_le;
use crate::decimal::Amount;
use crate::pattern::pattern_matches;
use crate::pattern::Pattern;
use crate::timestamp::Timestamp;
use crate::transaction::Transaction;
use crate::transaction::TransactionView;
use vstd::prelude::*;

verus! {

/// Whether one of `patterns` matches `text`.
pub open spec fn some_pattern_matches(patterns: Seq<Pattern>, text: Seq<char>) -> bool {
    exists|i: int| 0 <= i < patterns.len() && pattern_matches(#[trigger] patterns[i]@, text)
}

/// Rules to determine if a transaction matches a category. A rule that is
/// absent holds of every transaction.
#[derive(Debug)]
pub struct TransactionMatcher {
    /// Minimum amount of the transaction inclusive
    pub min: Option<Amount>,
    /// Maximum amount of the transaction inclusive
    pub max: Option<Amount>,
    /// Match against account name of the transaction
    pub account: Option<String>,
    /// Patterns to match against the description of the transaction; with none
    /// every description matches, otherwise one of them has to
    pub description: Vec<Pattern>,
    /// Time inclusive after which the transaction must have occurred
    pub begin: Option<Timestamp>,
    /// Time inclusive before which the transaction must have occurred
    pub end: Option<Timestamp>,
}

impl TransactionMatcher {
    /// Every rule that is present holds of `t`.
    pub open spec fn matches_spec(&self, t: TransactionView) -> bool {
        &&& self.min matches Some(min) ==> decimal_le(min@, t.amount)
        &&& self.max matches Some(max) ==> decimal_le(t.amount, max@)
        &&& self.account matches Some(account) ==> account@ == t.account
        &&& self.description@.len() == 0 || some_pattern_matches(self.description@, t.description)
        &&& self.begin matches Some(begin) ==> begin.not_after(t.time)
        &&& self.end matches Some(end) ==> t.time.not_after(end)
    }

    fn description_matches(&self, text: &str) -> (r: bool)
        ensures
            r == (self.description@.len() == 0 || some_pattern_matches(self.description@, text@)),
    {
        if self.description.len() == 0 {
            return true;
        }
        let mut i: usize = 0;
        while i < self.description.len()
            invariant
                i <= self.description@.len(),
                forall|j: int| 0 <= j < i ==> !pattern_matches(self.description@[j]@, text@),
            decreases self.description@.len() - i,
        {
            if self.description[i].is_match(text) {
                return true;
            }
            i += 1;
        }
        false
    }

    /// Check if a transaction is a match
    pub fn matches(&self, transaction: &Transaction) -> (r: bool)
        ensures
            r == self.matches_spec(transaction@),
    {
        let min = match &self.min {
            Some(min) => amount_le(min, &transaction.amount),
            None => true,
        };
        let max = match &self.max {
            Some(max) => amount_le(&transaction.amount, max),
            None => true,
        };
        let account = match &self.account {
            Some(account) => *account == transaction.account,
            None => true,
        };
        let description = self.description_matches(transaction.description.as_str());
        let begin = match &self.begin {
            Some(begin) => begin.le(&transaction.time),
            None => true,
        };
        let end = match &self.end {
            Some(end) => transaction.time.le(end),
            None => true,
        };
        min && max && account && description && begin && end
    }
}

} // verus!
