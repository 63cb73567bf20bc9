//! The categorizer: a forest of categories that claims transactions.
//!
//! The forest is walked depth first, in listed order. A leaf category claims
//! every transaction that one of its matchers accepts and that no earlier leaf
//! has claimed; a category with subcategories sums up what they have claimed.

pub mod categorized;
pub mod laws;
pub mod permutation;
pub mod reordering;
pub mod transaction_matcher;

use crate::categorizer::categorized::branch_view;
use crate::categorizer::categorized::categorized_views;
use crate::categorizer::categorized::all_consistent;
use crate::categorizer::categorized::leaf_view;
use crate::categorizer::categorized::sum_absolute_amounts;
use crate::categorizer::categorized::sum_absolute_totals;
use crate::categorizer::categorized::sum_amounts;
use crate::categorizer::categorized::sum_counts;
use crate::categorizer::categorized::sum_totals;
use crate::categorizer::categorized::Categorized;
use crate::categorizer::categorized::CategorizedChildren;
use crate::categorizer::categorized::CategorizedList;
use crate::categorizer::categorized::CategorizedView;
use crate::categorizer::laws::lemma_categorize_forest_consistent;
use crate::categorizer::transaction_matcher::TransactionMatcher;
use crate::decimal::amount_abs;
use crate::decimal::amount_sum;
use crate::decimal::Amount;
use crate::transaction::borrowed_views;
use crate::transaction::row_view;
use crate::transaction::transaction_views;
use crate::transaction::Transaction;
use crate::transaction::TransactionView;
use vstd::prelude::*;

verus! {

/// Possible category children, either a list of transaction matchers or subcategories
#[derive(Debug)]
pub enum CategoryChildren {
    /// Transaction matchers
    TransactionMatchers(Vec<TransactionMatcher>),
    /// Subcategories
    Subcategories(Vec<Category>),
}

/// Hierarchy of categories with arbitrary depth
#[derive(Debug)]
pub struct Category {
    /// Category name
    pub category: String,
    /// Category children
    pub children: CategoryChildren,
}

/// Transaction categorizer
///
/// Categories are constructed into a hierarchy. Matchers are used to assign
/// transactions to leaf categories.
#[derive(Debug)]
pub struct Categorizer {
    /// Filters to apply to transactions before doing any categorization
    pub transaction_filters: Option<Vec<TransactionMatcher>>,
    /// Category hierarchy
    pub categories: Vec<Category>,
}

/// Whether one of `matchers` matches `t`.
pub open spec fn any_matches(matchers: Seq<TransactionMatcher>, t: TransactionView) -> bool {
    exists|i: int| 0 <= i < matchers.len() && (#[trigger] matchers[i]).matches_spec(t)
}

/// Those of `transactions` that one of `matchers` matches, in order.
pub open spec fn claimed(matchers: Seq<TransactionMatcher>, transactions: Seq<TransactionView>) -> Seq<
    TransactionView,
>
    decreases transactions.len(),
{
    if transactions.len() == 0 {
        Seq::empty()
    } else {
        let before = claimed(matchers, transactions.drop_last());
        if any_matches(matchers, transactions.last()) {
            before.push(transactions.last())
        } else {
            before
        }
    }
}

/// Those of `transactions` that none of `matchers` matches, in order.
pub open spec fn unclaimed(
    matchers: Seq<TransactionMatcher>,
    transactions: Seq<TransactionView>,
) -> Seq<TransactionView>
    decreases transactions.len(),
{
    if transactions.len() == 0 {
        Seq::empty()
    } else {
        let before = unclaimed(matchers, transactions.drop_last());
        if any_matches(matchers, transactions.last()) {
            before
        } else {
            before.push(transactions.last())
        }
    }
}

/// The transactions that are considered at all: every one without filters,
/// otherwise those that one of the filters matches.
pub open spec fn retained(
    filters: Option<Vec<TransactionMatcher>>,
    transactions: Seq<TransactionView>,
) -> Seq<TransactionView> {
    match filters {
        Some(filters) => claimed(filters@, transactions),
        None => transactions,
    }
}

/// The node that `category` gives on the transactions in `remaining`, and the
/// transactions it leaves for the categories after it.
pub open spec fn categorize_category(category: Category, remaining: Seq<TransactionView>) -> (
    CategorizedView,
    Seq<TransactionView>,
)
    decreases category,
{
    match category.children {
        CategoryChildren::TransactionMatchers(matchers) => (
            leaf_view(category.category@, claimed(matchers@, remaining)),
            unclaimed(matchers@, remaining),
        ),
        CategoryChildren::Subcategories(subcategories) => {
            let (nodes, rest) = categorize_forest(subcategories@, remaining);
            (branch_view(category.category@, nodes), rest)
        },
    }
}

/// The nodes that `categories` give in order, each on what the ones before it
/// have left of `remaining`, and what is left after the last.
pub open spec fn categorize_forest(categories: Seq<Category>, remaining: Seq<TransactionView>) -> (
    Seq<CategorizedView>,
    Seq<TransactionView>,
)
    decreases categories,
{
    if categories.len() == 0 {
        (Seq::empty(), remaining)
    } else {
        let (nodes, rest) = categorize_forest(categories.drop_last(), remaining);
        let (node, rest) = categorize_category(categories.last(), rest);
        (nodes.push(node), rest)
    }
}

/// Whether one of `matchers` matches `transaction`.
fn any_match(matchers: &Vec<TransactionMatcher>, transaction: &Transaction) -> (r: bool)
    ensures
        r == any_matches(matchers@, transaction@),
{
    let mut i: usize = 0;
    while i < matchers.len()
        invariant
            i <= matchers@.len(),
            forall|j: int| 0 <= j < i ==> !(#[trigger] matchers@[j]).matches_spec(transaction@),
        decreases matchers@.len() - i,
    {
        if matchers[i].matches(transaction) {
            return true;
        }
        i += 1;
    }
    false
}

/// Splits `remaining` into clones of the transactions that `matchers` claim and
/// the transactions they leave.
fn claim<'a>(matchers: &Vec<TransactionMatcher>, remaining: Vec<&'a Transaction>) -> (r: (
    Vec<Transaction>,
    Vec<&'a Transaction>,
))
    ensures
        transaction_views(r.0@) == claimed(matchers@, borrowed_views(remaining@)),
        borrowed_views(r.1@) == unclaimed(matchers@, borrowed_views(remaining@)),
        r.0@.len() + r.1@.len() == remaining@.len(),
{
    let ghost all = borrowed_views(remaining@);
    let mut taken: Vec<Transaction> = Vec::new();
    let mut rest: Vec<&'a Transaction> = Vec::new();
    let mut i: usize = 0;
    assert(all.take(0) =~= Seq::empty());
    while i < remaining.len()
        invariant
            i <= remaining@.len(),
            all == borrowed_views(remaining@),
            transaction_views(taken@) =~= claimed(matchers@, all.take(i as int)),
            borrowed_views(rest@) =~= unclaimed(matchers@, all.take(i as int)),
            taken@.len() + rest@.len() == i,
        decreases remaining@.len() - i,
    {
        let transaction: &'a Transaction = remaining[i];
        proof {
            let next = all.take(i + 1);
            assert(next.drop_last() =~= all.take(i as int));
            assert(next.last() == transaction@);
        }
        if any_match(matchers, transaction) {
            taken.push(transaction.clone());
        } else {
            rest.push(transaction);
        }
        i += 1;
    }
    assert(all.take(i as int) =~= all);
    (taken, rest)
}

/// The count, the total and the absolute total of `transactions`.
fn total_transactions(transactions: &Vec<Transaction>) -> (r: (u64, Amount, Amount))
    ensures
        r.0 == transactions@.len(),
        r.1@ == sum_amounts(transaction_views(transactions@)),
        r.2@ == sum_absolute_amounts(transaction_views(transactions@)),
{
    let ghost all = transaction_views(transactions@);
    let mut count: u64 = 0;
    let mut total = Amount::zero();
    let mut absolute_total = Amount::zero();
    let mut i: usize = 0;
    assert(all.take(0) =~= Seq::empty());
    while i < transactions.len()
        invariant
            i <= transactions@.len(),
            all == transaction_views(transactions@),
            count == i,
            total@ == sum_amounts(all.take(i as int)),
            absolute_total@ == sum_absolute_amounts(all.take(i as int)),
        decreases transactions@.len() - i,
    {
        proof {
            let next = all.take(i + 1);
            assert(next.drop_last() =~= all.take(i as int));
            assert(next.last() == transactions@[i as int]@);
        }
        count += 1;
        total = amount_sum(&total, &transactions[i].amount);
        absolute_total = amount_sum(&absolute_total, &amount_abs(&transactions[i].amount));
        i += 1;
    }
    assert(all.take(i as int) =~= all);
    (count, total, absolute_total)
}

/// The sums of the counts, the totals and the absolute totals of `nodes`.
fn total_categorized(nodes: &Vec<Categorized>) -> (r: (u64, Amount, Amount))
    requires
        sum_counts(categorized_views(nodes@)) <= u64::MAX,
    ensures
        r.0 == sum_counts(categorized_views(nodes@)),
        r.1@ == sum_totals(categorized_views(nodes@)),
        r.2@ == sum_absolute_totals(categorized_views(nodes@)),
{
    let ghost all = categorized_views(nodes@);
    let mut count: u64 = 0;
    let mut total = Amount::zero();
    let mut absolute_total = Amount::zero();
    let mut i: usize = 0;
    proof {
        assert(all.take(0) =~= Seq::empty());
        lemma_categorized_views_len(nodes@);
    }
    while i < nodes.len()
        invariant
            i <= nodes@.len(),
            all == categorized_views(nodes@),
            all.len() == nodes@.len(),
            sum_counts(all) <= u64::MAX,
            count == sum_counts(all.take(i as int)),
            total@ == sum_totals(all.take(i as int)),
            absolute_total@ == sum_absolute_totals(all.take(i as int)),
        decreases nodes@.len() - i,
    {
        proof {
            let next = all.take(i + 1);
            assert(next.drop_last() =~= all.take(i as int));
            lemma_categorized_views_index(nodes@, i as int);
            lemma_sum_counts_prefix(all, i + 1);
        }
        count += nodes[i].count;
        total = amount_sum(&total, &nodes[i].total);
        absolute_total = amount_sum(&absolute_total, &nodes[i].absolute_total);
        i += 1;
    }
    assert(all.take(i as int) =~= all);
    (count, total, absolute_total)
}

/// The views of a list of nodes are the views of its nodes.
pub proof fn lemma_categorized_views_index(nodes: Seq<Categorized>, i: int)
    requires
        0 <= i < nodes.len(),
    ensures
        categorized_views(nodes).len() == nodes.len(),
        categorized_views(nodes)[i] == nodes[i]@,
    decreases nodes.len(),
{
    lemma_categorized_views_len(nodes);
    if i < nodes.len() - 1 {
        lemma_categorized_views_index(nodes.drop_last(), i);
    }
}

/// A list of nodes has as many views as nodes.
pub proof fn lemma_categorized_views_len(nodes: Seq<Categorized>)
    ensures
        categorized_views(nodes).len() == nodes.len(),
    decreases nodes.len(),
{
    if nodes.len() > 0 {
        lemma_categorized_views_len(nodes.drop_last());
    }
}

/// The counts of the first `n` nodes sum to no more than the counts of all.
proof fn lemma_sum_counts_prefix(nodes: Seq<CategorizedView>, n: int)
    requires
        0 <= n <= nodes.len(),
    ensures
        sum_counts(nodes.take(n)) <= sum_counts(nodes),
    decreases nodes.len(),
{
    if n == nodes.len() {
        assert(nodes.take(n) =~= nodes);
    } else {
        assert(nodes.drop_last().take(n) =~= nodes.take(n));
        lemma_sum_counts_prefix(nodes.drop_last(), n);
    }
}

impl Category {
    /// Categorizes what is left of the transactions: the node of this
    /// category, and the transactions it has not claimed.
    fn categorize<'a>(&self, remaining: Vec<&'a Transaction>) -> (r: (
        Categorized,
        Vec<&'a Transaction>,
    ))
        ensures
            (r.0@, borrowed_views(r.1@)) == categorize_category(*self, borrowed_views(remaining@)),
            r.0.count + r.1@.len() == remaining@.len(),
        decreases self,
    {
        match &self.children {
            CategoryChildren::TransactionMatchers(matchers) => {
                let (transactions, rest) = claim(matchers, remaining);
                let (count, total, absolute_total) = total_transactions(&transactions);
                let node = Categorized {
                    category: self.category.clone(),
                    count,
                    total,
                    absolute_total,
                    children: CategorizedChildren::Transactions(transactions),
                };
                (node, rest)
            },
            CategoryChildren::Subcategories(subcategories) => {
                let ghost available = remaining.len();
                let (nodes, rest) = categorize_all(subcategories, remaining);
                assert(sum_counts(categorized_views(nodes@)) <= available);
                let (count, total, absolute_total) = total_categorized(&nodes);
                let node = Categorized {
                    category: self.category.clone(),
                    count,
                    total,
                    absolute_total,
                    children: CategorizedChildren::Subcategories(nodes),
                };
                (node, rest)
            },
        }
    }
}

/// Categorizes what is left of the transactions with each of `categories` in
/// turn: their nodes, and the transactions that none of them has claimed.
fn categorize_all<'a>(categories: &Vec<Category>, remaining: Vec<&'a Transaction>) -> (r: (
    Vec<Categorized>,
    Vec<&'a Transaction>,
))
    ensures
        (categorized_views(r.0@), borrowed_views(r.1@)) == categorize_forest(
            categories@,
            borrowed_views(remaining@),
        ),
        sum_counts(categorized_views(r.0@)) + r.1@.len() == remaining@.len(),
    decreases categories,
{
    let ghost all = borrowed_views(remaining@);
    let ghost total = remaining@.len();
    let mut nodes: Vec<Categorized> = Vec::new();
    let mut remaining = remaining;
    let mut i: usize = 0;
    assert(categories@.take(0) =~= Seq::empty());
    while i < categories.len()
        invariant
            i <= categories@.len(),
            (categorized_views(nodes@), borrowed_views(remaining@)) == categorize_forest(
                categories@.take(i as int),
                all,
            ),
            sum_counts(categorized_views(nodes@)) + remaining@.len() == total,
        decreases categories@.len() - i,
    {
        let (node, rest) = categories[i].categorize(remaining);
        proof {
            let next = categories@.take(i + 1);
            assert(next.drop_last() =~= categories@.take(i as int));
            assert(next.last() == categories@[i as int]);
            let grown = nodes@.push(node);
            assert(grown.drop_last() =~= nodes@);
            assert(categorized_views(grown) == categorized_views(nodes@).push(node@));
            assert(categorized_views(grown).drop_last() =~= categorized_views(nodes@));
        }
        nodes.push(node);
        remaining = rest;
        i += 1;
    }
    assert(categories@.take(i as int) =~= categories@);
    (nodes, remaining)
}

impl Categorizer {
    /// The nodes of the categories and the transactions that no category has
    /// claimed, for the transactions that pass the filters.
    pub open spec fn categorize_spec(&self, transactions: Seq<TransactionView>) -> (
        Seq<CategorizedView>,
        Seq<TransactionView>,
    ) {
        categorize_forest(self.categories@, retained(self.transaction_filters, transactions))
    }

    /// `outcome` is what categorizing `transactions` gives: the nodes of the
    /// categories, and the transactions that no category has claimed.
    pub open spec fn categorizes(
        &self,
        transactions: Seq<Transaction>,
        outcome: (CategorizedList, Vec<&Transaction>),
    ) -> bool {
        (outcome.0@, borrowed_views(outcome.1@)) == self.categorize_spec(
            transaction_views(transactions),
        )
    }

    /// Categorize transactions returning a new category hierarchy, and the
    /// transactions that passed the filters and that no category has claimed
    pub fn categorize<'a>(&self, transactions: &'a [Transaction]) -> (r: (
        CategorizedList,
        Vec<&'a Transaction>,
    ))
        ensures
            self.categorizes(transactions@, r),
            r.0@.len() == self.categories@.len(),
            all_consistent(r.0@),
    {
        let ghost all = transaction_views(transactions@);
        let mut considered: Vec<&'a Transaction> = Vec::new();
        let mut i: usize = 0;
        assert(all.take(0) =~= Seq::empty());
        while i < transactions.len()
            invariant
                i <= transactions@.len(),
                all == transaction_views(transactions@),
                borrowed_views(considered@) =~= retained(
                    self.transaction_filters,
                    all.take(i as int),
                ),
            decreases transactions@.len() - i,
        {
            let transaction = &transactions[i];
            proof {
                let next = all.take(i + 1);
                assert(next.drop_last() =~= all.take(i as int));
                assert(next.last() == transaction@);
                if self.transaction_filters is None {
                    assert(all.take(i as int).push(transaction@) =~= next);
                }
            }
            let keep = match &self.transaction_filters {
                Some(filters) => any_match(filters, transaction),
                None => true,
            };
            if keep {
                considered.push(transaction);
            }
            i += 1;
        }
        assert(all.take(i as int) =~= all);
        proof {
            lemma_categorize_forest_consistent(self.categories@, borrowed_views(considered@));
        }
        let (categorized, uncategorized) = categorize_all(&self.categories, considered);
        (CategorizedList { categorized }, uncategorized)
    }
}

/// Why the categories of a categorizer are not in order.
#[derive(Debug)]
pub enum CategorizerError {
    /// The categories given are the target of more than one transaction matcher.
    DuplicateCategoriesInTransactionMatchers(Vec<String>),
    /// The categories given occur more than once in the category hierarchy.
    DuplicateCategoriesInCategoryHierarchy(Vec<String>),
    /// The categories given are the target of a transaction matcher and do
    /// not occur in the category hierarchy.
    MissingCategoriesInCategoryHierarchy(Vec<String>),
}

/// The names of `category` and of the categories below it, parents first.
pub open spec fn category_names(category: Category) -> Seq<Seq<char>>
    decreases category,
{
    match category.children {
        CategoryChildren::TransactionMatchers(_) => seq![category.category@],
        CategoryChildren::Subcategories(subcategories) => seq![category.category@] + forest_names(
            subcategories@,
        ),
    }
}

/// The names of `categories` and of the categories below them, in listed order.
pub open spec fn forest_names(categories: Seq<Category>) -> Seq<Seq<char>>
    decreases categories,
{
    if categories.len() == 0 {
        Seq::empty()
    } else {
        forest_names(categories.drop_last()) + category_names(categories.last())
    }
}

/// `name` occurs at two places of `names`.
pub open spec fn occurs_twice(names: Seq<Seq<char>>, name: Seq<char>) -> bool {
    exists|i: int, j: int|
        0 <= i < j < names.len() && #[trigger] names[i] == name && #[trigger] names[j] == name
}

/// `found` holds, each once, the names that occur at two places of `names`.
pub open spec fn holds_duplicates(found: Seq<Seq<char>>, names: Seq<Seq<char>>) -> bool {
    &&& found.no_duplicates()
    &&& forall|name: Seq<char>| found.contains(name) <==> occurs_twice(names, name)
}

/// `found` holds, each once, the names of `wanted` that do not occur in `present`.
pub open spec fn holds_missing(
    found: Seq<Seq<char>>,
    wanted: Seq<Seq<char>>,
    present: Seq<Seq<char>>,
) -> bool {
    &&& found.no_duplicates()
    &&& forall|name: Seq<char>|
        found.contains(name) <==> wanted.contains(name) && !present.contains(name)
}

/// Whether `name` is among the first `n` of `names`.
fn contains(names: &Vec<String>, n: usize, name: &String) -> (r: bool)
    requires
        n <= names@.len(),
    ensures
        r == row_view(names@).take(n as int).contains(name@),
{
    let ghost texts = row_view(names@).take(n as int);
    let mut i: usize = 0;
    while i < n
        invariant
            i <= n <= names@.len(),
            texts == row_view(names@).take(n as int),
            forall|k: int| 0 <= k < i ==> texts[k] != name@,
        decreases n - i,
    {
        if names[i] == *name {
            assert(texts[i as int] == name@);
            return true;
        }
        i += 1;
    }
    false
}

/// The names that occur more than once in `names`, each once.
fn duplicates(names: &Vec<String>) -> (r: Vec<String>)
    ensures
        holds_duplicates(row_view(r@), row_view(names@)),
{
    let ghost all = row_view(names@);
    let mut found: Vec<String> = Vec::new();
    let mut i: usize = 0;
    while i < names.len()
        invariant
            i <= names@.len(),
            all == row_view(names@),
            holds_duplicates(row_view(found@), all.take(i as int)),
        decreases names@.len() - i,
    {
        let ghost before = row_view(found@);
        let ghost seen = all.take(i as int);
        let ghost next = all.take(i + 1);
        let name = &names[i];
        let repeated = contains(names, i, name);
        let known = contains(&found, found.len(), name);
        assert(before.take(before.len() as int) =~= before);
        if repeated && !known {
            found.push(name.clone());
            assert(row_view(found@) =~= before.push(name@));
        }
        proof {
            let after = row_view(found@);
            assert forall|other: Seq<char>| after.contains(other) <==> occurs_twice(
                next,
                other,
            ) by {
                if occurs_twice(next, other) {
                    let (a, b) = choose|a: int, b: int|
                        0 <= a < b < next.len() && #[trigger] next[a] == other && #[trigger] next[b]
                            == other;
                    if b < i {
                        assert(seen[a] == other && seen[b] == other);
                        assert(occurs_twice(seen, other));
                    } else {
                        assert(seen[a] == other);
                        assert(other == name@);
                    }
                    if after == before {
                        assert(after.contains(other));
                    } else {
                        assert(after.last() == name@);
                        if before.contains(other) {
                            let k = choose|k: int| 0 <= k < before.len() && before[k] == other;
                            assert(after[k] == other);
                        }
                    }
                }
                if after.contains(other) {
                    let k = choose|k: int| 0 <= k < after.len() && after[k] == other;
                    if k < before.len() {
                        assert(before[k] == other);
                        assert(before.contains(other));
                        let (a, b) = choose|a: int, b: int|
                            0 <= a < b < seen.len() && #[trigger] seen[a] == other
                                && #[trigger] seen[b] == other;
                        assert(next[a] == other && next[b] == other);
                    } else {
                        let a = choose|a: int| 0 <= a < seen.len() && seen[a] == name@;
                        assert(next[a] == other && next[i as int] == other);
                    }
                }
            }
        }
        i += 1;
    }
    assert(all.take(i as int) =~= all);
    found
}

/// The names of `wanted` that do not occur in `present`, each once.
fn missing(wanted: &Vec<String>, present: &Vec<String>) -> (r: Vec<String>)
    ensures
        holds_missing(row_view(r@), row_view(wanted@), row_view(present@)),
{
    let ghost all = row_view(wanted@);
    let ghost have = row_view(present@);
    let mut found: Vec<String> = Vec::new();
    let mut i: usize = 0;
    while i < wanted.len()
        invariant
            i <= wanted@.len(),
            all == row_view(wanted@),
            have == row_view(present@),
            holds_missing(row_view(found@), all.take(i as int), have),
        decreases wanted@.len() - i,
    {
        let ghost before = row_view(found@);
        let ghost seen = all.take(i as int);
        let ghost next = all.take(i + 1);
        let name = &wanted[i];
        let there = contains(present, present.len(), name);
        let known = contains(&found, found.len(), name);
        assert(before.take(before.len() as int) =~= before);
        assert(have.take(have.len() as int) =~= have);
        if !there && !known {
            found.push(name.clone());
            assert(row_view(found@) =~= before.push(name@));
        }
        proof {
            let after = row_view(found@);
            assert(next =~= seen.push(name@));
            assert forall|other: Seq<char>| after.contains(other) <==> next.contains(other)
                && !have.contains(other) by {
                if next.contains(other) && !have.contains(other) {
                    let k = choose|k: int| 0 <= k < next.len() && next[k] == other;
                    if k < i {
                        assert(seen[k] == other);
                        assert(seen.contains(other));
                        let m = choose|m: int| 0 <= m < before.len() && before[m] == other;
                        assert(after[m] == other);
                    } else if known {
                        let m = choose|m: int| 0 <= m < before.len() && before[m] == other;
                        assert(after[m] == other);
                    } else {
                        assert(after[after.len() - 1] == other);
                    }
                    assert(after.contains(other));
                }
                if after.contains(other) {
                    let k = choose|k: int| 0 <= k < after.len() && after[k] == other;
                    if k < before.len() {
                        assert(before[k] == other);
                        assert(before.contains(other));
                        let m = choose|m: int| 0 <= m < seen.len() && seen[m] == other;
                        assert(next[m] == other);
                    } else {
                        assert(other == name@);
                        assert(next[i as int] == other);
                    }
                    assert(next.contains(other));
                }
            }
        }
        i += 1;
    }
    assert(all.take(i as int) =~= all);
    found
}

/// Adds the names of `categories` and of the categories below them to `names`.
fn collect_names(categories: &Vec<Category>, names: &mut Vec<String>)
    ensures
        row_view(final(names)@) == row_view(old(names)@) + forest_names(categories@),
    decreases categories,
{
    let ghost start = row_view(names@);
    let mut i: usize = 0;
    assert(categories@.take(0) =~= Seq::empty());
    assert(start + forest_names(categories@.take(0)) =~= start);
    while i < categories.len()
        invariant
            i <= categories@.len(),
            row_view(names@) == start + forest_names(categories@.take(i as int)),
        decreases categories@.len() - i,
    {
        let ghost before = row_view(names@);
        let category = &categories[i];
        names.push(category.category.clone());
        assert(row_view(names@) =~= before.push(category.category@));
        match &category.children {
            CategoryChildren::Subcategories(subcategories) => {
                collect_names(subcategories, names);
            },
            CategoryChildren::TransactionMatchers(_) => {},
        }
        proof {
            let next = categories@.take(i + 1);
            assert(next.drop_last() =~= categories@.take(i as int));
            assert(next.last() == categories@[i as int]);
            assert(row_view(names@) =~= before + category_names(*category));
            assert(row_view(names@) =~= start + forest_names(next));
        }
        i += 1;
    }
    assert(categories@.take(i as int) =~= categories@);
}

impl Category {
    /// The names of this category and of the categories below it, parents first.
    pub fn categories(&self) -> (r: Vec<String>)
        ensures
            row_view(r@) == category_names(*self),
    {
        let mut names: Vec<String> = Vec::new();
        names.push(self.category.clone());
        assert(row_view(names@) =~= seq![self.category@]);
        match &self.children {
            CategoryChildren::Subcategories(subcategories) => {
                collect_names(subcategories, &mut names);
            },
            CategoryChildren::TransactionMatchers(_) => {},
        }
        names
    }
}

impl Categorizer {
    /// What validating the categories gives, for the categories that
    /// transaction matchers name as their target:
    /// * no category is the target of two transaction matchers,
    /// * no category occurs twice in the category hierarchy,
    /// * every target of a transaction matcher occurs in the category hierarchy.
    /// The first of these that fails is reported, with the categories at fault.
    pub open spec fn validated(&self, targets: Seq<Seq<char>>, r: Result<(), CategorizerError>) -> bool {
        let names = forest_names(self.categories@);
        match r {
            Err(CategorizerError::DuplicateCategoriesInTransactionMatchers(found)) => {
                &&& found@.len() > 0
                &&& holds_duplicates(row_view(found@), targets)
            },
            Err(CategorizerError::DuplicateCategoriesInCategoryHierarchy(found)) => {
                &&& holds_duplicates(Seq::empty(), targets)
                &&& found@.len() > 0
                &&& holds_duplicates(row_view(found@), names)
            },
            Err(CategorizerError::MissingCategoriesInCategoryHierarchy(found)) => {
                &&& holds_duplicates(Seq::empty(), targets)
                &&& holds_duplicates(Seq::empty(), names)
                &&& found@.len() > 0
                &&& holds_missing(row_view(found@), targets, names)
            },
            Ok(_) => {
                &&& holds_duplicates(Seq::empty(), targets)
                &&& holds_duplicates(Seq::empty(), names)
                &&& holds_missing(Seq::empty(), targets, names)
            },
        }
    }

    /// Validate categories, where `targets` are the categories that
    /// transaction matchers name as their target:
    /// * no duplicate categories in transaction matchers or category hierarchy
    /// * all transaction matcher categories exist in the category hierarchy
    pub fn validate_categories(&self, targets: &Vec<String>) -> (r: Result<(), CategorizerError>)
        ensures
            self.validated(row_view(targets@), r),
    {
        let repeated = duplicates(targets);
        if repeated.len() > 0 {
            return Err(CategorizerError::DuplicateCategoriesInTransactionMatchers(repeated));
        }
        assert(row_view(repeated@) =~= Seq::empty());
        let mut names: Vec<String> = Vec::new();
        assert(row_view(names@) =~= Seq::empty());
        collect_names(&self.categories, &mut names);
        assert(row_view(names@) =~= forest_names(self.categories@));
        let repeated = duplicates(&names);
        if repeated.len() > 0 {
            return Err(CategorizerError::DuplicateCategoriesInCategoryHierarchy(repeated));
        }
        assert(row_view(repeated@) =~= Seq::empty());
        let absent = missing(targets, &names);
        if absent.len() > 0 {
            return Err(CategorizerError::MissingCategoriesInCategoryHierarchy(absent));
        }
        assert(row_view(absent@) =~= Seq::empty());
        Ok(())
    }
}

} // verus!
