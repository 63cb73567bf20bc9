//! Where a transaction lands depends on the transaction alone: the order in
//! which the transactions are handed over decides the order inside the
//! leaves and nothing else.

use crate::categorizer::any_matches;
use crate::categorizer::categorize_category;
use crate::categorizer::categorize_forest;
use crate::categorizer::categorized::branch_view;
use crate::categorizer::categorized::leaf_view;
use crate::categorizer::categorized::sum_absolute_amounts;
use crate::categorizer::categorized::sum_absolute_totals;
use crate::categorizer::categorized::sum_amounts;
use crate::categorizer::categorized::sum_totals;
use crate::categorizer::categorized::CategorizedChildrenView;
use crate::categorizer::categorized::CategorizedView;
use crate::categorizer::claimed;
use crate::categorizer::reordering::absolute_amount_at;
use crate::categorizer::reordering::absolute_total_at;
use crate::categorizer::reordering::amount_at;
use crate::categorizer::reordering::amounts_reach;
use crate::categorizer::reordering::count_of;
use crate::categorizer::reordering::lemma_amounts_reach;
use crate::categorizer::reordering::lemma_sum_amounts_at;
use crate::categorizer::reordering::lemma_sum_totals_at;
use crate::categorizer::reordering::lemma_totals_reach;
use crate::categorizer::reordering::total_at;
use crate::categorizer::reordering::totals_reach;
use crate::categorizer::reordering::totals_within;
use crate::categorizer::retained;
use crate::categorizer::transaction_matcher::TransactionMatcher;
use crate::categorizer::unclaimed;
use crate::categorizer::Categorizer;
use crate::categorizer::Category;
use crate::categorizer::CategoryChildren;
use crate::decimal::lemma_same_number_at;
use crate::decimal::max_int;
use crate::decimal::same_number;
use crate::sorting::lemma_summed_alike;
use crate::sorting::lemma_summed_permuted;
use crate::transaction::TransactionView;
use vstd::prelude::*;

verus! {

/// One of `matchers` matches the transaction.
pub open spec fn matched_by(matchers: Seq<TransactionMatcher>) -> spec_fn(TransactionView) -> bool {
    |t: TransactionView| any_matches(matchers, t)
}

/// None of `matchers` matches the transaction.
pub open spec fn missed_by(matchers: Seq<TransactionMatcher>) -> spec_fn(TransactionView) -> bool {
    |t: TransactionView| !any_matches(matchers, t)
}

/// The nodes `x` and `y` have the same name, the same count and the same
/// numbers as totals, and so have the nodes below them, place by place; each
/// leaf of `x` holds the transactions of the leaf of `y` at its place, each as
/// often, in whatever order.
pub open spec fn alike(x: CategorizedView, y: CategorizedView) -> bool
    decreases x,
{
    &&& x.category == y.category
    &&& x.count == y.count
    &&& same_number(x.total, y.total)
    &&& same_number(x.absolute_total, y.absolute_total)
    &&& match x.children {
        CategorizedChildrenView::Transactions(a) => y.children matches CategorizedChildrenView::Transactions(
            b,
        ) && a.to_multiset() == b.to_multiset(),
        CategorizedChildrenView::Subcategories(a) => y.children matches CategorizedChildrenView::Subcategories(
            b,
        ) && all_alike(a, b),
    }
}

/// The nodes of `a` and `b` are alike, place by place.
pub open spec fn all_alike(a: Seq<CategorizedView>, b: Seq<CategorizedView>) -> bool
    decreases a,
{
    &&& a.len() == b.len()
    &&& forall|i: int| 0 <= i < a.len() ==> alike(#[trigger] a[i], b[i])
}

/// What matchers claim and what they leave are the transactions that they
/// match and that they miss, each as often as it is there.
pub proof fn lemma_claimed_multiset(
    matchers: Seq<TransactionMatcher>,
    transactions: Seq<TransactionView>,
)
    ensures
        claimed(matchers, transactions).to_multiset() == transactions.to_multiset().filter(
            matched_by(matchers),
        ),
        unclaimed(matchers, transactions).to_multiset() == transactions.to_multiset().filter(
            missed_by(matchers),
        ),
    decreases transactions.len(),
{
    broadcast use {vstd::seq_lib::group_to_multiset_ensures, vstd::multiset::group_multiset_axioms};

    let all = transactions.to_multiset();
    if transactions.len() == 0 {
        assert(claimed(matchers, transactions).to_multiset() =~= all.filter(matched_by(matchers)));
        assert(unclaimed(matchers, transactions).to_multiset() =~= all.filter(missed_by(matchers)));
    } else {
        let rest = transactions.drop_last();
        let last = transactions.last();
        lemma_claimed_multiset(matchers, rest);
        assert(rest.push(last) =~= transactions);
        assert(all == rest.to_multiset().insert(last));
        assert(claimed(matchers, transactions).to_multiset() =~= all.filter(matched_by(matchers)));
        assert(unclaimed(matchers, transactions).to_multiset() =~= all.filter(missed_by(matchers)));
    }
}

/// Two leaves of one name that hold the same transactions, each as often,
/// are alike.
proof fn lemma_leaf_alike(category: Seq<char>, a: Seq<TransactionView>, b: Seq<TransactionView>)
    requires
        a.to_multiset() == b.to_multiset(),
    ensures
        alike(leaf_view(category, a), leaf_view(category, b)),
{
    let scale = max_int(amounts_reach(a), amounts_reach(b));
    lemma_amounts_reach(a, scale);
    lemma_amounts_reach(b, scale);
    lemma_sum_amounts_at(a, scale);
    lemma_sum_amounts_at(b, scale);
    lemma_summed_permuted(a, b, amount_at(scale));
    lemma_summed_permuted(a, b, absolute_amount_at(scale));
    lemma_same_number_at(sum_amounts(a), sum_amounts(b), scale);
    lemma_same_number_at(sum_absolute_amounts(a), sum_absolute_amounts(b), scale);
}

/// Two categories of one name whose subcategories are alike are alike.
proof fn lemma_branch_alike(category: Seq<char>, a: Seq<CategorizedView>, b: Seq<CategorizedView>)
    requires
        all_alike(a, b),
    ensures
        alike(branch_view(category, a), branch_view(category, b)),
{
    let scale = max_int(totals_reach(a), totals_reach(b));
    lemma_totals_reach(a, scale);
    lemma_totals_reach(b, scale);
    lemma_sum_totals_at(a, scale);
    lemma_sum_totals_at(b, scale);
    assert forall|i: int| 0 <= i < a.len() implies count_of()(#[trigger] a[i]) == count_of()(b[i])
        && total_at(scale)(a[i]) == total_at(scale)(b[i]) && absolute_total_at(scale)(a[i])
        == absolute_total_at(scale)(b[i]) by {
        assert(alike(a[i], b[i]));
        assert(totals_within(scale)(a[i]));
        assert(totals_within(scale)(b[i]));
        lemma_same_number_at(a[i].total, b[i].total, scale);
        lemma_same_number_at(a[i].absolute_total, b[i].absolute_total, scale);
    }
    lemma_summed_alike(a, b, count_of(), count_of());
    lemma_summed_alike(a, b, total_at(scale), total_at(scale));
    lemma_summed_alike(a, b, absolute_total_at(scale), absolute_total_at(scale));
    lemma_same_number_at(sum_totals(a), sum_totals(b), scale);
    lemma_same_number_at(sum_absolute_totals(a), sum_absolute_totals(b), scale);
}

/// A category gives alike nodes on the same transactions in another order,
/// and leaves the same transactions.
pub proof fn lemma_categorize_category_permuted(
    category: Category,
    a: Seq<TransactionView>,
    b: Seq<TransactionView>,
)
    requires
        a.to_multiset() == b.to_multiset(),
    ensures
        alike(categorize_category(category, a).0, categorize_category(category, b).0),
        categorize_category(category, a).1.to_multiset() == categorize_category(
            category,
            b,
        ).1.to_multiset(),
    decreases category,
{
    match category.children {
        CategoryChildren::TransactionMatchers(matchers) => {
            lemma_claimed_multiset(matchers@, a);
            lemma_claimed_multiset(matchers@, b);
            lemma_leaf_alike(category.category@, claimed(matchers@, a), claimed(matchers@, b));
        },
        CategoryChildren::Subcategories(subcategories) => {
            lemma_categorize_forest_permuted(subcategories@, a, b);
            lemma_branch_alike(
                category.category@,
                categorize_forest(subcategories@, a).0,
                categorize_forest(subcategories@, b).0,
            );
        },
    }
}

/// Categories give alike nodes on the same transactions in another order,
/// and leave the same transactions.
pub proof fn lemma_categorize_forest_permuted(
    categories: Seq<Category>,
    a: Seq<TransactionView>,
    b: Seq<TransactionView>,
)
    requires
        a.to_multiset() == b.to_multiset(),
    ensures
        all_alike(categorize_forest(categories, a).0, categorize_forest(categories, b).0),
        categorize_forest(categories, a).1.to_multiset() == categorize_forest(
            categories,
            b,
        ).1.to_multiset(),
    decreases categories,
{
    if categories.len() > 0 {
        let first = categorize_forest(categories.drop_last(), a);
        let second = categorize_forest(categories.drop_last(), b);
        lemma_categorize_forest_permuted(categories.drop_last(), a, b);
        lemma_categorize_category_permuted(categories.last(), first.1, second.1);
        let x = categorize_forest(categories, a).0;
        let y = categorize_forest(categories, b).0;
        assert forall|i: int| 0 <= i < x.len() implies alike(#[trigger] x[i], y[i]) by {
            if i < first.0.len() {
                assert(x[i] == first.0[i]);
                assert(y[i] == second.0[i]);
                assert(alike(first.0[i], second.0[i]));
            }
        }
    }
}

impl Categorizer {
    /// Categorizing the same transactions in another order gives the same
    /// forest: the same names, counts and totals at every place, in every leaf
    /// the same transactions, and the same uncategorized transactions, each
    /// as often.
    pub proof fn lemma_categorize_permuted(&self, a: Seq<TransactionView>, b: Seq<TransactionView>)
        requires
            a.to_multiset() == b.to_multiset(),
        ensures
            all_alike(self.categorize_spec(a).0, self.categorize_spec(b).0),
            self.categorize_spec(a).1.to_multiset() == self.categorize_spec(b).1.to_multiset(),
    {
        match self.transaction_filters {
            Some(filters) => {
                lemma_claimed_multiset(filters@, a);
                lemma_claimed_multiset(filters@, b);
            },
            None => {},
        }
        lemma_categorize_forest_permuted(
            self.categories@,
            retained(self.transaction_filters, a),
            retained(self.transaction_filters, b),
        );
    }
}

} // verus!
