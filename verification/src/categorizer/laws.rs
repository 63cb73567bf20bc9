//! What holds of every categorization.

use crate::categorizer::any_matches;
use crate::categorizer::categorize_category;
use crate::categorizer::categorize_forest;
use crate::categorizer::categorized::all_consistent;
use crate::categorizer::categorized::consistent;
use crate::categorizer::categorized::sum_absolute_amounts;
use crate::categorizer::categorized::sum_absolute_totals;
use crate::categorizer::categorized::CategorizedChildrenView;
use crate::categorizer::categorized::CategorizedList;
use crate::categorizer::categorized::CategorizedView;
use crate::categorizer::categorized::sum_amounts;
use crate::categorizer::categorized::sum_totals;
use crate::categorizer::claimed;
use crate::categorizer::reordering::absolute_amount_at;
use crate::categorizer::reordering::absolute_total_at;
use crate::categorizer::reordering::amount_at;
use crate::categorizer::reordering::amount_within;
use crate::categorizer::reordering::amounts_reach;
use crate::categorizer::reordering::lemma_amounts_reach;
use crate::categorizer::reordering::lemma_sum_amounts_at;
use crate::categorizer::reordering::lemma_sum_totals_at;
use crate::categorizer::reordering::lemma_totals_reach;
use crate::categorizer::reordering::total_at;
use crate::categorizer::reordering::totals_reach;
use crate::categorizer::reordering::totals_within;
use crate::categorizer::retained;
use crate::categorizer::transaction_matcher::TransactionMatcher;
use crate::categorizer::unclaimed;
use crate::categorizer::Categorizer;
use crate::categorizer::Category;
use crate::categorizer::CategoryChildren;
use crate::decimal::decimal_abs;
use crate::decimal::decimal_le;
use crate::decimal::lemma_decimal_abs_at;
use crate::decimal::lemma_decimal_le_at;
use crate::decimal::lemma_same_number_at;
use crate::decimal::max_int;
use crate::sorting::lemma_summed_bound;
use crate::decimal::lemma_decimal_sum_nonnegative;
use crate::decimal::lemma_same_number_sign;
use crate::transaction::borrowed_views;
use crate::transaction::Transaction;
use crate::transaction::TransactionView;
use vstd::prelude::*;

verus! {

/// The node that a category gives has the count, the total and the absolute
/// total of its children, and so has every node below it.
pub proof fn lemma_categorize_category_consistent(
    category: Category,
    remaining: Seq<TransactionView>,
)
    ensures
        consistent(categorize_category(category, remaining).0),
    decreases category,
{
    match category.children {
        CategoryChildren::TransactionMatchers(_) => {},
        CategoryChildren::Subcategories(subcategories) => {
            lemma_categorize_forest_consistent(subcategories@, remaining);
        },
    }
}

/// Categories give one node each, and every one of these nodes has the count,
/// the total and the absolute total of its children, and so has every node
/// below it.
pub proof fn lemma_categorize_forest_consistent(
    categories: Seq<Category>,
    remaining: Seq<TransactionView>,
)
    ensures
        categorize_forest(categories, remaining).0.len() == categories.len(),
        all_consistent(categorize_forest(categories, remaining).0),
    decreases categories,
{
    if categories.len() > 0 {
        lemma_categorize_forest_consistent(categories.drop_last(), remaining);
        let rest = categorize_forest(categories.drop_last(), remaining).1;
        lemma_categorize_category_consistent(categories.last(), rest);
    }
}

/// The absolute amounts of transactions sum to no less than zero.
pub proof fn lemma_sum_absolute_amounts_nonnegative(transactions: Seq<TransactionView>)
    ensures
        sum_absolute_amounts(transactions).unscaled >= 0,
    decreases transactions.len(),
{
    if transactions.len() > 0 {
        lemma_sum_absolute_amounts_nonnegative(transactions.drop_last());
        lemma_decimal_sum_nonnegative(
            sum_absolute_amounts(transactions.drop_last()),
            decimal_abs(transactions.last().amount),
        );
    }
}

/// The absolute total of a node whose aggregates are those of its children
/// is not negative, whatever the signs of the amounts below it.
pub proof fn lemma_absolute_total_nonnegative(node: CategorizedView)
    requires
        consistent(node),
    ensures
        node.absolute_total.unscaled >= 0,
    decreases node,
{
    match node.children {
        CategorizedChildrenView::Transactions(transactions) => {
            lemma_sum_absolute_amounts_nonnegative(transactions);
            lemma_same_number_sign(node.absolute_total, sum_absolute_amounts(transactions));
        },
        CategorizedChildrenView::Subcategories(nodes) => {
            lemma_sum_absolute_totals_nonnegative(nodes);
            lemma_same_number_sign(node.absolute_total, sum_absolute_totals(nodes));
        },
    }
}

/// The absolute totals of nodes whose aggregates are those of their children
/// sum to no less than zero.
pub proof fn lemma_sum_absolute_totals_nonnegative(nodes: Seq<CategorizedView>)
    requires
        all_consistent(nodes),
    ensures
        sum_absolute_totals(nodes).unscaled >= 0,
    decreases nodes,
{
    if nodes.len() > 0 {
        assert forall|i: int| 0 <= i < nodes.drop_last().len() implies consistent(
            #[trigger] nodes.drop_last()[i],
        ) by {
            assert(nodes.drop_last()[i] == nodes[i]);
        }
        lemma_sum_absolute_totals_nonnegative(nodes.drop_last());
        assert(consistent(nodes[nodes.len() - 1]));
        lemma_absolute_total_nonnegative(nodes.last());
        lemma_decimal_sum_nonnegative(
            sum_absolute_totals(nodes.drop_last()),
            nodes.last().absolute_total,
        );
    }
}

/// The absolute total of a node whose aggregates are those of its children
/// is at least the absolute value of its total.
pub proof fn lemma_absolute_total_covers_total(node: CategorizedView)
    requires
        consistent(node),
    ensures
        decimal_le(decimal_abs(node.total), node.absolute_total),
    decreases node,
{
    match node.children {
        CategorizedChildrenView::Transactions(transactions) => {
            let scale = max_int(
                amounts_reach(transactions),
                max_int(node.total.scale, node.absolute_total.scale),
            );
            lemma_amounts_reach(transactions, scale);
            lemma_sum_amounts_at(transactions, scale);
            assert forall|i: int| 0 <= i < transactions.len() implies -absolute_amount_at(scale)(
                transactions[i],
            ) <= amount_at(scale)(#[trigger] transactions[i]) <= absolute_amount_at(scale)(
                transactions[i],
            ) by {
                assert(amount_within(scale)(transactions[i]));
                lemma_decimal_abs_at(transactions[i].amount, scale);
            }
            lemma_summed_bound(transactions, amount_at(scale), absolute_amount_at(scale));
            lemma_same_number_at(node.total, sum_amounts(transactions), scale);
            lemma_same_number_at(node.absolute_total, sum_absolute_amounts(transactions), scale);
            lemma_decimal_abs_at(node.total, scale);
            lemma_decimal_le_at(decimal_abs(node.total), node.absolute_total, scale);
        },
        CategorizedChildrenView::Subcategories(nodes) => {
            let scale = max_int(
                totals_reach(nodes),
                max_int(node.total.scale, node.absolute_total.scale),
            );
            lemma_totals_reach(nodes, scale);
            lemma_sum_totals_at(nodes, scale);
            assert forall|i: int| 0 <= i < nodes.len() implies -absolute_total_at(scale)(
                nodes[i],
            ) <= total_at(scale)(#[trigger] nodes[i]) <= absolute_total_at(scale)(nodes[i]) by {
                assert(totals_within(scale)(nodes[i]));
                assert(consistent(nodes[i]));
                lemma_absolute_total_covers_total(nodes[i]);
                lemma_decimal_abs_at(nodes[i].total, scale);
                lemma_decimal_le_at(decimal_abs(nodes[i].total), nodes[i].absolute_total, scale);
            }
            lemma_summed_bound(nodes, total_at(scale), absolute_total_at(scale));
            lemma_same_number_at(node.total, sum_totals(nodes), scale);
            lemma_same_number_at(node.absolute_total, sum_absolute_totals(nodes), scale);
            lemma_decimal_abs_at(node.total, scale);
            lemma_decimal_le_at(decimal_abs(node.total), node.absolute_total, scale);
        },
    }
}

/// Categorizing the same transactions with the same categorizer twice gives
/// the same tree and the same uncategorized transactions.
pub proof fn lemma_categorize_twice(
    categorizer: Categorizer,
    transactions: Seq<Transaction>,
    first: (CategorizedList, Vec<&Transaction>),
    second: (CategorizedList, Vec<&Transaction>),
)
    requires
        categorizer.categorizes(transactions, first),
        categorizer.categorizes(transactions, second),
    ensures
        first.0@ == second.0@,
        borrowed_views(first.1@) == borrowed_views(second.1@),
{
}

/// The matchers of the leaves of `category`, leaf by leaf, in the order in
/// which the leaves are visited.
pub open spec fn category_leaves(category: Category) -> Seq<Seq<TransactionMatcher>>
    decreases category,
{
    match category.children {
        CategoryChildren::TransactionMatchers(matchers) => seq![matchers@],
        CategoryChildren::Subcategories(subcategories) => forest_leaves(subcategories@),
    }
}

/// The matchers of the leaves of `categories`, leaf by leaf, in the order in
/// which the leaves are visited.
pub open spec fn forest_leaves(categories: Seq<Category>) -> Seq<Seq<TransactionMatcher>>
    decreases categories,
{
    if categories.len() == 0 {
        Seq::empty()
    } else {
        forest_leaves(categories.drop_last()) + category_leaves(categories.last())
    }
}

/// The transactions that the leaves of `node` hold, leaf by leaf, in the
/// order in which the leaves are visited.
pub open spec fn node_holdings(node: CategorizedView) -> Seq<Seq<TransactionView>>
    decreases node,
{
    match node.children {
        CategorizedChildrenView::Transactions(transactions) => seq![transactions],
        CategorizedChildrenView::Subcategories(nodes) => forest_holdings(nodes),
    }
}

/// The transactions that the leaves of `nodes` hold, leaf by leaf, in the
/// order in which the leaves are visited.
pub open spec fn forest_holdings(nodes: Seq<CategorizedView>) -> Seq<Seq<TransactionView>>
    decreases nodes,
{
    if nodes.len() == 0 {
        Seq::empty()
    } else {
        forest_holdings(nodes.drop_last()) + node_holdings(nodes.last())
    }
}

/// One of the first `n` of `leaves` has a matcher that matches `t`.
pub open spec fn matched_before(
    leaves: Seq<Seq<TransactionMatcher>>,
    n: int,
    t: TransactionView,
) -> bool {
    exists|j: int| 0 <= j < n && j < leaves.len() && any_matches(#[trigger] leaves[j], t)
}

/// Leaf `k` is the first of `leaves` with a matcher that matches `t`.
pub open spec fn first_match(leaves: Seq<Seq<TransactionMatcher>>, k: int, t: TransactionView) -> bool {
    any_matches(leaves[k], t) && !matched_before(leaves, k, t)
}

/// Those of `transactions` for which leaf `k` is the first of `leaves` that
/// matches, in order.
pub open spec fn won(
    leaves: Seq<Seq<TransactionMatcher>>,
    k: int,
    transactions: Seq<TransactionView>,
) -> Seq<TransactionView>
    decreases transactions.len(),
{
    if transactions.len() == 0 {
        Seq::empty()
    } else {
        let before = won(leaves, k, transactions.drop_last());
        if first_match(leaves, k, transactions.last()) {
            before.push(transactions.last())
        } else {
            before
        }
    }
}

/// Those of `transactions` that none of `leaves` matches, in order.
pub open spec fn unmatched(
    leaves: Seq<Seq<TransactionMatcher>>,
    transactions: Seq<TransactionView>,
) -> Seq<TransactionView>
    decreases transactions.len(),
{
    if transactions.len() == 0 {
        Seq::empty()
    } else {
        let before = unmatched(leaves, transactions.drop_last());
        if matched_before(leaves, leaves.len() as int, transactions.last()) {
            before
        } else {
            before.push(transactions.last())
        }
    }
}

/// Without leaves every transaction is unmatched.
proof fn lemma_unmatched_by_nothing(transactions: Seq<TransactionView>)
    ensures
        unmatched(Seq::empty(), transactions) == transactions,
    decreases transactions.len(),
{
    if transactions.len() > 0 {
        lemma_unmatched_by_nothing(transactions.drop_last());
        assert(transactions.drop_last().push(transactions.last()) =~= transactions);
    } else {
        assert(transactions =~= Seq::empty());
    }
}

/// Whether a leaf is the first to match depends on the leaves up to it only.
proof fn lemma_first_match_prefix(
    leaves: Seq<Seq<TransactionMatcher>>,
    others: Seq<Seq<TransactionMatcher>>,
    k: int,
    t: TransactionView,
)
    requires
        0 <= k < leaves.len(),
        k < others.len(),
        forall|j: int| 0 <= j <= k ==> leaves[j] == others[j],
    ensures
        first_match(leaves, k, t) == first_match(others, k, t),
{
    if matched_before(leaves, k, t) {
        let j = choose|j: int| 0 <= j < k && j < leaves.len() && any_matches(#[trigger] leaves[j], t);
        assert(any_matches(others[j], t));
    }
    if matched_before(others, k, t) {
        let j = choose|j: int| 0 <= j < k && j < others.len() && any_matches(#[trigger] others[j], t);
        assert(any_matches(leaves[j], t));
    }
}

/// What a leaf wins depends on the leaves up to it only.
proof fn lemma_won_prefix(
    leaves: Seq<Seq<TransactionMatcher>>,
    others: Seq<Seq<TransactionMatcher>>,
    k: int,
    transactions: Seq<TransactionView>,
)
    requires
        0 <= k < leaves.len(),
        k < others.len(),
        forall|j: int| 0 <= j <= k ==> leaves[j] == others[j],
    ensures
        won(leaves, k, transactions) == won(others, k, transactions),
    decreases transactions.len(),
{
    if transactions.len() > 0 {
        lemma_won_prefix(leaves, others, k, transactions.drop_last());
        lemma_first_match_prefix(leaves, others, k, transactions.last());
    }
}

/// A leaf that comes after the leaves `before` claims, of what they have left,
/// the transactions for which it is the first to match, and leaves what none
/// of them matches.
proof fn lemma_leaf_claims(
    matchers: Seq<TransactionMatcher>,
    before: Seq<Seq<TransactionMatcher>>,
    transactions: Seq<TransactionView>,
)
    ensures
        claimed(matchers, unmatched(before, transactions)) == won(
            before.push(matchers),
            before.len() as int,
            transactions,
        ),
        unclaimed(matchers, unmatched(before, transactions)) == unmatched(
            before.push(matchers),
            transactions,
        ),
    decreases transactions.len(),
{
    let leaves = before.push(matchers);
    let n = before.len() as int;
    if transactions.len() > 0 {
        let t = transactions.last();
        let earlier = transactions.drop_last();
        lemma_leaf_claims(matchers, before, earlier);
        let left = unmatched(before, earlier);
        if matched_before(before, n, t) {
            let j = choose|j: int|
                0 <= j < n && j < before.len() && any_matches(#[trigger] before[j], t);
            assert(any_matches(leaves[j], t));
            assert(matched_before(leaves, n, t));
            assert(matched_before(leaves, n + 1, t));
        } else {
            assert(left.push(t).drop_last() =~= left);
            if matched_before(leaves, n, t) {
                let j = choose|j: int|
                    0 <= j < n && j < leaves.len() && any_matches(#[trigger] leaves[j], t);
                assert(any_matches(before[j], t));
            }
            if any_matches(matchers, t) {
                assert(any_matches(leaves[n], t));
                assert(matched_before(leaves, n + 1, t));
            } else if matched_before(leaves, n + 1, t) {
                let j = choose|j: int|
                    0 <= j < n + 1 && j < leaves.len() && any_matches(#[trigger] leaves[j], t);
                if j < n {
                    assert(any_matches(before[j], t));
                }
            }
        }
    }
}

/// A category that comes after the leaves `before` gives each of its leaves,
/// of what they have left, the transactions for which it is the first to
/// match, and leaves what none of them matches.
proof fn lemma_category_claims(
    category: Category,
    before: Seq<Seq<TransactionMatcher>>,
    transactions: Seq<TransactionView>,
)
    ensures
        ({
            let leaves = category_leaves(category);
            let outcome = categorize_category(category, unmatched(before, transactions));
            &&& node_holdings(outcome.0).len() == leaves.len()
            &&& forall|k: int|
                0 <= k < leaves.len() ==> #[trigger] node_holdings(outcome.0)[k] == won(
                    before + leaves,
                    before.len() + k,
                    transactions,
                )
            &&& outcome.1 == unmatched(before + leaves, transactions)
        }),
    decreases category,
{
    match category.children {
        CategoryChildren::TransactionMatchers(matchers) => {
            lemma_leaf_claims(matchers@, before, transactions);
            assert(before + seq![matchers@] =~= before.push(matchers@));
        },
        CategoryChildren::Subcategories(subcategories) => {
            lemma_forest_claims(subcategories@, before, transactions);
        },
    }
}

/// Categories that come after the leaves `before` give each of their leaves,
/// of what they have left, the transactions for which it is the first to
/// match, and leave what none of them matches.
proof fn lemma_forest_claims(
    categories: Seq<Category>,
    before: Seq<Seq<TransactionMatcher>>,
    transactions: Seq<TransactionView>,
)
    ensures
        ({
            let leaves = forest_leaves(categories);
            let outcome = categorize_forest(categories, unmatched(before, transactions));
            &&& forest_holdings(outcome.0).len() == leaves.len()
            &&& forall|k: int|
                0 <= k < leaves.len() ==> #[trigger] forest_holdings(outcome.0)[k] == won(
                    before + leaves,
                    before.len() + k,
                    transactions,
                )
            &&& outcome.1 == unmatched(before + leaves, transactions)
        }),
    decreases categories,
{
    let leaves = forest_leaves(categories);
    if categories.len() == 0 {
        assert(before + leaves =~= before);
    } else {
        let head = forest_leaves(categories.drop_last());
        let tail = category_leaves(categories.last());
        lemma_forest_claims(categories.drop_last(), before, transactions);
        lemma_category_claims(categories.last(), before + head, transactions);
        assert((before + head) + tail =~= before + leaves);
        let first = categorize_forest(categories.drop_last(), unmatched(before, transactions));
        let second = categorize_category(categories.last(), first.1);
        let outcome = categorize_forest(categories, unmatched(before, transactions));
        assert(outcome.0.drop_last() =~= first.0);
        assert(outcome.0.last() == second.0);
        assert forall|k: int| 0 <= k < leaves.len() implies #[trigger] forest_holdings(
            outcome.0,
        )[k] == won(before + leaves, before.len() + k, transactions) by {
            if k < head.len() {
                lemma_won_prefix(before + head, before + leaves, before.len() + k, transactions);
            } else {
                assert(forest_holdings(outcome.0)[k] == node_holdings(second.0)[k - head.len()]);
            }
        }
    }
}

impl Categorizer {
    /// Each leaf holds the considered transactions for which it is the first
    /// leaf with a matcher that matches, in the order in which the leaves are
    /// visited: the top-level categories in listed order, depth first. The
    /// uncategorized transactions are those that no leaf matches. So a
    /// transaction that no leaf matches is uncategorized and in no leaf, and one
    /// that several leaves match is in the first of them and in no other.
    pub proof fn lemma_first_leaf_wins(&self, transactions: Seq<TransactionView>)
        ensures
            ({
                let leaves = forest_leaves(self.categories@);
                let considered = retained(self.transaction_filters, transactions);
                let outcome = self.categorize_spec(transactions);
                &&& forest_holdings(outcome.0).len() == leaves.len()
                &&& forall|k: int|
                    0 <= k < leaves.len() ==> #[trigger] forest_holdings(outcome.0)[k] == won(
                        leaves,
                        k,
                        considered,
                    )
                &&& outcome.1 == unmatched(leaves, considered)
            }),
    {
        let leaves = forest_leaves(self.categories@);
        let considered = retained(self.transaction_filters, transactions);
        lemma_unmatched_by_nothing(considered);
        lemma_forest_claims(self.categories@, Seq::empty(), considered);
        assert(Seq::<Seq<TransactionMatcher>>::empty() + leaves =~= leaves);
    }
}

} // verus!
