//! What sorting a categorized forest keeps and what it brings about.

use crate::categorizer::categorized::all_consistent;
use crate::categorizer::categorized::category_order;
use crate::categorizer::categorized::consistent;
use crate::categorizer::categorized::each_sorted;
use crate::categorizer::categorized::each_sorted_transactions;
use crate::categorizer::categorized::lemma_each_sorted;
use crate::categorizer::categorized::lemma_each_sorted_transactions;
use crate::categorizer::categorized::sorted_categorized;
use crate::categorizer::categorized::sorted_subcategories;
use crate::categorizer::categorized::sorted_transactions;
use crate::categorizer::categorized::sum_absolute_amounts;
use crate::categorizer::categorized::sum_absolute_totals;
use crate::categorizer::categorized::sum_amounts;
use crate::categorizer::categorized::sum_counts;
use crate::categorizer::categorized::sum_totals;
use crate::categorizer::categorized::transaction_order;
use crate::categorizer::categorized::CategorizedChildrenView;
use crate::categorizer::categorized::CategorizedView;
use crate::categorizer::categorized::CategorySort;
use crate::categorizer::categorized::TransactionSort;
use crate::decimal::aligned;
use crate::decimal::decimal_abs;
use crate::decimal::lemma_decimal_sum_at;
use crate::decimal::lemma_same_number_at;
use crate::decimal::lemma_same_number_transitive;
use crate::decimal::max_int;
use crate::decimal::same_number;
use crate::decimal::lemma_decimal_le_total;
use crate::decimal::lemma_decimal_le_transitive;
use crate::decimal::Decimal;
use crate::sorting::every;
use crate::sorting::gathered;
use crate::sorting::lemma_every_sorted;
use crate::sorting::lemma_summed_sorted;
use crate::sorting::summed;
use crate::sorting::lemma_gathered_sorted;
use crate::sorting::lemma_stable_sorted_ordered;
use crate::sorting::lemma_stable_sorted_permutes;
use crate::sorting::lemma_stable_sorted_twice;
use crate::sorting::ordered;
use crate::sorting::stable_sorted;
use crate::sorting::total;
use crate::sorting::transitive;
use crate::text::lemma_bytes_le_total;
use crate::text::lemma_bytes_le_transitive;
use crate::transaction::TransactionView;
use vstd::multiset::Multiset;
use vstd::prelude::*;
use vstd::utf8::encode_utf8;

verus! {

/// The name and the aggregates of a node.
pub struct Summary {
    pub category: Seq<char>,
    pub count: nat,
    pub total: Decimal,
    pub absolute_total: Decimal,
}

/// The name of a leaf and the transactions that belong to it, in no order.
pub struct Membership {
    pub category: Seq<char>,
    pub transactions: Multiset<TransactionView>,
}

/// The name of a leaf and the transactions that it holds, in their order.
pub struct Listing {
    pub category: Seq<char>,
    pub transactions: Seq<TransactionView>,
}

/// The name and the aggregates of `node`.
pub open spec fn summary(node: CategorizedView) -> Summary {
    Summary {
        category: node.category,
        count: node.count,
        total: node.total,
        absolute_total: node.absolute_total,
    }
}

/// The summaries of `node` and of every node below it.
pub open spec fn summaries(node: CategorizedView) -> Multiset<Summary>
    decreases node,
{
    match node.children {
        CategorizedChildrenView::Transactions(_) => Multiset::singleton(summary(node)),
        CategorizedChildrenView::Subcategories(nodes) => forest_summaries(nodes).insert(
            summary(node),
        ),
    }
}

/// The summaries of `nodes` and of every node below them.
pub open spec fn forest_summaries(nodes: Seq<CategorizedView>) -> Multiset<Summary>
    decreases nodes,
{
    if nodes.len() == 0 {
        Multiset::empty()
    } else {
        forest_summaries(nodes.drop_last()).add(summaries(nodes.last()))
    }
}

/// The memberships of the leaves of `node`.
pub open spec fn memberships(node: CategorizedView) -> Multiset<Membership>
    decreases node,
{
    match node.children {
        CategorizedChildrenView::Transactions(transactions) => Multiset::singleton(
            Membership { category: node.category, transactions: transactions.to_multiset() },
        ),
        CategorizedChildrenView::Subcategories(nodes) => forest_memberships(nodes),
    }
}

/// The memberships of the leaves of `nodes`.
pub open spec fn forest_memberships(nodes: Seq<CategorizedView>) -> Multiset<Membership>
    decreases nodes,
{
    if nodes.len() == 0 {
        Multiset::empty()
    } else {
        forest_memberships(nodes.drop_last()).add(memberships(nodes.last()))
    }
}

/// The listings of the leaves of `node`.
pub open spec fn listings(node: CategorizedView) -> Multiset<Listing>
    decreases node,
{
    match node.children {
        CategorizedChildrenView::Transactions(transactions) => Multiset::singleton(
            Listing { category: node.category, transactions },
        ),
        CategorizedChildrenView::Subcategories(nodes) => forest_listings(nodes),
    }
}

/// The listings of the leaves of `nodes`.
pub open spec fn forest_listings(nodes: Seq<CategorizedView>) -> Multiset<Listing>
    decreases nodes,
{
    if nodes.len() == 0 {
        Multiset::empty()
    } else {
        forest_listings(nodes.drop_last()).add(listings(nodes.last()))
    }
}

/// The listings of a forest are what its nodes contribute all together.
proof fn lemma_forest_listings_gathered(nodes: Seq<CategorizedView>)
    ensures
        forest_listings(nodes) == gathered(nodes, |node: CategorizedView| listings(node)),
    decreases nodes.len(),
{
    if nodes.len() > 0 {
        lemma_forest_listings_gathered(nodes.drop_last());
    }
}

/// The summaries of a forest are what its nodes contribute all together.
proof fn lemma_forest_summaries_gathered(nodes: Seq<CategorizedView>)
    ensures
        forest_summaries(nodes) == gathered(nodes, |node: CategorizedView| summaries(node)),
    decreases nodes.len(),
{
    if nodes.len() > 0 {
        lemma_forest_summaries_gathered(nodes.drop_last());
    }
}

/// The memberships of a forest are what its nodes contribute all together.
proof fn lemma_forest_memberships_gathered(nodes: Seq<CategorizedView>)
    ensures
        forest_memberships(nodes) == gathered(nodes, |node: CategorizedView| memberships(node)),
    decreases nodes.len(),
{
    if nodes.len() > 0 {
        lemma_forest_memberships_gathered(nodes.drop_last());
    }
}

/// Sorting the subcategories below a node changes no name, no count, no
/// total and no absolute total of any node, and every leaf keeps its
/// transactions in the order they have.
pub proof fn lemma_sorted_subcategories_keeps(node: CategorizedView, sort: CategorySort)
    ensures
        summary(sorted_subcategories(node, sort)) == summary(node),
        summaries(sorted_subcategories(node, sort)) == summaries(node),
        memberships(sorted_subcategories(node, sort)) == memberships(node),
        listings(sorted_subcategories(node, sort)) == listings(node),
    decreases node, 0nat,
{
    match node.children {
        CategorizedChildrenView::Transactions(_) => {},
        CategorizedChildrenView::Subcategories(nodes) => {
            lemma_sorted_categorized_keeps(nodes, sort);
        },
    }
}

/// Sorting each of the nodes below changes no name, no count, no total and
/// no absolute total of any node, and every leaf keeps its transactions in
/// the order they have.
proof fn lemma_each_sorted_keeps(nodes: Seq<CategorizedView>, sort: CategorySort)
    ensures
        forest_summaries(each_sorted(nodes, sort)) == forest_summaries(nodes),
        forest_memberships(each_sorted(nodes, sort)) == forest_memberships(nodes),
        forest_listings(each_sorted(nodes, sort)) == forest_listings(nodes),
    decreases nodes, 0nat,
{
    if nodes.len() > 0 {
        lemma_each_sorted_keeps(nodes.drop_last(), sort);
        lemma_sorted_subcategories_keeps(nodes.last(), sort);
        let sorted = each_sorted(nodes, sort);
        assert(sorted.drop_last() =~= each_sorted(nodes.drop_last(), sort));
    }
}

/// Sorting categories changes no name, no count, no total and no absolute
/// total of any node, and every leaf keeps its transactions in the order
/// they have: only sibling categories change places.
pub proof fn lemma_sorted_categorized_keeps(nodes: Seq<CategorizedView>, sort: CategorySort)
    ensures
        forest_summaries(sorted_categorized(nodes, sort)) == forest_summaries(nodes),
        forest_memberships(sorted_categorized(nodes, sort)) == forest_memberships(nodes),
        forest_listings(sorted_categorized(nodes, sort)) == forest_listings(nodes),
    decreases nodes, 1nat,
{
    let each = each_sorted(nodes, sort);
    lemma_each_sorted_keeps(nodes, sort);
    lemma_forest_summaries_gathered(each);
    lemma_forest_summaries_gathered(sorted_categorized(nodes, sort));
    lemma_gathered_sorted(each, category_order(sort), |node: CategorizedView| summaries(node));
    lemma_forest_memberships_gathered(each);
    lemma_forest_memberships_gathered(sorted_categorized(nodes, sort));
    lemma_gathered_sorted(each, category_order(sort), |node: CategorizedView| memberships(node));
    lemma_forest_listings_gathered(each);
    lemma_forest_listings_gathered(sorted_categorized(nodes, sort));
    lemma_gathered_sorted(each, category_order(sort), |node: CategorizedView| listings(node));
}

/// Sorting the transactions below a node changes no name, no count, no total
/// and no absolute total of any node, and every leaf keeps its transactions,
/// each as often as before.
pub proof fn lemma_sorted_transactions_keeps(node: CategorizedView, sort: TransactionSort)
    ensures
        summary(sorted_transactions(node, sort)) == summary(node),
        summaries(sorted_transactions(node, sort)) == summaries(node),
        memberships(sorted_transactions(node, sort)) == memberships(node),
    decreases node,
{
    match node.children {
        CategorizedChildrenView::Transactions(transactions) => {
            lemma_stable_sorted_permutes(transactions, transaction_order(sort));
        },
        CategorizedChildrenView::Subcategories(nodes) => {
            lemma_each_sorted_transactions_keeps(nodes, sort);
        },
    }
}

/// Sorting the transactions below nodes changes no name, no count, no total
/// and no absolute total of any node, and every leaf keeps its transactions,
/// each as often as before.
pub proof fn lemma_each_sorted_transactions_keeps(nodes: Seq<CategorizedView>, sort: TransactionSort)
    ensures
        forest_summaries(each_sorted_transactions(nodes, sort)) == forest_summaries(nodes),
        forest_memberships(each_sorted_transactions(nodes, sort)) == forest_memberships(nodes),
    decreases nodes,
{
    if nodes.len() > 0 {
        lemma_each_sorted_transactions_keeps(nodes.drop_last(), sort);
        lemma_sorted_transactions_keeps(nodes.last(), sort);
        let sorted = each_sorted_transactions(nodes, sort);
        assert(sorted.drop_last() =~= each_sorted_transactions(nodes.drop_last(), sort));
    }
}

/// Every order of categories is total and transitive.
pub proof fn lemma_category_order(sort: CategorySort)
    ensures
        total(category_order(sort)),
        transitive(category_order(sort)),
{
    let before = category_order(sort);
    assert forall|a: CategorizedView, b: CategorizedView| #[trigger]
        before(a, b) || #[trigger] before(b, a) by {
        lemma_decimal_le_total(a.total, b.total);
        lemma_decimal_le_total(a.absolute_total, b.absolute_total);
        lemma_bytes_le_total(encode_utf8(a.category), encode_utf8(b.category));
    }
    assert forall|a: CategorizedView, b: CategorizedView, c: CategorizedView| #[trigger]
        before(a, b) && #[trigger] before(b, c) implies before(a, c) by {
        match sort {
            CategorySort::TotalDescending => {
                lemma_decimal_le_transitive(c.total, b.total, a.total);
            },
            CategorySort::TotalAscending => {
                lemma_decimal_le_transitive(a.total, b.total, c.total);
            },
            CategorySort::AbsoluteTotalDescending => {
                lemma_decimal_le_transitive(c.absolute_total, b.absolute_total, a.absolute_total);
            },
            CategorySort::AbsoluteTotalAscending => {
                lemma_decimal_le_transitive(a.absolute_total, b.absolute_total, c.absolute_total);
            },
            CategorySort::NameDescending => {
                lemma_bytes_le_transitive(
                    encode_utf8(c.category),
                    encode_utf8(b.category),
                    encode_utf8(a.category),
                );
            },
            CategorySort::NameAscending => {
                lemma_bytes_le_transitive(
                    encode_utf8(a.category),
                    encode_utf8(b.category),
                    encode_utf8(c.category),
                );
            },
        }
    }
}

/// Every order of transactions is total and transitive.
pub proof fn lemma_transaction_order(sort: TransactionSort)
    ensures
        total(transaction_order(sort)),
        transitive(transaction_order(sort)),
{
    let before = transaction_order(sort);
    assert forall|a: TransactionView, b: TransactionView| #[trigger]
        before(a, b) || #[trigger] before(b, a) by {
        lemma_decimal_le_total(a.amount, b.amount);
        lemma_decimal_le_total(decimal_abs(a.amount), decimal_abs(b.amount));
    }
    assert forall|a: TransactionView, b: TransactionView, c: TransactionView| #[trigger]
        before(a, b) && #[trigger] before(b, c) implies before(a, c) by {
        match sort {
            TransactionSort::TimeDescending => {},
            TransactionSort::TimeAscending => {},
            TransactionSort::AmountDescending => {
                lemma_decimal_le_transitive(c.amount, b.amount, a.amount);
            },
            TransactionSort::AmountAscending => {
                lemma_decimal_le_transitive(a.amount, b.amount, c.amount);
            },
            TransactionSort::AbsoluteAmountDescending => {
                lemma_decimal_le_transitive(
                    decimal_abs(c.amount),
                    decimal_abs(b.amount),
                    decimal_abs(a.amount),
                );
            },
            TransactionSort::AbsoluteAmountAscending => {
                lemma_decimal_le_transitive(
                    decimal_abs(a.amount),
                    decimal_abs(b.amount),
                    decimal_abs(c.amount),
                );
            },
        }
    }
}

/// At every level below `node` the subcategories stand in the order `sort`.
pub open spec fn subcategories_ordered(node: CategorizedView, sort: CategorySort) -> bool
    decreases node,
{
    match node.children {
        CategorizedChildrenView::Transactions(_) => true,
        CategorizedChildrenView::Subcategories(nodes) => {
            &&& ordered(nodes, category_order(sort))
            &&& forall|i: int|
                0 <= i < nodes.len() ==> subcategories_ordered(#[trigger] nodes[i], sort)
        },
    }
}

/// In every leaf below `node` the transactions stand in the order `sort`.
pub open spec fn transactions_ordered(node: CategorizedView, sort: TransactionSort) -> bool
    decreases node,
{
    match node.children {
        CategorizedChildrenView::Transactions(transactions) => ordered(
            transactions,
            transaction_order(sort),
        ),
        CategorizedChildrenView::Subcategories(nodes) => forall|i: int|
            0 <= i < nodes.len() ==> transactions_ordered(#[trigger] nodes[i], sort),
    }
}

/// After sorting the subcategories below a node they stand in order at
/// every level.
pub proof fn lemma_sorted_subcategories_ordered(node: CategorizedView, sort: CategorySort)
    ensures
        subcategories_ordered(sorted_subcategories(node, sort), sort),
    decreases node, 0nat,
{
    match node.children {
        CategorizedChildrenView::Transactions(_) => {},
        CategorizedChildrenView::Subcategories(nodes) => {
            lemma_sorted_categorized_ordered(nodes, sort);
        },
    }
}

/// After sorting categories they stand in order, and so do the
/// subcategories at every level below them.
pub proof fn lemma_sorted_categorized_ordered(nodes: Seq<CategorizedView>, sort: CategorySort)
    ensures
        ordered(sorted_categorized(nodes, sort), category_order(sort)),
        forall|i: int|
            0 <= i < sorted_categorized(nodes, sort).len() ==> subcategories_ordered(
                #[trigger] sorted_categorized(nodes, sort)[i],
                sort,
            ),
    decreases nodes, 1nat,
{
    let each = each_sorted(nodes, sort);
    let sorted = sorted_categorized(nodes, sort);
    lemma_category_order(sort);
    lemma_stable_sorted_ordered(each, category_order(sort));
    lemma_stable_sorted_permutes(each, category_order(sort));
    lemma_each_sorted(nodes, sort);
    assert forall|i: int| 0 <= i < sorted.len() implies subcategories_ordered(
        #[trigger] sorted[i],
        sort,
    ) by {
        broadcast use vstd::seq_lib::group_to_multiset_ensures;

        assert(sorted.contains(sorted[i]));
        assert(each.to_multiset().count(sorted[i]) > 0);
        assert(each.contains(sorted[i]));
        let k = choose|k: int| 0 <= k < each.len() && each[k] == sorted[i];
        assert(each[k] == sorted_subcategories(nodes[k], sort));
        lemma_sorted_subcategories_ordered(nodes[k], sort);
    }
}

/// After sorting the transactions below a node they stand in order in
/// every leaf.
pub proof fn lemma_sorted_transactions_ordered(node: CategorizedView, sort: TransactionSort)
    ensures
        transactions_ordered(sorted_transactions(node, sort), sort),
    decreases node,
{
    match node.children {
        CategorizedChildrenView::Transactions(transactions) => {
            lemma_transaction_order(sort);
            lemma_stable_sorted_ordered(transactions, transaction_order(sort));
        },
        CategorizedChildrenView::Subcategories(nodes) => {
            lemma_each_sorted_transactions(nodes, sort);
            assert forall|i: int| 0 <= i < nodes.len() implies transactions_ordered(
                #[trigger] each_sorted_transactions(nodes, sort)[i],
                sort,
            ) by {
                lemma_sorted_transactions_ordered(nodes[i], sort);
            }
        },
    }
}

/// The largest scale among the amounts of `transactions`, and at least 0.
pub open spec fn amounts_reach(transactions: Seq<TransactionView>) -> int
    decreases transactions.len(),
{
    if transactions.len() == 0 {
        0
    } else {
        max_int(amounts_reach(transactions.drop_last()), transactions.last().amount.scale)
    }
}

/// The largest scale among the totals and the absolute totals of `nodes`, and
/// at least 0.
pub open spec fn totals_reach(nodes: Seq<CategorizedView>) -> int
    decreases nodes.len(),
{
    if nodes.len() == 0 {
        0
    } else {
        max_int(
            totals_reach(nodes.drop_last()),
            max_int(nodes.last().total.scale, nodes.last().absolute_total.scale),
        )
    }
}

/// The amount of a transaction has at most the scale `scale`.
pub open spec fn amount_within(scale: int) -> spec_fn(TransactionView) -> bool {
    |t: TransactionView| t.amount.scale <= scale
}

/// The total and the absolute total of a node have at most the scale `scale`.
pub open spec fn totals_within(scale: int) -> spec_fn(CategorizedView) -> bool {
    |node: CategorizedView| node.total.scale <= scale && node.absolute_total.scale <= scale
}

/// The integer of the amount of a transaction at the scale `scale`.
pub open spec fn amount_at(scale: int) -> spec_fn(TransactionView) -> int {
    |t: TransactionView| aligned(t.amount, scale)
}

/// The integer of the absolute amount of a transaction at the scale `scale`.
pub open spec fn absolute_amount_at(scale: int) -> spec_fn(TransactionView) -> int {
    |t: TransactionView| aligned(decimal_abs(t.amount), scale)
}

/// The integer of the total of a node at the scale `scale`.
pub open spec fn total_at(scale: int) -> spec_fn(CategorizedView) -> int {
    |node: CategorizedView| aligned(node.total, scale)
}

/// The integer of the absolute total of a node at the scale `scale`.
pub open spec fn absolute_total_at(scale: int) -> spec_fn(CategorizedView) -> int {
    |node: CategorizedView| aligned(node.absolute_total, scale)
}

/// The count of a node.
pub open spec fn count_of() -> spec_fn(CategorizedView) -> int {
    |node: CategorizedView| node.count as int
}

/// A node has the aggregates of its children, and so has every node below it.
pub open spec fn is_consistent() -> spec_fn(CategorizedView) -> bool {
    |node: CategorizedView| consistent(node)
}

/// No amount reaches further than the reach of all.
pub proof fn lemma_amounts_reach(transactions: Seq<TransactionView>, scale: int)
    requires
        amounts_reach(transactions) <= scale,
    ensures
        0 <= scale,
        every(transactions, amount_within(scale)),
    decreases transactions.len(),
{
    if transactions.len() > 0 {
        lemma_amounts_reach(transactions.drop_last(), scale);
        assert forall|i: int| 0 <= i < transactions.len() implies amount_within(scale)(
            #[trigger] transactions[i],
        ) by {
            if i < transactions.len() - 1 {
                assert(transactions.drop_last()[i] == transactions[i]);
            }
        }
    }
}

/// No total reaches further than the reach of all.
pub proof fn lemma_totals_reach(nodes: Seq<CategorizedView>, scale: int)
    requires
        totals_reach(nodes) <= scale,
    ensures
        0 <= scale,
        every(nodes, totals_within(scale)),
    decreases nodes.len(),
{
    if nodes.len() > 0 {
        lemma_totals_reach(nodes.drop_last(), scale);
        assert forall|i: int| 0 <= i < nodes.len() implies totals_within(scale)(
            #[trigger] nodes[i],
        ) by {
            if i < nodes.len() - 1 {
                assert(nodes.drop_last()[i] == nodes[i]);
            }
        }
    }
}

/// At a scale that every amount reaches, the integers of the sums are the
/// sums of the integers.
pub proof fn lemma_sum_amounts_at(transactions: Seq<TransactionView>, scale: int)
    requires
        0 <= scale,
        every(transactions, amount_within(scale)),
    ensures
        sum_amounts(transactions).scale <= scale,
        aligned(sum_amounts(transactions), scale) == summed(transactions, amount_at(scale)),
        sum_absolute_amounts(transactions).scale <= scale,
        aligned(sum_absolute_amounts(transactions), scale) == summed(
            transactions,
            absolute_amount_at(scale),
        ),
    decreases transactions.len(),
{
    if transactions.len() > 0 {
        let rest = transactions.drop_last();
        let last = transactions.last();
        assert forall|i: int| 0 <= i < rest.len() implies amount_within(scale)(
            #[trigger] rest[i],
        ) by {
            assert(rest[i] == transactions[i]);
        }
        assert(amount_within(scale)(transactions[transactions.len() - 1]));
        lemma_sum_amounts_at(rest, scale);
        lemma_decimal_sum_at(sum_amounts(rest), last.amount, scale);
        lemma_decimal_sum_at(sum_absolute_amounts(rest), decimal_abs(last.amount), scale);
        assert(amount_at(scale)(last) == aligned(last.amount, scale));
        assert(absolute_amount_at(scale)(last) == aligned(decimal_abs(last.amount), scale));
    } else {
        assert(aligned(sum_amounts(transactions), scale) == 0);
        assert(aligned(sum_absolute_amounts(transactions), scale) == 0);
    }
}

/// At a scale that every total reaches, the integers of the sums are the sums
/// of the integers.
pub proof fn lemma_sum_totals_at(nodes: Seq<CategorizedView>, scale: int)
    requires
        0 <= scale,
        every(nodes, totals_within(scale)),
    ensures
        sum_counts(nodes) == summed(nodes, count_of()),
        sum_totals(nodes).scale <= scale,
        aligned(sum_totals(nodes), scale) == summed(nodes, total_at(scale)),
        sum_absolute_totals(nodes).scale <= scale,
        aligned(sum_absolute_totals(nodes), scale) == summed(nodes, absolute_total_at(scale)),
    decreases nodes.len(),
{
    if nodes.len() > 0 {
        let rest = nodes.drop_last();
        let last = nodes.last();
        assert forall|i: int| 0 <= i < rest.len() implies totals_within(scale)(
            #[trigger] rest[i],
        ) by {
            assert(rest[i] == nodes[i]);
        }
        assert(totals_within(scale)(nodes[nodes.len() - 1]));
        lemma_sum_totals_at(rest, scale);
        lemma_decimal_sum_at(sum_totals(rest), last.total, scale);
        lemma_decimal_sum_at(sum_absolute_totals(rest), last.absolute_total, scale);
        assert(count_of()(last) == last.count);
        assert(total_at(scale)(last) == aligned(last.total, scale));
        assert(absolute_total_at(scale)(last) == aligned(last.absolute_total, scale));
    } else {
        assert(aligned(sum_totals(nodes), scale) == 0);
        assert(aligned(sum_absolute_totals(nodes), scale) == 0);
    }
}

/// The sums of the amounts and of the absolute amounts of transactions are
/// the same numbers in whatever order the transactions stand.
pub proof fn lemma_sum_amounts_sorted(
    transactions: Seq<TransactionView>,
    before: spec_fn(TransactionView, TransactionView) -> bool,
)
    ensures
        stable_sorted(transactions, before).len() == transactions.len(),
        same_number(sum_amounts(stable_sorted(transactions, before)), sum_amounts(transactions)),
        same_number(
            sum_absolute_amounts(stable_sorted(transactions, before)),
            sum_absolute_amounts(transactions),
        ),
{
    let sorted = stable_sorted(transactions, before);
    let scale = amounts_reach(transactions);
    lemma_stable_sorted_permutes(transactions, before);
    lemma_amounts_reach(transactions, scale);
    lemma_every_sorted(transactions, before, amount_within(scale));
    lemma_sum_amounts_at(transactions, scale);
    lemma_sum_amounts_at(sorted, scale);
    lemma_summed_sorted(transactions, before, amount_at(scale));
    lemma_summed_sorted(transactions, before, absolute_amount_at(scale));
    lemma_same_number_at(sum_amounts(sorted), sum_amounts(transactions), scale);
    lemma_same_number_at(sum_absolute_amounts(sorted), sum_absolute_amounts(transactions), scale);
}

/// The sum of the counts of nodes is the same, and the sums of their totals
/// and of their absolute totals are the same numbers, in whatever order the
/// nodes stand.
pub proof fn lemma_sum_totals_sorted(
    nodes: Seq<CategorizedView>,
    before: spec_fn(CategorizedView, CategorizedView) -> bool,
)
    ensures
        sum_counts(stable_sorted(nodes, before)) == sum_counts(nodes),
        same_number(sum_totals(stable_sorted(nodes, before)), sum_totals(nodes)),
        same_number(sum_absolute_totals(stable_sorted(nodes, before)), sum_absolute_totals(nodes)),
{
    let sorted = stable_sorted(nodes, before);
    let scale = totals_reach(nodes);
    lemma_totals_reach(nodes, scale);
    lemma_every_sorted(nodes, before, totals_within(scale));
    lemma_sum_totals_at(nodes, scale);
    lemma_sum_totals_at(sorted, scale);
    lemma_summed_sorted(nodes, before, count_of());
    lemma_summed_sorted(nodes, before, total_at(scale));
    lemma_summed_sorted(nodes, before, absolute_total_at(scale));
    lemma_same_number_at(sum_totals(sorted), sum_totals(nodes), scale);
    lemma_same_number_at(sum_absolute_totals(sorted), sum_absolute_totals(nodes), scale);
}

/// Nodes with the same names and aggregates, place by place, have the same sums.
proof fn lemma_sums_of_summaries(a: Seq<CategorizedView>, b: Seq<CategorizedView>)
    requires
        a.len() == b.len(),
        forall|i: int| 0 <= i < a.len() ==> summary(#[trigger] a[i]) == summary(b[i]),
    ensures
        sum_counts(a) == sum_counts(b),
        sum_totals(a) == sum_totals(b),
        sum_absolute_totals(a) == sum_absolute_totals(b),
    decreases a.len(),
{
    if a.len() > 0 {
        assert forall|i: int| 0 <= i < a.drop_last().len() implies summary(
            #[trigger] a.drop_last()[i],
        ) == summary(b.drop_last()[i]) by {
            assert(summary(a[i]) == summary(b[i]));
        }
        lemma_sums_of_summaries(a.drop_last(), b.drop_last());
        assert(summary(a[a.len() - 1]) == summary(b[a.len() - 1]));
    }
}

/// Sorting the subcategories below a node whose aggregates are those of its
/// children leaves a node whose aggregates are those of its children.
pub proof fn lemma_sorted_subcategories_consistent(node: CategorizedView, sort: CategorySort)
    requires
        consistent(node),
    ensures
        consistent(sorted_subcategories(node, sort)),
    decreases node, 0nat,
{
    match node.children {
        CategorizedChildrenView::Transactions(_) => {},
        CategorizedChildrenView::Subcategories(nodes) => {
            let each = each_sorted(nodes, sort);
            let sorted = sorted_categorized(nodes, sort);
            lemma_sorted_categorized_consistent(nodes, sort);
            lemma_each_sorted(nodes, sort);
            assert forall|i: int| 0 <= i < each.len() implies summary(#[trigger] each[i])
                == summary(nodes[i]) by {
                lemma_sorted_subcategories_keeps(nodes[i], sort);
            }
            lemma_sums_of_summaries(each, nodes);
            lemma_sum_totals_sorted(each, category_order(sort));
            lemma_same_number_transitive(node.total, sum_totals(each), sum_totals(sorted));
            lemma_same_number_transitive(
                node.absolute_total,
                sum_absolute_totals(each),
                sum_absolute_totals(sorted),
            );
        },
    }
}

/// Sorting each of the nodes keeps them nodes whose aggregates are those of
/// their children.
proof fn lemma_each_sorted_consistent(nodes: Seq<CategorizedView>, sort: CategorySort)
    requires
        all_consistent(nodes),
    ensures
        all_consistent(each_sorted(nodes, sort)),
    decreases nodes, 0nat,
{
    lemma_each_sorted(nodes, sort);
    assert forall|i: int| 0 <= i < nodes.len() implies consistent(
        #[trigger] each_sorted(nodes, sort)[i],
    ) by {
        assert(consistent(nodes[i]));
        lemma_sorted_subcategories_consistent(nodes[i], sort);
    }
}

/// Sorting categories whose aggregates are those of their children leaves
/// categories whose aggregates are those of their children.
pub proof fn lemma_sorted_categorized_consistent(nodes: Seq<CategorizedView>, sort: CategorySort)
    requires
        all_consistent(nodes),
    ensures
        all_consistent(sorted_categorized(nodes, sort)),
    decreases nodes, 1nat,
{
    let each = each_sorted(nodes, sort);
    lemma_each_sorted_consistent(nodes, sort);
    assert(every(each, is_consistent())) by {
        assert forall|i: int| 0 <= i < each.len() implies is_consistent()(#[trigger] each[i]) by {
            assert(consistent(each[i]));
        }
    }
    lemma_every_sorted(each, category_order(sort), is_consistent());
    let sorted = sorted_categorized(nodes, sort);
    assert forall|i: int| 0 <= i < sorted.len() implies consistent(#[trigger] sorted[i]) by {
        assert(is_consistent()(sorted[i]));
    }
}

/// Sorting the transactions below a node whose aggregates are those of its
/// children leaves a node whose aggregates are those of its children.
pub proof fn lemma_sorted_transactions_consistent(node: CategorizedView, sort: TransactionSort)
    requires
        consistent(node),
    ensures
        consistent(sorted_transactions(node, sort)),
    decreases node,
{
    match node.children {
        CategorizedChildrenView::Transactions(transactions) => {
            let sorted = stable_sorted(transactions, transaction_order(sort));
            lemma_sum_amounts_sorted(transactions, transaction_order(sort));
            lemma_same_number_transitive(node.total, sum_amounts(transactions), sum_amounts(sorted));
            lemma_same_number_transitive(
                node.absolute_total,
                sum_absolute_amounts(transactions),
                sum_absolute_amounts(sorted),
            );
        },
        CategorizedChildrenView::Subcategories(nodes) => {
            let each = each_sorted_transactions(nodes, sort);
            lemma_each_sorted_transactions_consistent(nodes, sort);
            lemma_each_sorted_transactions(nodes, sort);
            assert forall|i: int| 0 <= i < each.len() implies summary(#[trigger] each[i])
                == summary(nodes[i]) by {
                lemma_sorted_transactions_keeps(nodes[i], sort);
            }
            lemma_sums_of_summaries(each, nodes);
        },
    }
}

/// Sorting the transactions below nodes whose aggregates are those of their
/// children leaves nodes whose aggregates are those of their children.
pub proof fn lemma_each_sorted_transactions_consistent(
    nodes: Seq<CategorizedView>,
    sort: TransactionSort,
)
    requires
        all_consistent(nodes),
    ensures
        all_consistent(each_sorted_transactions(nodes, sort)),
    decreases nodes,
{
    lemma_each_sorted_transactions(nodes, sort);
    assert forall|i: int| 0 <= i < nodes.len() implies consistent(
        #[trigger] each_sorted_transactions(nodes, sort)[i],
    ) by {
        assert(consistent(nodes[i]));
        lemma_sorted_transactions_consistent(nodes[i], sort);
    }
}

/// Sorting the transactions below a node a second time in the same order
/// changes nothing.
pub proof fn lemma_sorted_transactions_twice(node: CategorizedView, sort: TransactionSort)
    ensures
        sorted_transactions(sorted_transactions(node, sort), sort) == sorted_transactions(
            node,
            sort,
        ),
    decreases node,
{
    match node.children {
        CategorizedChildrenView::Transactions(transactions) => {
            lemma_transaction_order(sort);
            lemma_stable_sorted_twice(transactions, transaction_order(sort));
        },
        CategorizedChildrenView::Subcategories(nodes) => {
            lemma_each_sorted_transactions_twice(nodes, sort);
        },
    }
}

/// Sorting the transactions below nodes keeps every node at its place, with
/// its name and its aggregates, and a second time in the same order changes
/// nothing.
pub proof fn lemma_each_sorted_transactions_twice(nodes: Seq<CategorizedView>, sort: TransactionSort)
    ensures
        each_sorted_transactions(nodes, sort).len() == nodes.len(),
        forall|i: int|
            0 <= i < nodes.len() ==> summary(#[trigger] each_sorted_transactions(nodes, sort)[i])
                == summary(nodes[i]),
        each_sorted_transactions(each_sorted_transactions(nodes, sort), sort)
            == each_sorted_transactions(nodes, sort),
    decreases nodes,
{
    let once = each_sorted_transactions(nodes, sort);
    let twice = each_sorted_transactions(once, sort);
    lemma_each_sorted_transactions(nodes, sort);
    lemma_each_sorted_transactions(once, sort);
    assert forall|i: int| 0 <= i < nodes.len() implies summary(#[trigger] once[i]) == summary(
        nodes[i],
    ) && twice[i] == once[i] by {
        lemma_sorted_transactions_keeps(nodes[i], sort);
        lemma_sorted_transactions_twice(nodes[i], sort);
    }
    assert(twice =~= once);
}

} // verus!
