//! The result of a categorization: a forest that mirrors the categories and
//! carries counts, totals and the transactions each leaf has claimed.

use crate::categorizer::reordering::lemma_each_sorted_transactions_consistent;
use crate::categorizer::reordering::lemma_sorted_categorized_consistent;
use crate::categorizer::reordering::lemma_sorted_subcategories_consistent;
use crate::categorizer::reordering::lemma_sorted_transactions_consistent;
use crate::decimal::amount_abs;
use crate::decimal::amount_le;
use crate::decimal::decimal_abs;
use crate::decimal::decimal_le;
use crate::decimal::decimal_sum;
use crate::decimal::same_number;
use crate::decimal::Amount;
use crate::decimal::Decimal;
use crate::sorting::lemma_stable_sorted_mapped;
use crate::sorting::lemma_stable_sorted_permutes;
use crate::sorting::order_of;
use crate::sorting::stable_sort;
use crate::sorting::stable_sorted;
use crate::sorting::Ordered;
use crate::text::text_before;
use crate::text::text_le;
use crate::transaction::transaction_views;
use crate::transaction::Transaction;
use crate::transaction::TransactionView;
use vstd::prelude::*;

verus! {

/// The children of a categorized node, as mathematical values.
pub enum CategorizedChildrenView {
    Transactions(Seq<TransactionView>),
    Subcategories(Seq<CategorizedView>),
}

/// A categorized node, as mathematical values.
pub struct CategorizedView {
    pub category: Seq<char>,
    pub count: nat,
    pub total: Decimal,
    pub absolute_total: Decimal,
    pub children: CategorizedChildrenView,
}

/// Possible categorized children, either a list of transactions or subcategories
#[derive(Debug)]
pub enum CategorizedChildren {
    /// Child transactions
    Transactions(Vec<Transaction>),
    /// Child categories
    Subcategories(Vec<Categorized>),
}

/// Categorized transactions
#[derive(Debug)]
pub struct Categorized {
    /// Category name
    pub category: String,
    /// Count of transactions in this category (ie sum of all subcategory counts)
    pub count: u64,
    /// Total amount in this category (ie sum of all subcategory totals)
    pub total: Amount,
    /// Total absolute amount in this category (ie sum of all subcategory absolute totals)
    pub absolute_total: Amount,
    /// Possible children, either a list of transactions or categories
    pub children: CategorizedChildren,
}

/// Categorized transaction hierarchy
#[derive(Debug)]
pub struct CategorizedList {
    pub categorized: Vec<Categorized>,
}

/// The view of one node.
pub open spec fn categorized_view(node: Categorized) -> CategorizedView
    decreases node,
{
    CategorizedView {
        category: node.category@,
        count: node.count as nat,
        total: node.total@,
        absolute_total: node.absolute_total@,
        children: match node.children {
            CategorizedChildren::Transactions(transactions) => CategorizedChildrenView::Transactions(
                transaction_views(transactions@),
            ),
            CategorizedChildren::Subcategories(nodes) => CategorizedChildrenView::Subcategories(
                categorized_views(nodes@),
            ),
        },
    }
}

/// The views of a list of nodes, in the same order.
pub open spec fn categorized_views(nodes: Seq<Categorized>) -> Seq<CategorizedView>
    decreases nodes,
{
    if nodes.len() == 0 {
        Seq::empty()
    } else {
        categorized_views(nodes.drop_last()).push(categorized_view(nodes.last()))
    }
}

impl View for Categorized {
    type V = CategorizedView;

    open spec fn view(&self) -> CategorizedView {
        categorized_view(*self)
    }
}

impl View for CategorizedList {
    type V = Seq<CategorizedView>;

    open spec fn view(&self) -> Seq<CategorizedView> {
        categorized_views(self.categorized@)
    }
}

/// The sum of the amounts of `transactions`, accumulated from zero in order.
pub open spec fn sum_amounts(transactions: Seq<TransactionView>) -> Decimal
    decreases transactions.len(),
{
    if transactions.len() == 0 {
        Decimal { unscaled: 0, scale: 0 }
    } else {
        decimal_sum(sum_amounts(transactions.drop_last()), transactions.last().amount)
    }
}

/// The sum of the absolute amounts of `transactions`, accumulated from zero in order.
pub open spec fn sum_absolute_amounts(transactions: Seq<TransactionView>) -> Decimal
    decreases transactions.len(),
{
    if transactions.len() == 0 {
        Decimal { unscaled: 0, scale: 0 }
    } else {
        decimal_sum(
            sum_absolute_amounts(transactions.drop_last()),
            decimal_abs(transactions.last().amount),
        )
    }
}

/// The sum of the counts of `nodes`.
pub open spec fn sum_counts(nodes: Seq<CategorizedView>) -> nat
    decreases nodes.len(),
{
    if nodes.len() == 0 {
        0
    } else {
        sum_counts(nodes.drop_last()) + nodes.last().count
    }
}

/// The sum of the totals of `nodes`, accumulated from zero in order.
pub open spec fn sum_totals(nodes: Seq<CategorizedView>) -> Decimal
    decreases nodes.len(),
{
    if nodes.len() == 0 {
        Decimal { unscaled: 0, scale: 0 }
    } else {
        decimal_sum(sum_totals(nodes.drop_last()), nodes.last().total)
    }
}

/// The sum of the absolute totals of `nodes`, accumulated from zero in order.
pub open spec fn sum_absolute_totals(nodes: Seq<CategorizedView>) -> Decimal
    decreases nodes.len(),
{
    if nodes.len() == 0 {
        Decimal { unscaled: 0, scale: 0 }
    } else {
        decimal_sum(sum_absolute_totals(nodes.drop_last()), nodes.last().absolute_total)
    }
}

/// The node of a leaf category that holds `transactions`.
pub open spec fn leaf_view(category: Seq<char>, transactions: Seq<TransactionView>) -> CategorizedView {
    CategorizedView {
        category,
        count: transactions.len(),
        total: sum_amounts(transactions),
        absolute_total: sum_absolute_amounts(transactions),
        children: CategorizedChildrenView::Transactions(transactions),
    }
}

/// The node of a category whose subcategories gave `nodes`.
pub open spec fn branch_view(category: Seq<char>, nodes: Seq<CategorizedView>) -> CategorizedView {
    CategorizedView {
        category,
        count: sum_counts(nodes),
        total: sum_totals(nodes),
        absolute_total: sum_absolute_totals(nodes),
        children: CategorizedChildrenView::Subcategories(nodes),
    }
}

/// The aggregates of `node` and of every node below it are those of its
/// children: the count is the sum of their counts, and the total and the
/// absolute total are the same numbers as the sums of theirs.
pub open spec fn consistent(node: CategorizedView) -> bool
    decreases node,
{
    match node.children {
        CategorizedChildrenView::Transactions(transactions) => {
            &&& node.count == transactions.len()
            &&& same_number(node.total, sum_amounts(transactions))
            &&& same_number(node.absolute_total, sum_absolute_amounts(transactions))
        },
        CategorizedChildrenView::Subcategories(nodes) => {
            &&& node.count == sum_counts(nodes)
            &&& same_number(node.total, sum_totals(nodes))
            &&& same_number(node.absolute_total, sum_absolute_totals(nodes))
            &&& all_consistent(nodes)
        },
    }
}

/// Each of `nodes` has the aggregates of its children, and so has every node
/// below them.
pub open spec fn all_consistent(nodes: Seq<CategorizedView>) -> bool
    decreases nodes,
{
    forall|i: int| 0 <= i < nodes.len() ==> consistent(#[trigger] nodes[i])
}

/// Sort possibilities for categories
#[derive(Clone, Copy, Debug, PartialEq, Eq)]
pub enum CategorySort {
    /// Sort by category total descending
    TotalDescending,
    /// Sort by category total ascending
    TotalAscending,
    /// Sort by category absolute total descending
    AbsoluteTotalDescending,
    /// Sort by category absolute total ascending
    AbsoluteTotalAscending,
    /// Sort by category name descending
    NameDescending,
    /// Sort by category name ascending
    NameAscending,
}

/// Sort possibilities for transactions
#[derive(Clone, Copy, Debug, PartialEq, Eq)]
pub enum TransactionSort {
    /// Sort by transaction time descending
    TimeDescending,
    /// Sort by transaction time ascending
    TimeAscending,
    /// Sort by transaction amount descending
    AmountDescending,
    /// Sort by transaction amount ascending
    AmountAscending,
    /// Sort by transaction absolute amount descending
    AbsoluteAmountDescending,
    /// Sort by transaction absolute amount ascending
    AbsoluteAmountAscending,
}

/// The node `a` may stand before its sibling `b` in the order `sort`.
pub open spec fn category_precedes(a: CategorizedView, b: CategorizedView, sort: CategorySort) -> bool {
    match sort {
        CategorySort::TotalDescending => decimal_le(b.total, a.total),
        CategorySort::TotalAscending => decimal_le(a.total, b.total),
        CategorySort::AbsoluteTotalDescending => decimal_le(b.absolute_total, a.absolute_total),
        CategorySort::AbsoluteTotalAscending => decimal_le(a.absolute_total, b.absolute_total),
        CategorySort::NameDescending => text_le(b.category, a.category),
        CategorySort::NameAscending => text_le(a.category, b.category),
    }
}

/// The transaction `a` may stand before `b` in the order `sort`.
pub open spec fn transaction_precedes(
    a: TransactionView,
    b: TransactionView,
    sort: TransactionSort,
) -> bool {
    match sort {
        TransactionSort::TimeDescending => b.time.not_after(a.time),
        TransactionSort::TimeAscending => a.time.not_after(b.time),
        TransactionSort::AmountDescending => decimal_le(b.amount, a.amount),
        TransactionSort::AmountAscending => decimal_le(a.amount, b.amount),
        TransactionSort::AbsoluteAmountDescending => decimal_le(
            decimal_abs(b.amount),
            decimal_abs(a.amount),
        ),
        TransactionSort::AbsoluteAmountAscending => decimal_le(
            decimal_abs(a.amount),
            decimal_abs(b.amount),
        ),
    }
}

/// The order `sort` of sibling nodes as a relation.
pub open spec fn category_order(sort: CategorySort) -> spec_fn(
    CategorizedView,
    CategorizedView,
) -> bool {
    |a: CategorizedView, b: CategorizedView| category_precedes(a, b, sort)
}

/// The order `sort` of transactions as a relation.
pub open spec fn transaction_order(sort: TransactionSort) -> spec_fn(
    TransactionView,
    TransactionView,
) -> bool {
    |a: TransactionView, b: TransactionView| transaction_precedes(a, b, sort)
}

/// `node` with the subcategories of every level below it in the order `sort`.
pub open spec fn sorted_subcategories(node: CategorizedView, sort: CategorySort) -> CategorizedView
    decreases node, 0nat,
{
    match node.children {
        CategorizedChildrenView::Transactions(_) => node,
        CategorizedChildrenView::Subcategories(nodes) => CategorizedView {
            children: CategorizedChildrenView::Subcategories(sorted_categorized(nodes, sort)),
            ..node
        },
    }
}

/// Each of `nodes`, in the order they have, with the subcategories of every
/// level below it in the order `sort`.
pub open spec fn each_sorted(nodes: Seq<CategorizedView>, sort: CategorySort) -> Seq<CategorizedView>
    decreases nodes, 0nat,
{
    if nodes.len() == 0 {
        Seq::empty()
    } else {
        each_sorted(nodes.drop_last(), sort).push(sorted_subcategories(nodes.last(), sort))
    }
}

/// `nodes` in the order `sort`, and so the subcategories of every level
/// below them. Siblings that the order does not tell apart stay as they were.
pub open spec fn sorted_categorized(nodes: Seq<CategorizedView>, sort: CategorySort) -> Seq<
    CategorizedView,
>
    decreases nodes, 1nat,
{
    stable_sorted(each_sorted(nodes, sort), category_order(sort))
}

/// `node` with the transactions of every leaf below it in the order `sort`.
/// Transactions that the order does not tell apart stay as they were.
pub open spec fn sorted_transactions(node: CategorizedView, sort: TransactionSort) -> CategorizedView
    decreases node,
{
    match node.children {
        CategorizedChildrenView::Transactions(transactions) => CategorizedView {
            children: CategorizedChildrenView::Transactions(
                stable_sorted(transactions, transaction_order(sort)),
            ),
            ..node
        },
        CategorizedChildrenView::Subcategories(nodes) => CategorizedView {
            children: CategorizedChildrenView::Subcategories(each_sorted_transactions(nodes, sort)),
            ..node
        },
    }
}

/// Each of `nodes`, in the order they have, with the transactions of every
/// leaf below it in the order `sort`.
pub open spec fn each_sorted_transactions(nodes: Seq<CategorizedView>, sort: TransactionSort) -> Seq<
    CategorizedView,
>
    decreases nodes,
{
    if nodes.len() == 0 {
        Seq::empty()
    } else {
        each_sorted_transactions(nodes.drop_last(), sort).push(
            sorted_transactions(nodes.last(), sort),
        )
    }
}

impl Ordered<CategorySort> for Categorized {
    open spec fn precedes(&self, other: &Categorized, sort: CategorySort) -> bool {
        category_precedes(self@, other@, sort)
    }

    fn before(&self, other: &Categorized, sort: CategorySort) -> (r: bool) {
        match sort {
            CategorySort::TotalDescending => amount_le(&other.total, &self.total),
            CategorySort::TotalAscending => amount_le(&self.total, &other.total),
            CategorySort::AbsoluteTotalDescending => amount_le(
                &other.absolute_total,
                &self.absolute_total,
            ),
            CategorySort::AbsoluteTotalAscending => amount_le(
                &self.absolute_total,
                &other.absolute_total,
            ),
            CategorySort::NameDescending => text_before(
                other.category.as_str(),
                self.category.as_str(),
            ),
            CategorySort::NameAscending => text_before(
                self.category.as_str(),
                other.category.as_str(),
            ),
        }
    }
}

impl Ordered<TransactionSort> for Transaction {
    open spec fn precedes(&self, other: &Transaction, sort: TransactionSort) -> bool {
        transaction_precedes(self@, other@, sort)
    }

    fn before(&self, other: &Transaction, sort: TransactionSort) -> (r: bool) {
        match sort {
            TransactionSort::TimeDescending => other.time.le(&self.time),
            TransactionSort::TimeAscending => self.time.le(&other.time),
            TransactionSort::AmountDescending => amount_le(&other.amount, &self.amount),
            TransactionSort::AmountAscending => amount_le(&self.amount, &other.amount),
            TransactionSort::AbsoluteAmountDescending => amount_le(
                &amount_abs(&other.amount),
                &amount_abs(&self.amount),
            ),
            TransactionSort::AbsoluteAmountAscending => amount_le(
                &amount_abs(&self.amount),
                &amount_abs(&other.amount),
            ),
        }
    }
}

/// The views of a list of nodes are the views of its nodes.
pub proof fn lemma_categorized_views(nodes: Seq<Categorized>)
    ensures
        categorized_views(nodes) == nodes.map_values(|node: Categorized| node@),
    decreases nodes.len(),
{
    let f = |node: Categorized| node@;
    if nodes.len() == 0 {
        assert(categorized_views(nodes) =~= nodes.map_values(f));
    } else {
        lemma_categorized_views(nodes.drop_last());
        assert(nodes.drop_last().map_values(f).push(f(nodes.last())) =~= nodes.map_values(f));
    }
}

/// Each of the nodes of `each_sorted` is the node at its place, sorted.
pub proof fn lemma_each_sorted(nodes: Seq<CategorizedView>, sort: CategorySort)
    ensures
        each_sorted(nodes, sort).len() == nodes.len(),
        forall|i: int|
            0 <= i < nodes.len() ==> #[trigger] each_sorted(nodes, sort)[i] == sorted_subcategories(
                nodes[i],
                sort,
            ),
    decreases nodes.len(),
{
    if nodes.len() > 0 {
        lemma_each_sorted(nodes.drop_last(), sort);
    }
}

/// Each of the nodes of `each_sorted_transactions` is the node at its place, sorted.
pub proof fn lemma_each_sorted_transactions(nodes: Seq<CategorizedView>, sort: TransactionSort)
    ensures
        each_sorted_transactions(nodes, sort).len() == nodes.len(),
        forall|i: int|
            0 <= i < nodes.len() ==> #[trigger] each_sorted_transactions(nodes, sort)[i]
                == sorted_transactions(nodes[i], sort),
    decreases nodes.len(),
{
    if nodes.len() > 0 {
        lemma_each_sorted_transactions(nodes.drop_last(), sort);
    }
}

impl Categorized {
    /// Sorts the subcategories of every level below this node.
    pub fn sort_subcategories(&mut self, sort: CategorySort)
        ensures
            final(self)@ == sorted_subcategories(old(self)@, sort),
            consistent(old(self)@) ==> consistent(final(self)@),
        decreases *old(self),
    {
        proof {
            if consistent(self@) {
                lemma_sorted_subcategories_consistent(self@, sort);
            }
        }
        match &mut self.children {
            CategorizedChildren::Subcategories(nodes) => {
                Categorized::sort_categorized(nodes, sort);
            },
            CategorizedChildren::Transactions(_) => {},
        }
    }

    /// Sorts the nodes and the subcategories of every level below them.
    pub fn sort_categorized(categorized: &mut Vec<Categorized>, sort: CategorySort)
        ensures
            categorized_views(final(categorized)@) == sorted_categorized(
                categorized_views(old(categorized)@),
                sort,
            ),
            all_consistent(categorized_views(old(categorized)@)) ==> all_consistent(
                categorized_views(final(categorized)@),
            ),
            final(categorized)@.len() == old(categorized)@.len(),
        decreases *old(categorized),
    {
        let ghost start = categorized@;
        proof {
            if all_consistent(categorized_views(start)) {
                lemma_sorted_categorized_consistent(categorized_views(start), sort);
            }
        }
        let mut i: usize = 0;
        while i < categorized.len()
            invariant
                i <= categorized@.len(),
                categorized@.len() == start.len(),
                start == old(categorized)@,
                forall|k: int| 0 <= k < i ==> (#[trigger] categorized@[k])@ == sorted_subcategories(
                    start[k]@,
                    sort,
                ),
                forall|k: int| i <= k < start.len() ==> #[trigger] categorized@[k] == start[k],
            decreases categorized@.len() - i,
        {
            categorized[i].sort_subcategories(sort);
            i += 1;
        }
        let ghost each = categorized@;
        proof {
            lemma_categorized_views(start);
            lemma_categorized_views(each);
            lemma_each_sorted(categorized_views(start), sort);
            assert(categorized_views(each) =~= each_sorted(categorized_views(start), sort));
        }
        stable_sort(categorized, sort);
        proof {
            lemma_categorized_views(categorized@);
            lemma_stable_sorted_permutes(each, order_of::<CategorySort, Categorized>(sort));
            lemma_stable_sorted_mapped(
                each,
                |node: Categorized| node@,
                order_of::<CategorySort, Categorized>(sort),
                category_order(sort),
            );
        }
    }

    /// Sorts the transactions of every leaf below this node.
    pub fn sort_transactions(&mut self, sort: TransactionSort)
        ensures
            final(self)@ == sorted_transactions(old(self)@, sort),
            consistent(old(self)@) ==> consistent(final(self)@),
        decreases *old(self),
    {
        proof {
            if consistent(self@) {
                lemma_sorted_transactions_consistent(self@, sort);
            }
        }
        match &mut self.children {
            CategorizedChildren::Transactions(transactions) => {
                let ghost start = transactions@;
                stable_sort(transactions, sort);
                proof {
                    lemma_stable_sorted_mapped(
                        start,
                        |t: Transaction| t@,
                        order_of::<TransactionSort, Transaction>(sort),
                        transaction_order(sort),
                    );
                }
            },
            CategorizedChildren::Subcategories(nodes) => {
                Categorized::sort_each_transactions(nodes, sort);
            },
        }
    }

    /// Sorts the transactions of every leaf below the nodes.
    pub fn sort_each_transactions(categorized: &mut Vec<Categorized>, sort: TransactionSort)
        ensures
            categorized_views(final(categorized)@) == each_sorted_transactions(
                categorized_views(old(categorized)@),
                sort,
            ),
            all_consistent(categorized_views(old(categorized)@)) ==> all_consistent(
                categorized_views(final(categorized)@),
            ),
            final(categorized)@.len() == old(categorized)@.len(),
        decreases *old(categorized),
    {
        let ghost start = categorized@;
        proof {
            if all_consistent(categorized_views(start)) {
                lemma_each_sorted_transactions_consistent(categorized_views(start), sort);
            }
        }
        let mut i: usize = 0;
        while i < categorized.len()
            invariant
                i <= categorized@.len(),
                categorized@.len() == start.len(),
                start == old(categorized)@,
                forall|k: int| 0 <= k < i ==> (#[trigger] categorized@[k])@ == sorted_transactions(
                    start[k]@,
                    sort,
                ),
                forall|k: int| i <= k < start.len() ==> #[trigger] categorized@[k] == start[k],
            decreases categorized@.len() - i,
        {
            categorized[i].sort_transactions(sort);
            i += 1;
        }
        proof {
            lemma_categorized_views(start);
            lemma_categorized_views(categorized@);
            lemma_each_sorted_transactions(categorized_views(start), sort);
            assert(categorized_views(categorized@) =~= each_sorted_transactions(
                categorized_views(start),
                sort,
            ));
        }
    }
}

/// A copy of the transactions.
fn clone_transactions(transactions: &Vec<Transaction>) -> (r: Vec<Transaction>)
    ensures
        transaction_views(r@) == transaction_views(transactions@),
{
    let mut copies: Vec<Transaction> = Vec::new();
    let mut i: usize = 0;
    while i < transactions.len()
        invariant
            i <= transactions@.len(),
            transaction_views(copies@) =~= transaction_views(transactions@.take(i as int)),
        decreases transactions@.len() - i,
    {
        let ghost before = copies@;
        let ghost seen = transactions@.take(i as int);
        let copy = transactions[i].clone();
        copies.push(copy);
        proof {
            assert(transactions@.take(i + 1) =~= seen.push(transactions@[i as int]));
            assert(transaction_views(before.push(copy)) =~= transaction_views(before).push(copy@));
            assert(transaction_views(seen.push(transactions@[i as int])) =~= transaction_views(
                seen,
            ).push(transactions@[i as int]@));
        }
        i += 1;
    }
    assert(transactions@.take(i as int) =~= transactions@);
    copies
}

/// A copy of the node and of all that is below it.
fn clone_node(node: &Categorized) -> (r: Categorized)
    ensures
        r@ == node@,
    decreases node,
{
    let children = match &node.children {
        CategorizedChildren::Transactions(transactions) => CategorizedChildren::Transactions(
            clone_transactions(transactions),
        ),
        CategorizedChildren::Subcategories(nodes) => CategorizedChildren::Subcategories(
            clone_nodes(nodes),
        ),
    };
    Categorized {
        category: node.category.clone(),
        count: node.count,
        total: node.total.clone(),
        absolute_total: node.absolute_total.clone(),
        children,
    }
}

/// A copy of the nodes and of all that is below them.
fn clone_nodes(nodes: &Vec<Categorized>) -> (r: Vec<Categorized>)
    ensures
        categorized_views(r@) == categorized_views(nodes@),
    decreases nodes,
{
    let mut copies: Vec<Categorized> = Vec::new();
    let mut i: usize = 0;
    assert(nodes@.take(0) =~= Seq::empty());
    while i < nodes.len()
        invariant
            i <= nodes@.len(),
            categorized_views(copies@) == categorized_views(nodes@.take(i as int)),
        decreases nodes@.len() - i,
    {
        let copy = clone_node(&nodes[i]);
        proof {
            let next = nodes@.take(i + 1);
            assert(next.drop_last() =~= nodes@.take(i as int));
            assert(copies@.push(copy).drop_last() =~= copies@);
        }
        copies.push(copy);
        i += 1;
    }
    assert(nodes@.take(i as int) =~= nodes@);
    copies
}

impl Clone for Categorized {
    fn clone(&self) -> (r: Categorized)
        ensures
            r@ == self@,
    {
        clone_node(self)
    }
}

impl Clone for CategorizedList {
    fn clone(&self) -> (r: CategorizedList)
        ensures
            r@ == self@,
    {
        CategorizedList { categorized: clone_nodes(&self.categorized) }
    }
}

impl Default for CategorizedList {
    fn default() -> (r: CategorizedList)
        ensures
            r@ == Seq::<CategorizedView>::empty(),
    {
        CategorizedList { categorized: Vec::new() }
    }
}

impl CategorizedList {
    /// Sort categories by the sort type
    pub fn sort_subcategories(&mut self, sort: CategorySort)
        ensures
            final(self)@ == sorted_categorized(old(self)@, sort),
            all_consistent(old(self)@) ==> all_consistent(final(self)@),
            final(self)@.len() == old(self)@.len(),
    {
        proof {
            lemma_categorized_views(self.categorized@);
        }
        Categorized::sort_categorized(&mut self.categorized, sort);
        proof {
            lemma_categorized_views(self.categorized@);
        }
    }

    /// Sort transactions by the sort type
    pub fn sort_transactions(&mut self, sort: TransactionSort)
        ensures
            final(self)@ == each_sorted_transactions(old(self)@, sort),
            all_consistent(old(self)@) ==> all_consistent(final(self)@),
            final(self)@.len() == old(self)@.len(),
    {
        proof {
            lemma_categorized_views(self.categorized@);
        }
        Categorized::sort_each_transactions(&mut self.categorized, sort);
        proof {
            lemma_categorized_views(self.categorized@);
        }
    }
}

} // verus!
