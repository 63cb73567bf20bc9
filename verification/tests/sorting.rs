use slotted_pig_lib::categorizer::categorized::Categorized;
use slotted_pig_lib::categorizer::categorized::CategorizedChildren;
use slotted_pig_lib::categorizer::categorized::CategorizedList;
use slotted_pig_lib::categorizer::categorized::CategorySort;
use slotted_pig_lib::categorizer::categorized::TransactionSort;
use slotted_pig_lib::decimal::Amount;
use slotted_pig_lib::sorting::stable_sort;
use slotted_pig_lib::text::text_before;
use slotted_pig_lib::timestamp::Timestamp;
use slotted_pig_lib::transaction::Transaction;

fn amount(text: &str) -> Amount {
    Amount::parse(text).unwrap()
}

fn transaction(value: &str, description: &str, seconds: i64) -> Transaction {
    Transaction {
        amount: amount(value),
        account: "account".to_string(),
        description: description.to_string(),
        time: Timestamp { seconds, nanos: 0 },
    }
}

fn leaf(name: &str, total: &str, absolute: &str, transactions: Vec<Transaction>) -> Categorized {
    Categorized {
        category: name.to_string(),
        count: transactions.len() as u64,
        total: amount(total),
        absolute_total: amount(absolute),
        children: CategorizedChildren::Transactions(transactions),
    }
}

fn branch(name: &str, total: &str, absolute: &str, nodes: Vec<Categorized>) -> Categorized {
    Categorized {
        category: name.to_string(),
        count: nodes.iter().map(|node| node.count).sum(),
        total: amount(total),
        absolute_total: amount(absolute),
        children: CategorizedChildren::Subcategories(nodes),
    }
}

fn names(nodes: &Vec<Categorized>) -> Vec<String> {
    nodes.iter().map(|node| node.category.clone()).collect()
}

fn below(node: &Categorized) -> &Vec<Categorized> {
    match &node.children {
        CategorizedChildren::Subcategories(nodes) => nodes,
        CategorizedChildren::Transactions(_) => panic!("{} holds transactions", node.category),
    }
}

fn held(node: &Categorized) -> Vec<String> {
    match &node.children {
        CategorizedChildren::Transactions(transactions) => {
            transactions.iter().map(|t| t.description.clone()).collect()
        }
        CategorizedChildren::Subcategories(_) => panic!("{} holds subcategories", node.category),
    }
}

fn forest() -> CategorizedList {
    CategorizedList {
        categorized: vec![
            branch(
                "home",
                "-30",
                "50",
                vec![
                    leaf("rent", "-40", "40", Vec::new()),
                    leaf("refund", "10.0", "10", Vec::new()),
                    leaf("Power", "0", "0.00", Vec::new()),
                ],
            ),
            leaf("gifts", "5", "5", Vec::new()),
            branch(
                "work",
                "5.00",
                "105",
                vec![
                    leaf("salary", "55", "55", Vec::new()),
                    leaf("travel", "-50", "50", Vec::new()),
                ],
            ),
            leaf("échange", "-30.0", "30", Vec::new()),
        ],
    }
}

fn sorted_names(sort: CategorySort) -> (Vec<String>, Vec<String>, Vec<String>) {
    let mut list = forest();
    list.sort_subcategories(sort);
    let top = names(&list.categorized);
    let home = list.categorized.iter().find(|node| node.category == "home").unwrap();
    let work = list.categorized.iter().find(|node| node.category == "work").unwrap();
    (top, names(below(home)), names(below(work)))
}

#[test]
fn categories_sort_by_total_ascending_at_every_level() {
    let (top, home, work) = sorted_names(CategorySort::TotalAscending);
    assert_eq!(top, vec!["home", "échange", "gifts", "work"]);
    assert_eq!(home, vec!["rent", "Power", "refund"]);
    assert_eq!(work, vec!["travel", "salary"]);
}

#[test]
fn categories_sort_by_total_descending_at_every_level() {
    let (top, home, work) = sorted_names(CategorySort::TotalDescending);
    assert_eq!(top, vec!["gifts", "work", "home", "échange"]);
    assert_eq!(home, vec!["refund", "Power", "rent"]);
    assert_eq!(work, vec!["salary", "travel"]);
}

#[test]
fn categories_sort_by_absolute_total_ascending_at_every_level() {
    let (top, home, work) = sorted_names(CategorySort::AbsoluteTotalAscending);
    assert_eq!(top, vec!["gifts", "échange", "home", "work"]);
    assert_eq!(home, vec!["Power", "refund", "rent"]);
    assert_eq!(work, vec!["travel", "salary"]);
}

#[test]
fn categories_sort_by_absolute_total_descending_at_every_level() {
    let (top, home, work) = sorted_names(CategorySort::AbsoluteTotalDescending);
    assert_eq!(top, vec!["work", "home", "échange", "gifts"]);
    assert_eq!(home, vec!["rent", "refund", "Power"]);
    assert_eq!(work, vec!["salary", "travel"]);
}

#[test]
fn categories_sort_by_name_ascending_at_every_level() {
    let (top, home, work) = sorted_names(CategorySort::NameAscending);
    assert_eq!(top, vec!["gifts", "home", "work", "échange"]);
    assert_eq!(home, vec!["Power", "refund", "rent"]);
    assert_eq!(work, vec!["salary", "travel"]);
}

#[test]
fn categories_sort_by_name_descending_at_every_level() {
    let (top, home, work) = sorted_names(CategorySort::NameDescending);
    assert_eq!(top, vec!["échange", "work", "home", "gifts"]);
    assert_eq!(home, vec!["rent", "refund", "Power"]);
    assert_eq!(work, vec!["travel", "salary"]);
}

#[test]
fn sorting_categories_changes_no_aggregate() {
    let mut list = forest();
    list.sort_subcategories(CategorySort::NameDescending);
    let home = list.categorized.iter().find(|node| node.category == "home").unwrap();
    assert_eq!(home.count, 0);
    assert_eq!(home.total.to_text(), "-30");
    assert_eq!(home.absolute_total.to_text(), "50");
    let refund = below(home).iter().find(|node| node.category == "refund").unwrap();
    assert_eq!(refund.total.to_text(), "10.0");
    assert_eq!(refund.absolute_total.to_text(), "10");
    assert_eq!(list.categorized.len(), 4);
    assert_eq!(below(home).len(), 3);
}

fn ledger() -> CategorizedList {
    CategorizedList {
        categorized: vec![
            branch(
                "all",
                "2",
                "22",
                vec![
                    leaf(
                        "mixed",
                        "2",
                        "22",
                        vec![
                            transaction("-10", "a", 30),
                            transaction("5.0", "b", 10),
                            transaction("-3", "c", 20),
                            transaction("5", "d", 10),
                            transaction("10.00", "e", 40),
                            transaction("-5", "f", 30),
                        ],
                    ),
                    leaf("none", "0", "0", Vec::new()),
                ],
            ),
            leaf("other", "1", "3", vec![transaction("2", "y", 2), transaction("-1", "x", 1)]),
        ],
    }
}

fn sorted_descriptions(sort: TransactionSort) -> (Vec<String>, Vec<String>) {
    let mut list = ledger();
    list.sort_transactions(sort);
    assert_eq!(names(&list.categorized), vec!["all", "other"]);
    let all = &list.categorized[0];
    assert_eq!(names(below(all)), vec!["mixed", "none"]);
    assert!(held(&below(all)[1]).is_empty());
    (held(&below(all)[0]), held(&list.categorized[1]))
}

#[test]
fn transactions_sort_by_time_ascending_in_every_leaf() {
    let (mixed, other) = sorted_descriptions(TransactionSort::TimeAscending);
    assert_eq!(mixed, vec!["b", "d", "c", "a", "f", "e"]);
    assert_eq!(other, vec!["x", "y"]);
}

#[test]
fn transactions_sort_by_time_descending_in_every_leaf() {
    let (mixed, other) = sorted_descriptions(TransactionSort::TimeDescending);
    assert_eq!(mixed, vec!["e", "a", "f", "c", "b", "d"]);
    assert_eq!(other, vec!["y", "x"]);
}

#[test]
fn transactions_sort_by_amount_ascending_in_every_leaf() {
    let (mixed, other) = sorted_descriptions(TransactionSort::AmountAscending);
    assert_eq!(mixed, vec!["a", "f", "c", "b", "d", "e"]);
    assert_eq!(other, vec!["x", "y"]);
}

#[test]
fn transactions_sort_by_amount_descending_in_every_leaf() {
    let (mixed, other) = sorted_descriptions(TransactionSort::AmountDescending);
    assert_eq!(mixed, vec!["e", "b", "d", "c", "f", "a"]);
    assert_eq!(other, vec!["y", "x"]);
}

#[test]
fn transactions_sort_by_absolute_amount_ascending_in_every_leaf() {
    let (mixed, other) = sorted_descriptions(TransactionSort::AbsoluteAmountAscending);
    assert_eq!(mixed, vec!["c", "b", "d", "f", "a", "e"]);
    assert_eq!(other, vec!["x", "y"]);
}

#[test]
fn transactions_sort_by_absolute_amount_descending_in_every_leaf() {
    let (mixed, other) = sorted_descriptions(TransactionSort::AbsoluteAmountDescending);
    assert_eq!(mixed, vec!["a", "e", "b", "d", "f", "c"]);
    assert_eq!(other, vec!["y", "x"]);
}

#[test]
fn sorting_transactions_changes_no_aggregate() {
    let mut list = ledger();
    list.sort_transactions(TransactionSort::AmountDescending);
    let all = &list.categorized[0];
    assert_eq!(all.count, 6);
    assert_eq!(all.total.to_text(), "2");
    assert_eq!(all.absolute_total.to_text(), "22");
    let mixed = &below(all)[0];
    assert_eq!(mixed.count, 6);
    assert_eq!(mixed.total.to_text(), "2");
    match &mixed.children {
        CategorizedChildren::Transactions(transactions) => {
            assert_eq!(transactions.len(), 6);
            assert_eq!(transactions[1].amount.to_text(), "5.0");
            assert_eq!(transactions[1].time, Timestamp { seconds: 10, nanos: 0 });
        }
        CategorizedChildren::Subcategories(_) => panic!("mixed holds transactions"),
    }
}

#[test]
fn stable_sort_orders_a_vector_and_keeps_ties() {
    let mut transactions = vec![
        transaction("3", "c1", 0),
        transaction("1", "a1", 0),
        transaction("3.0", "c2", 0),
        transaction("2", "b", 0),
        transaction("1.00", "a2", 0),
    ];
    stable_sort(&mut transactions, TransactionSort::AmountAscending);
    let order: Vec<&str> = transactions.iter().map(|t| t.description.as_str()).collect();
    assert_eq!(order, vec!["a1", "a2", "b", "c1", "c2"]);
    let mut nothing: Vec<Transaction> = Vec::new();
    stable_sort(&mut nothing, TransactionSort::TimeDescending);
    assert!(nothing.is_empty());
}

#[test]
fn text_before_compares_byte_by_byte() {
    assert!(text_before("", ""));
    assert!(text_before("", "a"));
    assert!(!text_before("a", ""));
    assert!(text_before("abc", "abc"));
    assert!(text_before("abc", "abd"));
    assert!(!text_before("abd", "abc"));
    assert!(text_before("ab", "abc"));
    assert!(!text_before("abc", "ab"));
    assert!(text_before("Z", "a"));
    assert!(text_before("z", "é"));
    assert!(!text_before("é", "z"));
}

#[test]
fn a_clone_of_a_list_holds_the_same_forest() {
    let list = ledger();
    let copy = list.clone();
    assert_eq!(format!("{:?}", copy), format!("{:?}", list));
    let node = list.categorized[0].clone();
    assert_eq!(format!("{:?}", node), format!("{:?}", list.categorized[0]));
    assert_eq!(held(&below(&node)[0]), vec!["a", "b", "c", "d", "e", "f"]);
}

#[test]
fn sorting_transactions_a_second_time_changes_nothing() {
    for sort in [
        TransactionSort::TimeDescending,
        TransactionSort::TimeAscending,
        TransactionSort::AmountDescending,
        TransactionSort::AmountAscending,
        TransactionSort::AbsoluteAmountDescending,
        TransactionSort::AbsoluteAmountAscending,
    ] {
        let mut list = ledger();
        list.sort_transactions(sort);
        let once = format!("{:?}", list);
        list.sort_transactions(sort);
        assert_eq!(format!("{:?}", list), once);
        assert_eq!(names(&list.categorized), vec!["all", "other"]);
    }
}

#[test]
fn sorting_categories_keeps_the_order_inside_every_leaf() {
    for sort in [
        CategorySort::TotalDescending,
        CategorySort::TotalAscending,
        CategorySort::AbsoluteTotalDescending,
        CategorySort::AbsoluteTotalAscending,
        CategorySort::NameDescending,
        CategorySort::NameAscending,
    ] {
        let mut list = ledger();
        list.sort_subcategories(sort);
        let all = list.categorized.iter().find(|node| node.category == "all").unwrap();
        let mixed = below(all).iter().find(|node| node.category == "mixed").unwrap();
        assert_eq!(held(mixed), vec!["a", "b", "c", "d", "e", "f"]);
        let other = list.categorized.iter().find(|node| node.category == "other").unwrap();
        assert_eq!(held(other), vec!["y", "x"]);
    }
}
