use slotted_pig_lib::categorizer::categorized::Categorized;
use slotted_pig_lib::categorizer::categorized::CategorizedChildren;
use slotted_pig_lib::categorizer::categorized::CategorizedList;
use slotted_pig_lib::categorizer::transaction_matcher::TransactionMatcher;
use slotted_pig_lib::categorizer::Categorizer;
use slotted_pig_lib::categorizer::Category;
use slotted_pig_lib::categorizer::CategoryChildren;
use slotted_pig_lib::decimal::Amount;
use slotted_pig_lib::pattern::Pattern;
use slotted_pig_lib::timestamp::Timestamp;
use slotted_pig_lib::transaction::Transaction;
use slotted_pig_lib::util::format_bigdecimal;

fn amount(text: &str) -> Amount {
    Amount::parse(text).unwrap()
}

fn transaction(value: &str, account: &str, description: &str, seconds: i64) -> Transaction {
    Transaction {
        amount: amount(value),
        account: account.to_string(),
        description: description.to_string(),
        time: Timestamp { seconds, nanos: 0 },
    }
}

fn matcher() -> TransactionMatcher {
    TransactionMatcher {
        min: None,
        max: None,
        account: None,
        description: Vec::new(),
        begin: None,
        end: None,
    }
}

fn leaf(name: &str, matchers: Vec<TransactionMatcher>) -> Category {
    Category {
        category: name.to_string(),
        children: CategoryChildren::TransactionMatchers(matchers),
    }
}

fn branch(name: &str, subcategories: Vec<Category>) -> Category {
    Category {
        category: name.to_string(),
        children: CategoryChildren::Subcategories(subcategories),
    }
}

fn simple_categorizer() -> Categorizer {
    let mut store = matcher();
    store.description = vec![Pattern::new("store.*").unwrap()];
    let mut paycheck = matcher();
    paycheck.min = Some(amount("0"));
    Categorizer {
        transaction_filters: None,
        categories: vec![
            branch("expenses", vec![leaf("store", vec![store])]),
            branch("income", vec![leaf("paycheck", vec![paycheck])]),
        ],
    }
}

#[test]
fn simple_transactions_reach_their_leaves() {
    let transactions = vec![
        transaction("-10", "credit card", "store1", 1708805459),
        transaction("5", "checking", "paycheck", 1706818259),
    ];
    let (categorized, uncategorized) = simple_categorizer().categorize(&transactions);
    assert!(uncategorized.is_empty());
    assert_eq!(categorized.categorized.len(), 2);
    let expenses = &categorized.categorized[0];
    assert_eq!(expenses.category, "expenses");
    assert_eq!(expenses.count, 1);
    assert_eq!(expenses.total.to_text(), "-10");
    assert_eq!(expenses.absolute_total.to_text(), "10");
    let CategorizedChildren::Subcategories(children) = &expenses.children else {
        panic!("expenses holds subcategories");
    };
    let store = &children[0];
    assert_eq!(store.category, "store");
    assert_eq!(store.count, 1);
    assert_eq!(store.total.to_text(), "-10");
    assert_eq!(store.absolute_total.to_text(), "10");
    let income = &categorized.categorized[1];
    let CategorizedChildren::Subcategories(children) = &income.children else {
        panic!("income holds subcategories");
    };
    let paycheck = &children[0];
    assert_eq!(paycheck.category, "paycheck");
    assert_eq!(paycheck.count, 1);
    assert_eq!(paycheck.total.to_text(), "5");
    assert_eq!(paycheck.absolute_total.to_text(), "5");
}

fn children(node: &Categorized) -> &Vec<Categorized> {
    match &node.children {
        CategorizedChildren::Subcategories(nodes) => nodes,
        CategorizedChildren::Transactions(_) => panic!("{} holds transactions", node.category),
    }
}

fn descriptions(node: &Categorized) -> Vec<String> {
    match &node.children {
        CategorizedChildren::Transactions(transactions) => {
            transactions.iter().map(|t| t.description.clone()).collect()
        }
        CategorizedChildren::Subcategories(_) => panic!("{} holds subcategories", node.category),
    }
}

fn describes(pattern: &str) -> TransactionMatcher {
    let mut rule = matcher();
    rule.description = vec![Pattern::new(pattern).unwrap()];
    rule
}

#[test]
fn no_transactions_give_a_tree_of_zeros() {
    let transactions = Transaction::from_csv_buffer(b"").unwrap();
    let (categorized, uncategorized) = simple_categorizer().categorize(&transactions);
    assert!(uncategorized.is_empty());
    assert_eq!(categorized.categorized.len(), 2);
    for (top, (name, leaf)) in categorized
        .categorized
        .iter()
        .zip([("expenses", "store"), ("income", "paycheck")])
    {
        assert_eq!(top.category, name);
        assert_eq!(top.count, 0);
        assert_eq!(top.total.to_text(), "0");
        assert_eq!(top.absolute_total.to_text(), "0");
        let below = children(top);
        assert_eq!(below.len(), 1);
        assert_eq!(below[0].category, leaf);
        assert_eq!(below[0].count, 0);
        assert_eq!(below[0].total.to_text(), "0");
        assert_eq!(below[0].absolute_total.to_text(), "0");
        assert!(descriptions(&below[0]).is_empty());
    }
}

#[test]
fn no_categories_leave_everything_uncategorized() {
    let transactions = vec![
        transaction("-10", "credit card", "store1", 1),
        transaction("5", "checking", "paycheck", 2),
    ];
    let categorizer = Categorizer { transaction_filters: None, categories: Vec::new() };
    let (categorized, uncategorized) = categorizer.categorize(&transactions);
    assert!(categorized.categorized.is_empty());
    assert_eq!(uncategorized.len(), 2);
    assert_eq!(uncategorized[0].description, "store1");
    assert_eq!(uncategorized[1].description, "paycheck");
}

#[test]
fn a_category_without_matchers_claims_nothing() {
    let transactions = vec![transaction("-10", "credit card", "store1", 1)];
    let categorizer = Categorizer {
        transaction_filters: None,
        categories: vec![leaf("empty", Vec::new()), branch("hollow", Vec::new())],
    };
    let (categorized, uncategorized) = categorizer.categorize(&transactions);
    assert_eq!(uncategorized.len(), 1);
    assert_eq!(categorized.categorized[0].count, 0);
    assert!(descriptions(&categorized.categorized[0]).is_empty());
    assert_eq!(categorized.categorized[1].count, 0);
    assert_eq!(categorized.categorized[1].total.to_text(), "0");
    assert!(children(&categorized.categorized[1]).is_empty());
}

#[test]
fn the_first_leaf_in_depth_first_order_wins() {
    let transactions = vec![
        transaction("-1", "a", "store food", 1),
        transaction("-2", "a", "food", 2),
        transaction("-4", "a", "store", 3),
        transaction("-8", "a", "rent", 4),
    ];
    let categorizer = Categorizer {
        transaction_filters: None,
        categories: vec![
            branch(
                "outer",
                vec![
                    branch("inner", vec![leaf("store", vec![describes("store")])]),
                    leaf("food", vec![describes("food")]),
                ],
            ),
            leaf("anything", vec![matcher()]),
            leaf("late", vec![describes("rent")]),
        ],
    };
    let (categorized, uncategorized) = categorizer.categorize(&transactions);
    assert!(uncategorized.is_empty());
    let outer = &categorized.categorized[0];
    let inner = &children(outer)[0];
    let store = &children(inner)[0];
    let food = &children(outer)[1];
    assert_eq!(descriptions(store), vec!["store food", "store"]);
    assert_eq!(descriptions(food), vec!["food"]);
    assert_eq!(descriptions(&categorized.categorized[1]), vec!["rent"]);
    assert!(descriptions(&categorized.categorized[2]).is_empty());
    assert_eq!(store.count, 2);
    assert_eq!(store.total.to_text(), "-5");
    assert_eq!(store.absolute_total.to_text(), "5");
    assert_eq!(inner.count, 2);
    assert_eq!(inner.total.to_text(), "-5");
    assert_eq!(outer.count, 3);
    assert_eq!(outer.total.to_text(), "-7");
    assert_eq!(outer.absolute_total.to_text(), "7");
    assert_eq!(categorized.categorized[1].count, 1);
    assert_eq!(categorized.categorized[2].count, 0);
}

#[test]
fn what_matches_no_leaf_is_uncategorized_in_order() {
    let transactions = vec![
        transaction("1", "a", "gift", 1),
        transaction("-10", "a", "store1", 2),
        transaction("2", "a", "refund", 3),
    ];
    let categorizer = Categorizer {
        transaction_filters: None,
        categories: vec![leaf("store", vec![describes("store")])],
    };
    let (categorized, uncategorized) = categorizer.categorize(&transactions);
    assert_eq!(descriptions(&categorized.categorized[0]), vec!["store1"]);
    assert_eq!(uncategorized.len(), 2);
    assert_eq!(uncategorized[0].description, "gift");
    assert_eq!(uncategorized[1].description, "refund");
}

#[test]
fn filters_decide_what_is_considered_at_all() {
    let transactions = vec![
        transaction("-10", "card", "store1", 1),
        transaction("-20", "cash", "store2", 2),
        transaction("5", "card", "paycheck", 3),
        transaction("6", "bank", "gift", 4),
    ];
    let mut card = matcher();
    card.account = Some("card".to_string());
    let mut bank = matcher();
    bank.account = Some("bank".to_string());
    let categorizer = Categorizer {
        transaction_filters: Some(vec![card, bank]),
        categories: vec![leaf("store", vec![describes("store")])],
    };
    let (categorized, uncategorized) = categorizer.categorize(&transactions);
    assert_eq!(descriptions(&categorized.categorized[0]), vec!["store1"]);
    assert_eq!(uncategorized.len(), 2);
    assert_eq!(uncategorized[0].description, "paycheck");
    assert_eq!(uncategorized[1].description, "gift");
    let categorizer = Categorizer {
        transaction_filters: Some(Vec::new()),
        categories: vec![leaf("store", vec![describes("store")])],
    };
    let (categorized, uncategorized) = categorizer.categorize(&transactions);
    assert_eq!(categorized.categorized[0].count, 0);
    assert!(uncategorized.is_empty());
}

#[test]
fn totals_are_exact_and_absolute_totals_never_negative() {
    let transactions = vec![
        transaction("0.1", "a", "x", 1),
        transaction("0.2", "a", "x", 2),
        transaction("-0.3", "a", "x", 3),
        transaction("-1000000000000000000000000000000.05", "a", "x", 4),
    ];
    let categorizer = Categorizer {
        transaction_filters: None,
        categories: vec![branch("all", vec![leaf("x", vec![matcher()])])],
    };
    let (categorized, _) = categorizer.categorize(&transactions);
    let all = &categorized.categorized[0];
    assert_eq!(all.count, 4);
    assert_eq!(all.total.to_text(), "-1000000000000000000000000000000.05");
    assert_eq!(all.absolute_total.to_text(), "1000000000000000000000000000000.65");
    let x = &children(all)[0];
    assert_eq!(x.total.to_text(), "-1000000000000000000000000000000.05");
    assert_eq!(x.absolute_total.to_text(), "1000000000000000000000000000000.65");
    assert!(!x.absolute_total.is_negative());
}

#[test]
fn a_total_that_comes_to_zero_keeps_nothing_of_its_sign() {
    let transactions = vec![transaction("-2.50", "a", "x", 1), transaction("2.5", "a", "x", 2)];
    let categorizer = Categorizer {
        transaction_filters: None,
        categories: vec![leaf("x", vec![matcher()])],
    };
    let (categorized, _) = categorizer.categorize(&transactions);
    let x = &categorized.categorized[0];
    assert_eq!(x.count, 2);
    assert_eq!(x.total.to_text(), "0");
    assert!(!x.total.is_negative());
    assert_eq!(x.absolute_total.to_text(), "5.00");
}

#[test]
fn categorizing_twice_gives_the_same_tree() {
    let transactions = vec![
        transaction("-10", "credit card", "store1", 1708805459),
        transaction("-20", "credit card", "store2", 1708719059),
        transaction("5", "checking", "paycheck", 1706818259),
        transaction("7", "checking", "gift", 1706818260),
    ];
    let categorizer = simple_categorizer();
    let (first, first_rest) = categorizer.categorize(&transactions);
    let (second, second_rest) = categorizer.categorize(&transactions);
    assert_eq!(format!("{:?}", first), format!("{:?}", second));
    assert_eq!(format!("{:?}", first_rest), format!("{:?}", second_rest));
    assert_eq!(first_rest.len(), 0);
    assert_eq!(first.categorized[0].count, 2);
    assert_eq!(first.categorized[0].total.to_text(), "-30");
    assert_eq!(first.categorized[1].count, 2);
    assert_eq!(first.categorized[1].total.to_text(), "12");
}

fn total_of(values: &[&str]) -> (String, String) {
    let transactions: Vec<Transaction> =
        values.iter().map(|value| transaction(value, "a", "x", 1)).collect();
    let categorizer = Categorizer {
        transaction_filters: None,
        categories: vec![leaf("x", vec![matcher()])],
    };
    let (categorized, _) = categorizer.categorize(&transactions);
    let x = &categorized.categorized[0];
    (x.total.to_text(), x.absolute_total.to_text())
}

#[test]
fn totals_are_written_at_the_larger_scale() {
    assert_eq!(total_of(&["1.5", "2.25"]), ("3.75".to_string(), "3.75".to_string()));
    assert_eq!(total_of(&["2.25", "1.5"]), ("3.75".to_string(), "3.75".to_string()));
    assert_eq!(total_of(&["1.50", "1.5"]), ("3.00".to_string(), "3.00".to_string()));
    assert_eq!(total_of(&["-1.50", "1"]), ("-0.50".to_string(), "2.50".to_string()));
    assert_eq!(total_of(&["100", "0.001"]), ("100.001".to_string(), "100.001".to_string()));
}

#[test]
fn a_zero_leaves_the_other_amount_as_it_is_written() {
    assert_eq!(total_of(&["0.00", "5"]), ("5".to_string(), "5".to_string()));
    assert_eq!(total_of(&["5", "0.00"]), ("5".to_string(), "5".to_string()));
    assert_eq!(total_of(&["5.0", "0.000"]), ("5.0".to_string(), "5.0".to_string()));
    assert_eq!(total_of(&["1.00", "-1.00", "5"]), ("5".to_string(), "7.00".to_string()));
    assert_eq!(total_of(&["5", "1.00", "-1.00"]), ("5.00".to_string(), "7.00".to_string()));
}

#[test]
fn a_default_list_holds_nothing() {
    assert!(CategorizedList::default().categorized.is_empty());
}

fn summary_of(node: &Categorized) -> Vec<String> {
    let mut lines = vec![format!(
        "{} {} {} {}",
        node.category,
        node.count,
        format_bigdecimal(&node.total),
        format_bigdecimal(&node.absolute_total)
    )];
    match &node.children {
        CategorizedChildren::Transactions(transactions) => {
            let mut held: Vec<String> = transactions
                .iter()
                .map(|t| format!("  {} {}", t.description, t.amount.to_text()))
                .collect();
            held.sort();
            lines.extend(held);
        }
        CategorizedChildren::Subcategories(nodes) => {
            for node in nodes {
                lines.extend(summary_of(node));
            }
        }
    }
    lines
}

#[test]
fn the_order_of_the_transactions_decides_nothing_but_the_order_in_the_leaves() {
    let make = || {
        vec![
            transaction("-10.5", "a", "store1", 1),
            transaction("5", "a", "paycheck", 2),
            transaction("-0.25", "a", "store2", 3),
            transaction("7.125", "a", "gift", 4),
            transaction("-3", "a", "rent", 5),
            transaction("10.50", "a", "store3", 6),
        ]
    };
    let categorizer = simple_categorizer();
    let forward = make();
    let mut backward = make();
    backward.reverse();
    let mut mixed = make();
    mixed.swap(0, 4);
    mixed.swap(1, 5);
    let (first, first_rest) = categorizer.categorize(&forward);
    for other in [&backward, &mixed] {
        let (second, second_rest) = categorizer.categorize(other);
        assert_eq!(first.categorized.len(), second.categorized.len());
        for (x, y) in first.categorized.iter().zip(second.categorized.iter()) {
            assert_eq!(summary_of(x), summary_of(y));
        }
        let mut left: Vec<&str> = first_rest.iter().map(|t| t.description.as_str()).collect();
        let mut right: Vec<&str> = second_rest.iter().map(|t| t.description.as_str()).collect();
        left.sort();
        right.sort();
        assert_eq!(left, right);
        assert_eq!(left, vec!["rent"]);
    }
    assert_eq!(summary_of(&first.categorized[0])[0], "expenses 3 -0.25 21.25");
}

#[test]
fn an_absolute_total_is_at_least_the_size_of_the_total() {
    let transactions = vec![
        transaction("-10.5", "a", "store1", 1),
        transaction("4", "a", "store2", 2),
        transaction("5", "a", "paycheck", 3),
    ];
    let (categorized, _) = simple_categorizer().categorize(&transactions);
    let expenses = &categorized.categorized[0];
    assert_eq!(expenses.total.to_text(), "-6.5");
    assert_eq!(expenses.absolute_total.to_text(), "14.5");
    let mut at_least = matcher();
    at_least.min = Some(amount("6.5"));
    assert!(at_least.matches(&transaction(&expenses.absolute_total.to_text(), "a", "x", 1)));
    assert!(!expenses.absolute_total.is_negative());
}
