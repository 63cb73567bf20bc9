use slotted_pig_lib::categorizer::Categorizer;
use slotted_pig_lib::categorizer::CategorizerError;
use slotted_pig_lib::categorizer::Category;
use slotted_pig_lib::categorizer::CategoryChildren;

fn strings(names: &[&str]) -> Vec<String> {
    names.iter().map(|name| name.to_string()).collect()
}

fn leaf(name: &str) -> Category {
    Category {
        category: name.to_string(),
        children: CategoryChildren::TransactionMatchers(Vec::new()),
    }
}

fn branch(name: &str, subcategories: Vec<Category>) -> Category {
    Category {
        category: name.to_string(),
        children: CategoryChildren::Subcategories(subcategories),
    }
}

fn categorizer() -> Categorizer {
    Categorizer {
        transaction_filters: None,
        categories: vec![
            branch("expenses", vec![leaf("rent"), branch("food", vec![leaf("store")])]),
            branch("income", vec![leaf("paycheck")]),
        ],
    }
}

fn sorted(mut names: Vec<String>) -> Vec<String> {
    names.sort();
    names
}

#[test]
fn categories_lists_parents_before_children() {
    let forest = categorizer();
    assert_eq!(forest.categories[0].categories(), strings(&["expenses", "rent", "food", "store"]));
    assert_eq!(forest.categories[1].categories(), strings(&["income", "paycheck"]));
    assert_eq!(leaf("alone").categories(), strings(&["alone"]));
}

#[test]
fn validate_categories_accepts_targets_that_all_exist_once() {
    let targets = strings(&["store", "paycheck", "rent"]);
    assert!(categorizer().validate_categories(&targets).is_ok());
    assert!(categorizer().validate_categories(&Vec::new()).is_ok());
}

#[test]
fn two_matchers_named_rent_are_duplicates() {
    let targets = strings(&["rent", "store", "rent"]);
    match categorizer().validate_categories(&targets) {
        Err(CategorizerError::DuplicateCategoriesInTransactionMatchers(found)) => {
            assert_eq!(found, strings(&["rent"]))
        }
        other => panic!("unexpected outcome: {:?}", other),
    }
}

#[test]
fn each_duplicate_target_is_reported_once() {
    let targets = strings(&["b", "a", "b", "c", "a", "b", "d"]);
    match categorizer().validate_categories(&targets) {
        Err(CategorizerError::DuplicateCategoriesInTransactionMatchers(found)) => {
            assert_eq!(sorted(found), strings(&["a", "b"]))
        }
        other => panic!("unexpected outcome: {:?}", other),
    }
}

#[test]
fn a_category_twice_in_the_hierarchy_is_a_duplicate() {
    let forest = Categorizer {
        transaction_filters: None,
        categories: vec![
            branch("expenses", vec![leaf("misc"), branch("food", vec![leaf("misc")])]),
            branch("income", vec![leaf("food")]),
        ],
    };
    match forest.validate_categories(&strings(&["misc"])) {
        Err(CategorizerError::DuplicateCategoriesInCategoryHierarchy(found)) => {
            assert_eq!(sorted(found), strings(&["food", "misc"]))
        }
        other => panic!("unexpected outcome: {:?}", other),
    }
}

#[test]
fn duplicate_targets_come_before_duplicates_in_the_hierarchy() {
    let forest = Categorizer {
        transaction_filters: None,
        categories: vec![leaf("misc"), leaf("misc")],
    };
    assert!(matches!(
        forest.validate_categories(&strings(&["x", "x"])),
        Err(CategorizerError::DuplicateCategoriesInTransactionMatchers(_))
    ));
}

#[test]
fn a_target_outside_the_hierarchy_is_missing() {
    let targets = strings(&["store", "travel", "paycheck", "gifts"]);
    match categorizer().validate_categories(&targets) {
        Err(CategorizerError::MissingCategoriesInCategoryHierarchy(found)) => {
            assert_eq!(sorted(found), strings(&["gifts", "travel"]))
        }
        other => panic!("unexpected outcome: {:?}", other),
    }
}

#[test]
fn duplicates_in_the_hierarchy_come_before_missing_targets() {
    let forest = Categorizer {
        transaction_filters: None,
        categories: vec![leaf("misc"), leaf("misc")],
    };
    assert!(matches!(
        forest.validate_categories(&strings(&["travel"])),
        Err(CategorizerError::DuplicateCategoriesInCategoryHierarchy(_))
    ));
}
