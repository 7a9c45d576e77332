use core::cmp::Ordering;
use notetree::order::{name_le, sort_by_name, sort_names};
use notetree::tree::is_not_hidden_name;
use notetree::walk::prepare_level;

#[test]
fn default_filter_rejects_exactly_dotted_names() {
    assert!(!is_not_hidden_name(".secret"));
    assert!(!is_not_hidden_name("."));
    assert!(is_not_hidden_name("b.txt"));
    assert!(is_not_hidden_name("a"));
    assert!(is_not_hidden_name(""));
}

#[test]
fn name_le_is_ascending_lexicographic() {
    assert!(name_le("a", "b"));
    assert!(!name_le("b", "a"));
    assert!(name_le("a", "a"));
    assert!(name_le("a", "ab"));
    assert!(!name_le("ab", "a"));
    assert!(name_le("", "a"));
    assert!(name_le("A", "a"));
}

#[test]
fn comparator_orders_by_name() {
    assert_eq!(sort_by_name("a", "b"), Ordering::Less);
    assert_eq!(sort_by_name("b", "a"), Ordering::Greater);
    assert_eq!(sort_by_name("same", "same"), Ordering::Equal);
    assert_eq!(sort_by_name("a", "ab"), Ordering::Less);
}

#[test]
fn sort_names_sorts_and_keeps_every_name() {
    let names = vec![
        "b".to_string(),
        "a".to_string(),
        "ab".to_string(),
        "a".to_string(),
    ];
    let sorted = sort_names(names);
    assert_eq!(
        sorted,
        vec![
            "a".to_string(),
            "a".to_string(),
            "ab".to_string(),
            "b".to_string(),
        ],
    );
}

#[test]
fn prepare_level_filters_then_sorts() {
    let names = vec![
        "zeta".to_string(),
        ".hidden".to_string(),
        "alpha".to_string(),
    ];
    let kept = prepare_level(names, &is_not_hidden_name);
    assert_eq!(kept, vec!["alpha".to_string(), "zeta".to_string()]);
}
