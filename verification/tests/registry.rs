use nom_recursive::flags::RECURSIVE_FLAG_BITS;
use nom_recursive::registry::{CapacityExceeded, RecursiveIndexes};

fn leaked(name: String) -> &'static str {
    Box::leak(name.into_boxed_str())
}

#[test]
fn ids_follow_first_sight() {
    let mut registry = RecursiveIndexes::new();
    assert_eq!(registry.get("expr"), 0);
    assert_eq!(registry.get("term"), 1);
    assert_eq!(registry.get("factor"), 2);
}

#[test]
fn repeated_lookup_returns_same_id() {
    let mut registry = RecursiveIndexes::new();
    let first = registry.get("expr");
    let other = registry.get("term");
    let again = registry.get("expr");
    assert_eq!(first, again);
    assert_ne!(first, other);
    assert_eq!(registry.get("term"), other);
}

#[test]
fn equal_names_from_different_strings_share_an_id() {
    let mut registry = RecursiveIndexes::new();
    let a = registry.get(leaked(format!("rule{}", 7)));
    let b = registry.get("rule7");
    assert_eq!(a, b);
    assert_eq!(registry.get("rule8"), 1);
}

#[test]
fn try_get_agrees_with_get() {
    let mut registry = RecursiveIndexes::new();
    assert_eq!(registry.try_get("expr"), Ok(0));
    assert_eq!(registry.get("expr"), 0);
    assert_eq!(registry.try_get("term"), Ok(1));
    assert_eq!(registry.try_get("expr"), Ok(0));
}

#[test]
fn capacity_is_sixty_four() {
    assert_eq!(RECURSIVE_FLAG_BITS, 64);
}

#[test]
fn sixty_fifth_rule_exhausts_the_capacity() {
    let mut registry = RecursiveIndexes::new();
    for i in 0..64usize {
        assert_eq!(registry.try_get(leaked(format!("rule{}", i))), Ok(i));
    }
    assert_eq!(
        registry.try_get("one_too_many"),
        Err(CapacityExceeded { capacity: 64 })
    );
}

#[test]
fn full_registry_still_serves_known_rules() {
    let mut registry = RecursiveIndexes::new();
    for i in 0..64usize {
        assert_eq!(registry.try_get(leaked(format!("rule{}", i))), Ok(i));
    }
    assert!(registry.try_get("one_too_many").is_err());
    assert!(registry.try_get("another").is_err());
    assert_eq!(registry.try_get("rule63"), Ok(63));
    assert_eq!(registry.get("rule0"), 0);
    assert_eq!(registry.try_get("rule17"), Ok(17));
}

#[test]
fn registries_are_independent() {
    let mut left = RecursiveIndexes::new();
    let mut right = RecursiveIndexes::new();
    assert_eq!(left.get("a"), 0);
    assert_eq!(left.get("b"), 1);
    assert_eq!(right.get("b"), 0);
    assert_eq!(right.get("a"), 1);
}
