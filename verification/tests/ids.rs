use backtesting::ids::{IdRegistry, FIRST_ID, ID_LIMIT};
use std::collections::HashSet;

#[test]
fn ids_are_unique_and_in_range() {
    let mut reg = IdRegistry::new();
    let mut seen = HashSet::new();
    for _ in 0..2000 {
        let id = reg.generate_unique_id().unwrap();
        assert!(FIRST_ID <= id && id < ID_LIMIT);
        assert!(seen.insert(id));
        assert!(reg.contains(id));
    }
}

#[test]
fn fresh_registry_contains_nothing() {
    let reg = IdRegistry::new();
    assert!(!reg.contains(1));
    assert!(!reg.contains(42));
}
