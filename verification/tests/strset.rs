use cdbgen_rs::strset::StringSet;

fn set(items: &[&str]) -> StringSet {
    StringSet::from_vec(items.iter().map(|s| s.to_string()).collect())
}

fn items(s: &StringSet) -> Vec<&str> {
    s.as_slice().iter().map(|x| x.as_str()).collect()
}

#[test]
fn from_vec_sorts_and_dedups() {
    let s = set(&["b", "a", "c", "a", "b"]);
    assert_eq!(items(&s), vec!["a", "b", "c"]);
    assert_eq!(s.len(), 3);
    assert!(!s.is_empty());
    assert!(StringSet::new().is_empty());
}

#[test]
fn order_is_byte_order() {
    let s = set(&["b", "B", "a-b", "a_b", "ä", "z"]);
    assert_eq!(items(&s), vec!["B", "a-b", "a_b", "b", "z", "ä"]);
}

#[test]
fn union_and_difference() {
    let a = set(&["x", "y", "z"]);
    let b = set(&["w", "y"]);
    assert_eq!(items(&a.union(&b)), vec!["w", "x", "y", "z"]);
    assert_eq!(items(&a.difference(&b)), vec!["x", "z"]);
    assert_eq!(items(&b.difference(&a)), vec!["w"]);
}

#[test]
fn membership() {
    let s = set(&["alpha", "beta", "gamma", "delta"]);
    for x in ["alpha", "beta", "gamma", "delta"] {
        assert!(s.contains(x));
    }
    assert!(!s.contains("epsilon"));
    assert!(!s.contains(""));
}
