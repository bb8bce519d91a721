use date_scheduler::names::{get_full_name, NameTable};

fn table() -> NameTable {
    let mut t = NameTable::new();
    t.insert("al".to_string(), "Alice Liddell".to_string());
    t.insert("bo".to_string(), "Bob".to_string());
    t
}

#[test]
fn present_name_is_expanded() {
    assert_eq!(get_full_name(&table(), "al"), "Alice Liddell (al)");
    assert_eq!(get_full_name(&table(), "bo"), "Bob (bo)");
}

#[test]
fn absent_name_is_unchanged() {
    assert_eq!(get_full_name(&table(), "zz"), "zz");
    assert_eq!(get_full_name(&NameTable::new(), "al"), "al");
}

#[test]
fn resolution_is_never_empty() {
    for s in ["al", "bo", "x", "unknown id"] {
        assert!(!get_full_name(&table(), s).is_empty());
    }
}

#[test]
fn later_insert_replaces_name() {
    let mut t = table();
    t.insert("al".to_string(), "Alan".to_string());
    assert_eq!(get_full_name(&t, "al"), "Alan (al)");
    assert_eq!(t.get("bo"), Some(&"Bob".to_string()));
    assert_eq!(t.get("cy"), None);
}
