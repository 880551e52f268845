use secret_santa::names::NameSet;
use secret_santa::table::Table;

fn strings(names: &[&str]) -> Vec<String> {
    names.iter().map(|n| n.to_string()).collect()
}

#[test]
fn name_set_keeps_names_in_order_without_repetition() {
    let mut set = NameSet::new();
    assert_eq!(set.len(), 0);
    assert!(set.insert("luffy".to_string()));
    assert!(set.insert("ace".to_string()));
    assert!(set.insert("garp".to_string()));
    assert!(!set.insert("ace".to_string()));
    assert_eq!(set.len(), 3);
    assert_eq!(set.to_vec(), strings(&["ace", "garp", "luffy"]));
    assert_eq!(set.get(0), "ace");
    assert_eq!(set.get(2), "luffy");
}

#[test]
fn name_set_contains_what_was_inserted() {
    let set = NameSet::from_vec(strings(&["b", "a", "c", "a"]));
    assert_eq!(set.to_vec(), strings(&["a", "b", "c"]));
    assert!(set.contains("a"));
    assert!(set.contains("c"));
    assert!(!set.contains("d"));
    assert!(!set.contains(""));
    assert!(!NameSet::new().contains("a"));
}

#[test]
fn name_set_remove_takes_one_name_out() {
    let mut set = NameSet::from_vec(strings(&["a", "b", "c"]));
    assert!(set.remove("b"));
    assert!(!set.remove("b"));
    assert!(!set.remove("d"));
    assert_eq!(set.to_vec(), strings(&["a", "c"]));
}

#[test]
fn name_set_counts_what_is_outside_another() {
    let wanted = NameSet::from_vec(strings(&["a", "b", "c", "d"]));
    let banned = NameSet::from_vec(strings(&["b", "d", "e"]));
    assert_eq!(wanted.count_outside(&banned), 2);
    assert_eq!(banned.count_outside(&wanted), 1);
    assert_eq!(wanted.count_outside(&NameSet::new()), 4);
    assert_eq!(NameSet::new().count_outside(&wanted), 0);
    assert_eq!(wanted.count_outside(&wanted), 0);
}

#[test]
fn name_set_equality_ignores_the_order_of_insertion() {
    assert_eq!(NameSet::from_vec(strings(&["b", "a"])), NameSet::from_vec(strings(&["a", "b", "a"])));
    assert_ne!(NameSet::from_vec(strings(&["b", "a"])), NameSet::from_vec(strings(&["a"])));
}

#[test]
fn table_keeps_entries_in_the_order_of_their_keys() {
    let mut table: Table<u32> = Table::new();
    assert_eq!(table.len(), 0);
    table.insert("b".to_string(), 2);
    table.insert("c".to_string(), 3);
    table.insert("a".to_string(), 1);
    assert_eq!(table.len(), 3);
    assert_eq!(table.key(0), "a");
    assert_eq!(table.key(1), "b");
    assert_eq!(table.key(2), "c");
    assert_eq!(*table.value(0), 1);
    assert_eq!(*table.value(2), 3);
    assert_eq!(table.find("b"), Some(1));
    assert_eq!(table.find("d"), None);
}

#[test]
fn table_insert_replaces_the_value_of_a_key() {
    let mut table: Table<u32> = Table::new();
    table.insert("a".to_string(), 1);
    table.insert("b".to_string(), 2);
    table.insert("a".to_string(), 5);
    assert_eq!(table.len(), 2);
    assert_eq!(table.get("a"), Some(&5));
    assert_eq!(table.get("b"), Some(&2));
    assert_eq!(table.get("c"), None);
}

#[test]
fn table_remove_hands_out_the_value() {
    let mut table: Table<u32> = Table::new();
    table.insert("a".to_string(), 1);
    table.insert("b".to_string(), 2);
    table.insert("c".to_string(), 3);
    assert_eq!(table.remove("b"), Some(2));
    assert_eq!(table.remove("b"), None);
    assert_eq!(table.len(), 2);
    assert_eq!(table.get("a"), Some(&1));
    assert_eq!(table.get("c"), Some(&3));
    assert_eq!(table.key(1), "c");
}
