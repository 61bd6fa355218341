use simple_llm::pair_table::PairTable;

#[test]
fn a_new_table_is_empty() {
    let table = PairTable::new();

    assert_eq!(table.get(&(1, 2)), None);
    assert!(table.entries().is_empty());
}

#[test]
fn insert_then_get_gives_the_value_back() {
    let mut table = PairTable::new();

    assert_eq!(table.insert((1, 2), 256), None);
    assert_eq!(table.insert((u32::MAX, 0), 257), None);

    assert_eq!(table.get(&(1, 2)), Some(&256));
    assert_eq!(table.get(&(2, 1)), None);
    assert_eq!(table.get(&(u32::MAX, 0)), Some(&257));
    assert_eq!(table.get(&(0, u32::MAX)), None);
}

#[test]
fn insert_replaces_and_returns_the_old_value() {
    let mut table = PairTable::new();
    table.insert((5, 6), 300);

    assert_eq!(table.insert((5, 6), 301), Some(300));
    assert_eq!(table.get(&(5, 6)), Some(&301));
    assert_eq!(table.entries(), vec![((5, 6), 301)]);
}

#[test]
fn entries_list_every_rule_once() {
    let mut table = PairTable::new();
    table.insert((1, 1), 256);
    table.insert((256, 2), 257);
    table.insert((3, 256), 258);

    let mut entries = table.entries();
    entries.sort();

    assert_eq!(entries, vec![((1, 1), 256), ((3, 256), 258), ((256, 2), 257)]);
}
