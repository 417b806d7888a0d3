use core::cmp::Ordering;
use memtable::keys::compare_keys;
use memtable::MemTable;

fn keys_of(table: &MemTable) -> Vec<Vec<u8>> {
    table.entries().iter().map(|e| e.key.clone()).collect()
}

#[test]
fn new_buffer_is_empty() {
    let table = MemTable::new();
    assert_eq!(table.len(), 0);
    assert_eq!(table.size(), 0);
    assert!(table.entries().is_empty());
    assert!(table.get(b"anything").is_none());
}

#[test]
fn size_counts_three_writes_then_a_shrinking_overwrite() {
    let mut table = MemTable::new();
    table.set(b"Apple", b"Apple Smoothie", 0);
    assert_eq!(table.size(), 36);
    table.set(b"Lime", b"Lime Smoothie", 10);
    assert_eq!(table.size(), 70);
    table.set(b"Orange", b"Orange Smoothie", 20);
    assert_eq!(table.size(), 108);
    table.set(b"Lime", b"A sour fruit", 30);
    assert_eq!(table.size(), 107);
    assert_eq!(table.len(), 3);
}

#[test]
fn growing_overwrite_adds_the_growth() {
    let mut table = MemTable::new();
    table.set(b"k", b"ab", 1);
    assert_eq!(table.size(), 1 + 2 + 17);
    table.set(b"k", b"abcdef", 2);
    assert_eq!(table.size(), 1 + 6 + 17);
    table.set(b"k", b"", 3);
    assert_eq!(table.size(), 1 + 17);
    assert_eq!(table.len(), 1);
}

#[test]
fn delete_on_empty_buffer_costs_key_and_overhead() {
    let mut table = MemTable::new();
    table.delete(b"Apple", 10);
    assert_eq!(table.size(), 22);
    assert_eq!(table.len(), 1);
}

#[test]
fn last_write_wins_whatever_the_timestamps() {
    let mut table = MemTable::new();
    table.set(b"key", b"first", 50);
    table.set(b"key", b"second", 10);
    let entry = table.get(b"key").unwrap();
    assert_eq!(entry.value.as_ref().unwrap(), b"second");
    assert_eq!(entry.timestamp_ms, 10);
    assert!(!entry.is_deleted);
    assert_eq!(table.len(), 1);
}

#[test]
fn delete_of_written_key_leaves_tombstone() {
    let mut table = MemTable::new();
    table.set(b"a", b"1", 1);
    table.set(b"b", b"2", 2);
    table.delete(b"a", 3);
    let entry = table.get(b"a").unwrap();
    assert_eq!(entry.key, b"a");
    assert_eq!(entry.value, None);
    assert!(entry.is_deleted);
    assert_eq!(entry.timestamp_ms, 3);
    assert_eq!(table.len(), 2);
    assert_eq!(table.get(b"b").unwrap().value.as_ref().unwrap(), b"2");
}

#[test]
fn absent_key_differs_from_tombstone() {
    let mut table = MemTable::new();
    table.set(b"Apple", b"Apple Smoothie", 0);
    assert!(table.get(b"Potato").is_none());
    table.delete(b"Potato", 5);
    let entry = table.get(b"Potato").unwrap();
    assert!(entry.is_deleted);
    assert_eq!(entry.value, None);
    assert!(table.get(b"Pear").is_none());
}

#[test]
fn deleting_a_tombstone_again_changes_only_the_timestamp() {
    let mut table = MemTable::new();
    table.set(b"x", b"y", 0);
    table.delete(b"Apple", 10);
    let len = table.len();
    let size = table.size();
    table.delete(b"Apple", 20);
    assert_eq!(table.len(), len);
    assert_eq!(table.size(), size);
    let entry = table.get(b"Apple").unwrap();
    assert_eq!(entry.timestamp_ms, 20);
    assert!(entry.is_deleted);
    assert_eq!(entry.value, None);
}

#[test]
fn write_over_tombstone_adds_full_value_length() {
    let mut table = MemTable::new();
    table.set(b"Apple", b"Apple Smoothie", 0);
    table.delete(b"Apple", 1);
    assert_eq!(table.size(), 22);
    table.set(b"Apple", b"Juice", 2);
    assert_eq!(table.size(), 27);
    assert_eq!(table.len(), 1);
    let entry = table.get(b"Apple").unwrap();
    assert_eq!(entry.value.as_ref().unwrap(), b"Juice");
    assert!(!entry.is_deleted);
}

#[test]
fn delete_of_written_key_subtracts_value_length() {
    let mut table = MemTable::new();
    table.set(b"Apple", b"Apple Smoothie", 0);
    table.delete(b"Apple", 10);
    assert_eq!(table.size(), 22);
}

#[test]
fn entries_stay_sorted_bytewise_with_prefixes_and_empty_key() {
    let mut table = MemTable::new();
    table.set(b"b", b"", 0);
    table.set(b"ab", b"", 1);
    table.delete(b"a", 2);
    table.set(b"", b"", 3);
    table.set(&[0xff], b"", 4);
    table.set(b"B", b"", 5);
    table.set(b"ab", b"z", 6);
    let expected: Vec<Vec<u8>> = vec![
        b"".to_vec(),
        b"B".to_vec(),
        b"a".to_vec(),
        b"ab".to_vec(),
        b"b".to_vec(),
        vec![0xff],
    ];
    assert_eq!(keys_of(&table), expected);
    assert_eq!(table.len(), 6);
}

#[test]
fn empty_key_and_value_cost_only_the_overhead() {
    let mut table = MemTable::new();
    table.set(b"", b"", 7);
    assert_eq!(table.size(), 17);
    let entry = table.get(b"").unwrap();
    assert_eq!(entry.value.as_ref().unwrap().len(), 0);
}

#[test]
fn compare_keys_orders_bytewise() {
    assert_eq!(compare_keys(b"abc", b"abd"), Ordering::Less);
    assert_eq!(compare_keys(b"abd", b"abc"), Ordering::Greater);
    assert_eq!(compare_keys(b"ab", b"abc"), Ordering::Less);
    assert_eq!(compare_keys(b"abc", b"ab"), Ordering::Greater);
    assert_eq!(compare_keys(b"abc", b"abc"), Ordering::Equal);
    assert_eq!(compare_keys(b"", b""), Ordering::Equal);
    assert_eq!(compare_keys(b"", b"a"), Ordering::Less);
    assert_eq!(compare_keys(&[0x80], b"a"), Ordering::Greater);
}
