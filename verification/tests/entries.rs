use graph_store::entries::{find, locate, put, take};
use graph_store::sort::sort;

fn list(keys: &[&str]) -> Vec<(String, u8)> {
    let mut entries = Vec::new();
    for (i, key) in keys.iter().enumerate() {
        put(&mut entries, key.to_string(), i as u8);
    }
    entries
}

fn keys(entries: &Vec<(String, u8)>) -> Vec<&str> {
    entries.iter().map(|e| e.0.as_str()).collect()
}

#[test]
fn put_keeps_rising_order() {
    let entries = list(&["m", "a", "z", "b", "10", "2", ""]);
    assert_eq!(keys(&entries), vec!["", "10", "2", "a", "b", "m", "z"]);
    assert_eq!(entries[3], ("a".to_string(), 1));
}

#[test]
fn put_replaces_under_the_same_key() {
    let mut entries = list(&["a", "b", "c"]);
    assert_eq!(put(&mut entries, "b".to_string(), 9), Some(1));
    assert_eq!(put(&mut entries, "d".to_string(), 7), None);
    assert_eq!(
        entries,
        vec![("a".to_string(), 0), ("b".to_string(), 9), ("c".to_string(), 2), ("d".to_string(), 7)]
    );
}

#[test]
fn locate_finds_the_index_or_the_gap() {
    let entries = list(&["b", "d", "f"]);
    assert_eq!(locate(&entries, "b"), Ok(0));
    assert_eq!(locate(&entries, "d"), Ok(1));
    assert_eq!(locate(&entries, "f"), Ok(2));
    assert_eq!(locate(&entries, "a"), Err(0));
    assert_eq!(locate(&entries, "c"), Err(1));
    assert_eq!(locate(&entries, "e"), Err(2));
    assert_eq!(locate(&entries, "g"), Err(3));
    let none: Vec<(String, u8)> = Vec::new();
    assert_eq!(locate(&none, "a"), Err(0));
}

#[test]
fn find_and_take() {
    let mut entries = list(&["b", "d", "f"]);
    assert_eq!(find(&entries, "d"), Some(&1));
    assert_eq!(find(&entries, "e"), None);
    assert_eq!(take(&mut entries, "e"), None);
    assert_eq!(take(&mut entries, "d"), Some(1));
    assert_eq!(take(&mut entries, "d"), None);
    assert_eq!(keys(&entries), vec!["b", "f"]);
    assert_eq!(take(&mut entries, "b"), Some(0));
    assert_eq!(take(&mut entries, "f"), Some(2));
    assert!(entries.is_empty());
}

#[test]
fn sort_puts_keys_in_byte_order() {
    let entries: Vec<(String, u8)> = ["m", "a", "z", "10", "2", "", "é", "ab", "B", "-1", "1"]
        .iter()
        .enumerate()
        .map(|(i, k)| (k.to_string(), i as u8))
        .collect();
    let mut want = entries.clone();
    want.sort();
    let sorted = sort(entries);
    assert_eq!(sorted, want);
    assert_eq!(keys(&sorted), vec!["", "-1", "1", "10", "2", "B", "a", "ab", "m", "z", "é"]);
    assert_eq!(sort(Vec::<(String, u8)>::new()), vec![]);
    assert_eq!(sort(vec![("k".to_string(), 1u8)]), vec![("k".to_string(), 1u8)]);
}

#[test]
fn sort_agrees_with_std_on_many_keys() {
    let mut seed: u64 = 3;
    let mut entries: Vec<(String, u32)> = Vec::new();
    for i in 0..5000u32 {
        seed = seed.wrapping_mul(6364136223846793005).wrapping_add(1442695040888963407);
        entries.push((format!("{}-{}", seed >> 40, i), i));
    }
    let mut want = entries.clone();
    want.sort();
    assert_eq!(sort(entries), want);
}
