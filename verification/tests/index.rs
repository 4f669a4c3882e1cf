use message_localizer::entry::Entry;
use message_localizer::index::EntryIndex;

fn entry(key: u32, text2: &str, text3: &str, payload: &[u8]) -> Entry {
    Entry { key, text2: text2.to_string(), text3: text3.to_string(), payload: payload.to_vec() }
}

#[test]
fn empty_index_holds_nothing() {
    let index = EntryIndex::new();
    assert_eq!(index.len(), 0);
    assert!(index.values().is_empty());
    assert!(!index.contains_key(0));
    assert_eq!(index.get(7), None);
}

#[test]
fn index_finds_each_entry_by_its_key() {
    let index = EntryIndex::build(vec![
        entry(10, "a", "", &[1]),
        entry(20, "b", "bb", &[2, 2]),
        entry(30, "", "c", &[]),
    ]);
    assert_eq!(index.len(), 3);
    assert_eq!(index.get(20), Some(&entry(20, "b", "bb", &[2, 2])));
    assert_eq!(index.get(30), Some(&entry(30, "", "c", &[])));
    assert_eq!(index.get(40), None);
    assert!(index.contains_key(10));
    assert!(!index.contains_key(11));
}

#[test]
fn values_come_in_the_order_of_first_keys() {
    let index = EntryIndex::build(vec![
        entry(3, "three", "", &[]),
        entry(1, "one", "", &[]),
        entry(2, "two", "", &[]),
    ]);
    let keys: Vec<u32> = index.values().iter().map(|e| e.key).collect();
    assert_eq!(keys, vec![3, 1, 2]);
}

#[test]
fn last_write_wins_and_keeps_the_place() {
    let index = EntryIndex::build(vec![
        entry(1, "old", "x", &[9]),
        entry(2, "two", "", &[]),
        entry(1, "new", "y", &[8]),
    ]);
    assert_eq!(index.len(), 2);
    assert_eq!(index.get(1), Some(&entry(1, "new", "y", &[8])));
    assert_eq!(
        index.values(),
        &vec![entry(1, "new", "y", &[8]), entry(2, "two", "", &[])]
    );
}

#[test]
fn later_files_overwrite_earlier_ones() {
    let mut index = EntryIndex::new();
    index.extend(vec![entry(1, "first file", "", &[]), entry(2, "b", "", &[])]);
    index.extend(vec![entry(3, "c", "", &[]), entry(1, "second file", "", &[])]);
    assert_eq!(index.len(), 3);
    assert_eq!(index.get(1), Some(&entry(1, "second file", "", &[])));
    let keys: Vec<u32> = index.values().iter().map(|e| e.key).collect();
    assert_eq!(keys, vec![1, 2, 3]);
}

#[test]
fn insert_adds_or_replaces() {
    let mut index = EntryIndex::new();
    index.insert(entry(5, "five", "", &[]));
    index.insert(entry(6, "six", "", &[]));
    assert_eq!(index.len(), 2);
    index.insert(entry(5, "cinq", "", &[1]));
    assert_eq!(index.len(), 2);
    assert_eq!(index.get(5), Some(&entry(5, "cinq", "", &[1])));
    assert_eq!(index.get(6), Some(&entry(6, "six", "", &[])));
}

#[test]
fn missing_entries_are_those_without_their_key_in_the_other() {
    let base = EntryIndex::build(vec![
        entry(1, "one", "", &[1]),
        entry(2, "two", "", &[2]),
        entry(3, "three", "", &[3]),
        entry(4, "four", "", &[4]),
    ]);
    let target = EntryIndex::build(vec![entry(2, "deux", "", &[]), entry(4, "quatre", "", &[])]);
    assert_eq!(
        base.missing_from(&target),
        vec![entry(1, "one", "", &[1]), entry(3, "three", "", &[3])]
    );
    assert_eq!(target.missing_from(&base), Vec::<Entry>::new());
}

#[test]
fn same_keys_leave_nothing_missing() {
    let base = EntryIndex::build(vec![entry(1, "Hello", "", &[]), entry(2, "Bye", "", &[])]);
    let target = EntryIndex::build(vec![entry(2, "Salut", "", &[]), entry(1, "Bonjour", "", &[])]);
    assert!(base.missing_from(&target).is_empty());
    assert!(target.missing_from(&base).is_empty());
}

#[test]
fn present_key_with_other_content_is_not_missing() {
    let base = EntryIndex::build(vec![entry(0xC0FFEE, "X", "", &[1, 2, 3])]);
    let target = EntryIndex::build(vec![entry(0xC0FFEE, "anything", "else", &[])]);
    assert!(base.missing_from(&target).is_empty());
}

#[test]
fn everything_is_missing_from_an_empty_index() {
    let base = EntryIndex::build(vec![entry(9, "nine", "", &[]), entry(8, "eight", "", &[])]);
    let empty = EntryIndex::new();
    assert_eq!(
        base.missing_from(&empty),
        vec![entry(9, "nine", "", &[]), entry(8, "eight", "", &[])]
    );
}

#[test]
fn clone_copies_every_field() {
    let original = entry(77, "text two", "text three", &[0, 255, 7]);
    let copy = original.clone();
    assert_eq!(copy, original);
    assert_eq!(copy.key, 77);
    assert_eq!(copy.text2, "text two");
    assert_eq!(copy.text3, "text three");
    assert_eq!(copy.payload, vec![0, 255, 7]);
}
