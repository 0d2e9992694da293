use std::borrow::Cow;
use wordstat::uhash::ahash;
use wordstat::ustring::{UniqueString, UniqueStringBucket, UniqueStringStore};

#[test]
fn same_string_gets_the_same_handle() {
    let mut store = UniqueStringStore::new();
    let first = UniqueString::new(&mut store, "word");
    let other = UniqueString::new(&mut store, "other");
    let second = UniqueString::new(&mut store, &String::from("word"));
    assert_eq!(first, second);
    assert_ne!(first, other);
    assert_eq!(first.entry(), second.entry());
}

#[test]
fn different_strings_get_different_handles() {
    let mut store = UniqueStringStore::new();
    let words = ["the", "cat", "sat", "on", "mat", "a", "b", "c"];
    let handles: Vec<UniqueString> =
        words.iter().map(|word| UniqueString::new(&mut store, word)).collect();
    for i in 0..handles.len() {
        for j in 0..handles.len() {
            assert_eq!(handles[i] == handles[j], i == j);
        }
    }
}

#[test]
fn handle_gives_back_text_and_hash() {
    let mut store = UniqueStringStore::new();
    let handle = UniqueString::new(&mut store, "caf\u{e9}");
    assert_eq!(handle.as_str(&store), "caf\u{e9}");
    assert_eq!(handle.hash(&store), ahash("caf\u{e9}".as_bytes()));
    assert_eq!(handle.hash(&store), 12037022004083449795);
    assert!(matches!(handle.as_cow(&store), Cow::Borrowed("caf\u{e9}")));
}

#[test]
fn shard_is_chosen_by_the_hash() {
    let mut store = UniqueStringStore::new();
    let the = UniqueString::new(&mut store, "the");
    let cat = UniqueString::new(&mut store, "cat");
    let mat = UniqueString::new(&mut store, "mat");
    assert_eq!(the.entry(), (42, 0));
    assert_eq!(cat.entry(), (52, 0));
    assert_eq!(mat.entry(), (42, 1));
}

#[test]
fn handles_stay_valid_while_the_store_grows() {
    let mut store = UniqueStringStore::new();
    let first = UniqueString::new(&mut store, "first");
    for i in 0..500 {
        UniqueString::new(&mut store, &format!("filler{}", i));
    }
    assert_eq!(first.as_str(&store), "first");
    assert_eq!(UniqueString::new(&mut store, "first"), first);
}

#[test]
fn equal_hashes_share_a_handle() {
    let mut store = UniqueStringStore::new();
    let first = UniqueString::new_with_hash(&mut store, "one", 7);
    let second = UniqueString::new_with_hash(&mut store, "two", 7);
    let third = UniqueString::new_with_hash(&mut store, "two", 71);
    assert_eq!(first, second);
    assert_eq!(second.as_str(&store), "one");
    assert_ne!(first, third);
    assert_eq!(first.entry(), (7, 0));
    assert_eq!(third.entry(), (7, 1));
    assert_eq!(third.as_str(&store), "two");
    assert_eq!(third.hash(&store), 71);
}

#[test]
fn create_pairs_a_string_with_its_hash() {
    let mut store = UniqueStringStore::new();
    let direct = UniqueString::new(&mut store, "hello");
    let staged = UniqueString::create("hello").intern(&mut store);
    let given = UniqueString::create_with_hash("hello", 9466462725838492187).intern(&mut store);
    assert_eq!(direct, staged);
    assert_eq!(direct, given);
    assert_eq!(direct.entry(), (27, 0));
}

#[test]
fn from_entry_names_the_same_handle() {
    let mut store = UniqueStringStore::new();
    let handle = UniqueString::new(&mut store, "b");
    assert_eq!(UniqueString::from_entry(handle.entry()), handle);
    assert_eq!(UniqueString::from_entry((15, 0)).as_str(&store), "b");
}

#[test]
fn empty_string_can_be_interned() {
    let mut store = UniqueStringStore::new();
    let handle = UniqueString::new(&mut store, "");
    assert_eq!(handle.as_str(&store), "");
    assert_eq!(handle.entry(), (10, 0));
}

#[test]
fn bucket_stores_and_finds_by_hash() {
    let mut bucket = UniqueStringBucket::new();
    assert_eq!(bucket.get(5), None);
    assert_eq!(bucket.store("five", 5), 0);
    assert_eq!(bucket.store("six", 6), 1);
    assert_eq!(bucket.get(5), Some(0));
    assert_eq!(bucket.get(6), Some(1));
    assert_eq!(bucket.get(7), None);
    assert_eq!(bucket.text(1), "six");
    assert_eq!(bucket.hash_at(0), 5);
}

#[test]
fn store_hands_out_text_and_hash() {
    let mut store = UniqueStringStore::new();
    let handle = store.get_or_store("text", 130);
    assert_eq!(handle.entry(), (2, 0));
    assert_eq!(store.text(handle), "text");
    assert_eq!(store.hash_of(handle), 130);
    assert_eq!(store.get_or_store("again", 130), handle);
}

#[test]
fn as_cstr_ends_the_bytes_with_zero() {
    let mut store = UniqueStringStore::new();
    let handle = UniqueString::new(&mut store, "caf\u{e9}");
    assert_eq!(handle.as_cstr(&store), vec![b'c', b'a', b'f', 0xc3, 0xa9, 0]);
    let empty = UniqueString::new(&mut store, "");
    assert_eq!(empty.as_cstr(&store), vec![0]);
}

#[test]
fn pending_strings_compare_by_hash_and_text() {
    assert_eq!(UniqueString::create("same"), UniqueString::create("same"));
    assert_ne!(UniqueString::create("same"), UniqueString::create("other"));
    assert_ne!(UniqueString::create_with_hash("same", 1), UniqueString::create_with_hash("same", 2));
}

#[test]
fn store_knows_its_handles() {
    let mut store = UniqueStringStore::new();
    let handle = UniqueString::new(&mut store, "b");
    assert!(store.holds(handle));
    assert!(!store.holds(UniqueString::from_entry((15, 1))));
    assert!(!store.holds(UniqueString::from_entry((14, 0))));
    assert!(!store.holds(UniqueString::from_entry((64, 0))));
}

#[test]
fn bucket_counts_its_strings() {
    let mut bucket = UniqueStringBucket::new();
    assert_eq!(bucket.len(), 0);
    bucket.store("one", 1);
    bucket.store("two", 2);
    assert_eq!(bucket.len(), 2);
}
