use sqlite_hash::hash;
use sqlite_hash::hash::HashError;
use sqlite_hash::policy::CapacityOverflowError;
use sqlite_hash::string_type_proxy::{KeyDecodeError, StringType};

fn key(i: usize) -> String {
    format!("k{}", i)
}

#[test]
fn new_table_is_empty() {
    let table: hash::Hash<i32> = hash::Hash::new();
    assert_eq!(table.count(), 0);
    assert_eq!(table.bucket_count(), 0);
    assert_eq!(table.get("anything"), None);
    assert_eq!(table.get(""), None);
}

#[test]
fn insert_then_get() {
    let mut table: hash::Hash<i32> = hash::Hash::new();
    assert_eq!(table.insert("alpha", 1), Ok(None));
    assert_eq!(table.get("alpha"), Some(&1));
    assert_eq!(table.get("beta"), None);
    assert_eq!(table.count(), 1);
}

#[test]
fn value_stays_until_overwritten_or_removed() {
    let mut table: hash::Hash<i32> = hash::Hash::new();
    assert_eq!(table.insert("alpha", 1), Ok(None));
    assert_eq!(table.insert("beta", 2), Ok(None));
    assert_eq!(table.insert("gamma", 3), Ok(None));
    assert_eq!(table.remove("beta"), Some(2));
    assert_eq!(table.insert("beta", 20), Ok(None));
    assert_eq!(table.remove("gamma"), Some(3));
    assert_eq!(table.get("alpha"), Some(&1));
    assert_eq!(table.insert("alpha", 10), Ok(Some(1)));
    assert_eq!(table.get("alpha"), Some(&10));
    assert_eq!(table.remove("alpha"), Some(10));
    assert_eq!(table.get("alpha"), None);
    assert_eq!(table.get("beta"), Some(&20));
}

#[test]
fn second_insert_returns_first_value() {
    let mut table: hash::Hash<&str> = hash::Hash::new();
    assert_eq!(table.insert("name", "v1"), Ok(None));
    assert_eq!(table.insert("name", "v2"), Ok(Some("v1")));
    assert_eq!(table.get("name"), Some(&"v2"));
    assert_eq!(table.count(), 1);
}

#[test]
fn remove_absent_and_present() {
    let mut table: hash::Hash<i32> = hash::Hash::new();
    assert_eq!(table.remove("ghost"), None);
    assert_eq!(table.insert("ghost", 7), Ok(None));
    assert_eq!(table.insert("other", 8), Ok(None));
    assert_eq!(table.remove("ghost"), Some(7));
    assert_eq!(table.get("ghost"), None);
    assert_eq!(table.remove("ghost"), None);
    assert_eq!(table.count(), 1);
    assert_eq!(table.get("other"), Some(&8));
}

#[test]
fn keys_ignore_letter_case() {
    let mut table: hash::Hash<i32> = hash::Hash::new();
    assert_eq!(table.insert("Foo", 5), Ok(None));
    assert_eq!(table.get("foo"), Some(&5));
    assert_eq!(table.get("FOO"), Some(&5));
    assert_eq!(table.get("fOo"), Some(&5));
    assert_eq!(table.get("fo"), None);
    assert_eq!(table.get("fooo"), None);
    assert_eq!(table.insert("FOO", 6), Ok(Some(5)));
    assert_eq!(table.count(), 1);
    assert_eq!(table.remove("foO"), Some(6));
    assert_eq!(table.count(), 0);
}

#[test]
fn folding_is_ascii_only() {
    let mut table: hash::Hash<i32> = hash::Hash::new();
    assert_eq!(table.insert("\u{c9}t\u{e9}", 1), Ok(None));
    assert_eq!(table.get("\u{c9}T\u{e9}"), Some(&1));
    assert_eq!(table.get("\u{e9}t\u{e9}"), None);
    assert_eq!(table.insert("\u{e9}t\u{e9}", 2), Ok(None));
    assert_eq!(table.count(), 2);
}

#[test]
fn first_spelling_is_kept() {
    let mut table: hash::Hash<i32> = hash::Hash::new();
    assert_eq!(table.stored_key("Foo"), None);
    assert_eq!(table.insert("Foo", 1), Ok(None));
    assert_eq!(table.insert("FOO", 2), Ok(Some(1)));
    assert_eq!(table.stored_key("foo"), Some("Foo"));
    assert_eq!(table.get("foo"), Some(&2));
    assert_eq!(table.remove("foo"), Some(2));
    assert_eq!(table.insert("FOO", 3), Ok(None));
    assert_eq!(table.stored_key("foo"), Some("FOO"));
}

#[test]
fn eleven_keys_leave_linear_scan() {
    let mut table: hash::Hash<usize> = hash::Hash::new();
    for i in 1..=9 {
        assert_eq!(table.insert(&key(i), i), Ok(None));
        assert_eq!(table.bucket_count(), 0);
    }
    assert_eq!(table.insert(&key(10), 10), Ok(None));
    assert_eq!(table.bucket_count(), 20);
    assert_eq!(table.insert(&key(11), 11), Ok(None));
    assert_eq!(table.bucket_count(), 20);
    assert_eq!(table.count(), 11);
    for i in 1..=11 {
        assert_eq!(table.get(&key(i)), Some(&i));
    }
}

#[test]
fn replacing_a_value_does_not_grow() {
    let mut table: hash::Hash<usize> = hash::Hash::new();
    for i in 1..=9 {
        assert_eq!(table.insert(&key(i), i), Ok(None));
    }
    for i in 1..=9 {
        assert_eq!(table.insert(&key(i), i + 100), Ok(Some(i)));
    }
    assert_eq!(table.count(), 9);
    assert_eq!(table.bucket_count(), 0);
}

#[test]
fn growth_doubles_up_to_the_limit() {
    let mut table: hash::Hash<usize> = hash::Hash::new();
    for i in 1..=40 {
        assert_eq!(table.insert(&key(i), i), Ok(None));
    }
    assert_eq!(table.bucket_count(), 20);
    assert_eq!(table.insert(&key(41), 41), Ok(None));
    assert_eq!(table.bucket_count(), 64);
    for i in 42..=300 {
        assert_eq!(table.insert(&key(i), i), Ok(None));
        assert_eq!(table.bucket_count(), 64);
    }
    assert_eq!(table.count(), 300);
    for i in 1..=300 {
        assert_eq!(table.get(&key(i)), Some(&i));
    }
    assert_eq!(table.get(&key(301)), None);
}

#[test]
fn clear_forgets_every_key() {
    let mut table: hash::Hash<usize> = hash::Hash::new();
    for i in 1..=25 {
        assert_eq!(table.insert(&key(i), i), Ok(None));
    }
    assert!(table.bucket_count() > 0);
    table.clear();
    assert_eq!(table.count(), 0);
    assert_eq!(table.bucket_count(), 0);
    for i in 1..=25 {
        assert_eq!(table.get(&key(i)), None);
    }
    assert_eq!(table.insert(&key(3), 33), Ok(None));
    assert_eq!(table.get(&key(3)), Some(&33));
    assert_eq!(table.count(), 1);
}

#[test]
fn clear_of_an_empty_table() {
    let mut table: hash::Hash<usize> = hash::Hash::new();
    table.clear();
    assert_eq!(table.count(), 0);
    assert_eq!(table.bucket_count(), 0);
}

#[test]
fn init_and_clear_reset_the_table() {
    let mut table: hash::Hash<usize> = hash::Hash::with_policy(2, 32);
    for i in 1..=5 {
        assert_eq!(table.insert(&key(i), i), Ok(None));
    }
    assert_eq!(table.bucket_count(), 2);
    table.sqlite3HashClear();
    assert_eq!(table.count(), 0);
    assert_eq!(table.bucket_count(), 0);
    assert_eq!(table.get(&key(1)), None);
    for i in 1..=5 {
        assert_eq!(table.insert(&key(i), i), Ok(None));
    }
    assert_eq!(table.bucket_count(), 2);
    table.sqlite3HashInit();
    assert_eq!(table.count(), 0);
    assert_eq!(table.bucket_count(), 0);
    for i in 1..=10 {
        assert_eq!(table.insert(&key(i), i), Ok(None));
    }
    assert_eq!(table.bucket_count(), 20);
}

#[test]
fn rehash_keeps_keys_and_values() {
    let mut table: hash::Hash<usize> = hash::Hash::new();
    for i in 1..=8 {
        assert_eq!(table.insert(&format!("Key{}", i), i), Ok(None));
    }
    assert_eq!(table.bucket_count(), 0);
    assert!(table.rehash(7));
    assert_eq!(table.bucket_count(), 7);
    assert_eq!(table.count(), 8);
    for i in 1..=8 {
        assert_eq!(table.get(&format!("key{}", i)), Some(&i));
        assert_eq!(table.stored_key(&format!("KEY{}", i)), Some(format!("Key{}", i).as_str()));
    }
    assert!(table.rehash(3));
    assert_eq!(table.bucket_count(), 3);
    for i in 1..=8 {
        assert_eq!(table.get(&format!("key{}", i)), Some(&i));
    }
    assert!(table.rehash(1));
    assert_eq!(table.bucket_count(), 1);
    for i in 1..=8 {
        assert_eq!(table.get(&format!("key{}", i)), Some(&i));
    }
    assert_eq!(table.get("key9"), None);
}

#[test]
fn rehash_to_the_same_size_does_nothing() {
    let mut table: hash::Hash<usize> = hash::Hash::new();
    assert_eq!(table.insert("a", 1), Ok(None));
    assert!(!table.rehash(0));
    assert_eq!(table.bucket_count(), 0);
    assert!(table.rehash(4));
    assert!(!table.rehash(4));
    assert!(!table.rehash(0));
    assert_eq!(table.bucket_count(), 4);
    assert_eq!(table.get("a"), Some(&1));
}

#[test]
fn rehash_is_cut_down_to_the_limit() {
    let mut table: hash::Hash<usize> = hash::Hash::new();
    assert_eq!(table.insert("a", 1), Ok(None));
    assert!(table.rehash(1000));
    assert_eq!(table.bucket_count(), 64);
    assert!(!table.rehash(1000));
    assert!(!table.rehash(64));
    assert!(!table.rehash(usize::MAX));
    assert_eq!(table.bucket_count(), 64);
    assert!(table.rehash(63));
    assert_eq!(table.bucket_count(), 63);
    assert_eq!(table.get("A"), Some(&1));
}

#[test]
fn rehash_of_an_empty_table() {
    let mut table: hash::Hash<usize> = hash::Hash::new();
    assert!(table.rehash(5));
    assert_eq!(table.bucket_count(), 5);
    assert_eq!(table.count(), 0);
    assert_eq!(table.get("a"), None);
    assert_eq!(table.remove("a"), None);
    assert_eq!(table.bucket_count(), 5);
    assert_eq!(table.insert("a", 1), Ok(None));
    assert_eq!(table.remove("a"), Some(1));
    assert_eq!(table.bucket_count(), 0);
}

#[test]
fn rehash_without_room_changes_nothing() {
    let mut table: hash::Hash<usize> = hash::Hash::new();
    for i in 1..=6 {
        assert_eq!(table.insert(&key(i), i), Ok(None));
    }
    assert!(!table.rehash_with(8, None));
    assert_eq!(table.bucket_count(), 0);
    assert_eq!(table.count(), 6);
    for i in 1..=6 {
        assert_eq!(table.get(&key(i)), Some(&i));
    }
    assert!(table.rehash_with(8, Some(Vec::new())));
    assert_eq!(table.bucket_count(), 8);
    assert!(!table.rehash_with(4, None));
    assert_eq!(table.bucket_count(), 8);
    assert!(!table.rehash_with(8, Some(Vec::new())));
    assert!(!table.rehash_with(0, Some(Vec::new())));
    for i in 1..=6 {
        assert_eq!(table.get(&key(i)), Some(&i));
    }
}

#[test]
fn table_without_room_keeps_working() {
    let mut table: hash::Hash<usize> = hash::Hash::new();
    for i in 1..=50 {
        assert_eq!(table.insert_with(&key(i), i, None), Ok(None));
        assert_eq!(table.bucket_count(), 0);
    }
    assert_eq!(table.count(), 50);
    for i in 1..=50 {
        assert_eq!(table.get(&key(i)), Some(&i));
    }
    assert_eq!(table.insert_with(&key(7), 70, None), Ok(Some(7)));
    assert_eq!(table.remove(&key(8)), Some(8));
    assert_eq!(table.insert_with(&key(51), 51, Some(Vec::new())), Ok(None));
    assert_eq!(table.bucket_count(), 64);
    assert_eq!(table.count(), 50);
    for i in 9..=51 {
        assert_eq!(table.get(&key(i)), Some(&i));
    }
    assert_eq!(table.get(&key(7)), Some(&70));
    assert_eq!(table.get(&key(8)), None);
}

#[test]
fn room_is_used_only_when_growth_is_due() {
    let mut table: hash::Hash<usize> = hash::Hash::new();
    for i in 1..=9 {
        assert_eq!(table.insert_with(&key(i), i, Some(Vec::new())), Ok(None));
        assert_eq!(table.bucket_count(), 0);
    }
    assert_eq!(table.insert_with(&key(1), 100, Some(Vec::new())), Ok(Some(1)));
    assert_eq!(table.bucket_count(), 0);
    assert_eq!(table.insert_with(&key(10), 10, None), Ok(None));
    assert_eq!(table.bucket_count(), 0);
    assert_eq!(table.insert_with(&key(11), 11, Some(Vec::new())), Ok(None));
    assert_eq!(table.bucket_count(), 22);
}

#[test]
fn twelve_keys() {
    let mut table: hash::Hash<usize> = hash::Hash::new();
    for i in 1..=12 {
        assert_eq!(table.insert(&key(i), i), Ok(None));
    }
    for i in 1..=12 {
        assert_eq!(table.get(&key(i)), Some(&i));
    }
    assert_eq!(table.count(), 12);
}

#[test]
fn last_removal_drops_the_buckets() {
    let mut table: hash::Hash<usize> = hash::Hash::new();
    for i in 1..=12 {
        assert_eq!(table.insert(&key(i), i), Ok(None));
    }
    assert_eq!(table.bucket_count(), 20);
    for i in 1..=11 {
        assert_eq!(table.remove(&key(i).to_uppercase()), Some(i));
        assert_eq!(table.get(&key(i)), None);
        assert_eq!(table.count(), 12 - i);
        assert_eq!(table.bucket_count(), 20);
    }
    assert_eq!(table.remove(&key(12)), Some(12));
    assert_eq!(table.count(), 0);
    assert_eq!(table.bucket_count(), 0);
    assert_eq!(table.insert(&key(1), 1), Ok(None));
    assert_eq!(table.bucket_count(), 0);
}

#[test]
fn policy_of_its_own() {
    let mut table: hash::Hash<usize> = hash::Hash::with_policy(3, 80);
    assert_eq!(table.insert("a", 1), Ok(None));
    assert_eq!(table.insert("b", 2), Ok(None));
    assert_eq!(table.bucket_count(), 0);
    assert_eq!(table.insert("c", 3), Ok(None));
    assert_eq!(table.bucket_count(), 5);
    for i in 1..=20 {
        assert_eq!(table.insert(&key(i), i), Ok(None));
        assert_eq!(table.bucket_count(), 5);
    }
    assert!(!table.rehash(9));
    assert!(table.rehash(4));
    assert_eq!(table.get("B"), Some(&2));
}

#[test]
fn budget_too_small_for_one_bucket() {
    let mut table: hash::Hash<usize> = hash::Hash::with_policy(1, 15);
    for i in 1..=30 {
        assert_eq!(table.insert(&key(i), i), Ok(None));
        assert_eq!(table.bucket_count(), 0);
    }
    assert!(!table.rehash(8));
    for i in 1..=30 {
        assert_eq!(table.get(&key(i)), Some(&i));
    }
}

#[test]
fn empty_key_is_a_key() {
    let mut table: hash::Hash<usize> = hash::Hash::new();
    assert_eq!(table.insert("", 1), Ok(None));
    assert_eq!(table.get(""), Some(&1));
    assert_eq!(table.get(" "), None);
    assert!(table.rehash(3));
    assert_eq!(table.get(""), Some(&1));
    assert_eq!(table.remove(""), Some(1));
}

#[test]
fn values_are_owned_and_handed_back() {
    let mut table: hash::Hash<String> = hash::Hash::new();
    assert_eq!(table.insert("one", String::from("eins")), Ok(None));
    assert_eq!(table.insert("ONE", String::from("un")), Ok(Some(String::from("eins"))));
    assert_eq!(table.get("one").map(|s| s.as_str()), Some("un"));
    assert_eq!(table.remove("One"), Some(String::from("un")));
}

#[test]
fn insert_item_inserts_and_removes() {
    let mut table: hash::Hash<i32> = hash::Hash::new();
    assert_eq!(table.insert_item(StringType::from("Tab"), Some(1)), Ok(None));
    assert_eq!(table.insert_item(StringType::from("TAB"), Some(2)), Ok(Some(1)));
    assert_eq!(table.get_item(StringType::from("tab")), Ok(Some(&2)));
    assert_eq!(table.insert_item(StringType::from("nothing"), None), Ok(None));
    assert_eq!(table.count(), 1);
    assert_eq!(table.insert_item(StringType::from("tAB"), None), Ok(Some(2)));
    assert_eq!(table.count(), 0);
    assert_eq!(table.get_item(StringType::from("tab")), Ok(None));
}

#[test]
fn insert_item_takes_bytes() {
    let mut table: hash::Hash<i32> = hash::Hash::new();
    let bytes: &[u8] = b"Index";
    assert_eq!(table.insert_item(StringType::from(bytes), Some(4)), Ok(None));
    assert_eq!(table.get("index"), Some(&4));
    assert_eq!(table.stored_key("INDEX"), Some("Index"));
    let mut buffer = vec![b'i', b'N', b'd', b'E', b'x'];
    assert_eq!(table.get_item(StringType::from(buffer.as_mut_slice())), Ok(Some(&4)));
    assert_eq!(table.insert_item(StringType::from(buffer.as_mut_slice()), None), Ok(Some(4)));
    assert_eq!(table.count(), 0);
}

#[test]
fn bytes_that_are_not_text_are_refused() {
    let mut table: hash::Hash<i32> = hash::Hash::new();
    assert_eq!(table.insert("ok", 1), Ok(None));
    let bad: &[u8] = &[0x6f, 0x6b, 0xff];
    assert_eq!(
        table.insert_item(StringType::from(bad), Some(2)),
        Err(HashError::KeyDecode(KeyDecodeError {}))
    );
    assert_eq!(
        table.insert_item(StringType::from(bad), None),
        Err(HashError::KeyDecode(KeyDecodeError {}))
    );
    assert_eq!(table.get_item(StringType::from(bad)), Err(KeyDecodeError {}));
    let cut: &[u8] = &[0xc3];
    assert_eq!(table.get_item(StringType::from(cut)), Err(KeyDecodeError {}));
    assert_eq!(table.count(), 1);
    assert_eq!(table.get("ok"), Some(&1));
}

#[test]
fn decoding_keeps_every_byte() {
    let bytes: &[u8] = &[0x61, 0x00, 0x62, 0xc3, 0xa9];
    assert_eq!(StringType::from(bytes).as_str_ref(), Ok("a\u{0}b\u{e9}"));
    assert_eq!(StringType::from("text").as_str_ref(), Ok("text"));
    let empty: &[u8] = &[];
    assert_eq!(StringType::from(empty).as_str_ref(), Ok(""));
    let bad: &[u8] = &[0x80];
    assert_eq!(StringType::from(bad).as_str_ref(), Err(KeyDecodeError {}));
    let surrogate: &[u8] = &[0xed, 0xa0, 0x80];
    assert_eq!(StringType::from(surrogate).as_str_ref(), Err(KeyDecodeError {}));
}

#[test]
fn overflow_error_compares() {
    let e = CapacityOverflowError {};
    assert_eq!(HashError::CapacityOverflow(e), HashError::CapacityOverflow(CapacityOverflowError {}));
    assert_ne!(HashError::CapacityOverflow(e), HashError::KeyDecode(KeyDecodeError {}));
}

fn next(seed: &mut u64) -> u64 {
    *seed = seed.wrapping_mul(6364136223846793005).wrapping_add(1442695040888963407);
    *seed >> 33
}

fn spelling(n: u64, upper: bool) -> String {
    let text = format!("name_{}", n);
    if upper {
        text.to_uppercase()
    } else {
        text
    }
}

fn churn(mut table: hash::Hash<u64>, keys: u64, steps: usize, mut seed: u64) {
    let mut model: std::collections::HashMap<String, u64> = std::collections::HashMap::new();
    for step in 0..steps {
        let n = next(&mut seed) % keys;
        let upper = next(&mut seed) % 2 == 0;
        let name = spelling(n, upper);
        let folded = spelling(n, false);
        match next(&mut seed) % 4 {
            0 | 1 => {
                let value = next(&mut seed);
                assert_eq!(table.insert(&name, value), Ok(model.insert(folded, value)));
            }
            2 => {
                let removed = model.remove(&folded);
                let emptied = removed.is_some() && model.is_empty();
                assert_eq!(table.remove(&name), removed);
                if emptied {
                    assert_eq!(table.bucket_count(), 0);
                }
            }
            _ => {
                assert_eq!(table.get(&name), model.get(&folded));
            }
        }
        assert_eq!(table.count(), model.len());
        if step % 97 == 0 {
            let size = (next(&mut seed) % 80) as usize;
            table.rehash(size);
            for (k, v) in model.iter() {
                assert_eq!(table.get(k), Some(v));
            }
        }
    }
    for (k, v) in model.iter() {
        assert_eq!(table.get(&k.to_uppercase()), Some(v));
    }
    let mut removed_any = false;
    for n in 0..keys {
        let folded = spelling(n, false);
        let removed = model.remove(&folded);
        removed_any = removed_any || removed.is_some();
        assert_eq!(table.remove(&folded), removed);
    }
    assert_eq!(table.count(), 0);
    if removed_any {
        assert_eq!(table.bucket_count(), 0);
    }
}

#[test]
fn churn_in_a_small_table() {
    churn(hash::Hash::new(), 8, 4000, 1);
}

#[test]
fn churn_across_the_threshold() {
    churn(hash::Hash::new(), 24, 6000, 2);
}

#[test]
fn churn_in_a_large_table() {
    churn(hash::Hash::new(), 400, 20000, 3);
}

#[test]
fn churn_with_few_buckets() {
    churn(hash::Hash::with_policy(2, 48), 60, 8000, 4);
}

#[test]
fn churn_without_buckets() {
    churn(hash::Hash::with_policy(1, 0), 40, 5000, 5);
}
