use wsmq::clock::{day_of, day_start, today_ts};
use wsmq::codec::{i64to_vec, make_key, u64to_vec};
use wsmq::storage::{status_of, StatusCmd, StorageActor, StorageCmd, TrimCmd};

fn temp_db() -> sled::Db {
    sled::Config::new().temporary(true).open().unwrap()
}

fn cmd(topic: &str, uid: &str, nonce: u64, data: &str) -> StorageCmd {
    StorageCmd {
        st_key: format!("{}-{}", topic, uid),
        message_topic: topic.to_string(),
        nonce,
        data: data.to_string(),
    }
}

fn tree(db: &sled::Db, name: &str) -> sled::Tree {
    db.open_tree(name).unwrap()
}

fn value(t: &sled::Tree, key: &[u8]) -> Option<Vec<u8>> {
    t.get(key).unwrap().map(|v| v.to_vec())
}

const DAY: i64 = 86400;

#[test]
fn write_fills_the_five_trees() {
    let db = temp_db();
    let mut store = StorageActor::open(db.clone()).unwrap();
    store.write_on(3 * DAY, &cmd("t", "u1", 7, "hello")).unwrap();
    assert_eq!(value(&tree(&db, "day_idx"), &i64to_vec(3 * DAY)), Some(u64to_vec(7)));
    assert_eq!(value(&tree(&db, "range_idx"), &u64to_vec(7)), Some(b"t-u1".to_vec()));
    assert_eq!(value(&db, b"t-u1"), Some(b"hello".to_vec()));
    assert_eq!(value(&tree(&db, "nonce_idx"), b"t-u1"), Some(u64to_vec(7)));
    assert_eq!(value(&tree(&db, "main_idx"), &make_key("t", 7)), Some(b"t-u1".to_vec()));
}

#[test]
fn write_leaves_other_entries_alone() {
    let db = temp_db();
    let mut store = StorageActor::open(db.clone()).unwrap();
    store.write_on(DAY, &cmd("t", "u1", 1, "one")).unwrap();
    store.write_on(DAY, &cmd("s", "u2", 2, "two")).unwrap();
    assert_eq!(value(&db, b"t-u1"), Some(b"one".to_vec()));
    assert_eq!(value(&db, b"s-u2"), Some(b"two".to_vec()));
    assert_eq!(tree(&db, "range_idx").len(), 2);
    assert_eq!(tree(&db, "main_idx").len(), 2);
    assert_eq!(tree(&db, "nonce_idx").len(), 2);
    assert_eq!(tree(&db, "day_idx").len(), 1);
}

#[test]
fn day_index_keeps_the_last_write_of_the_day() {
    let db = temp_db();
    let mut store = StorageActor::open(db.clone()).unwrap();
    store.write_on(DAY, &cmd("t", "a", 1, "x")).unwrap();
    store.write_on(DAY, &cmd("t", "b", 2, "y")).unwrap();
    store.write_on(2 * DAY, &cmd("t", "c", 3, "z")).unwrap();
    assert_eq!(value(&tree(&db, "day_idx"), &i64to_vec(DAY)), Some(u64to_vec(2)));
    assert_eq!(value(&tree(&db, "day_idx"), &i64to_vec(2 * DAY)), Some(u64to_vec(3)));
}

#[test]
fn write_stamps_today() {
    let db = temp_db();
    let mut store = StorageActor::open(db.clone()).unwrap();
    let before = today_ts().unwrap();
    let day = store.write(&cmd("t", "u", 1, "x")).unwrap();
    let after = today_ts().unwrap();
    assert!(before <= day && day <= after);
    assert_eq!(day % DAY, 0);
    assert_eq!(value(&tree(&db, "day_idx"), &i64to_vec(day)), Some(u64to_vec(1)));
}

#[test]
fn day_start_cuts_to_the_day() {
    assert_eq!(day_start(0), 0);
    assert_eq!(day_start(1), 0);
    assert_eq!(day_start(86399), 0);
    assert_eq!(day_start(86400), 86400);
    assert_eq!(day_start(1_700_006_400 + 5), 1_700_006_400);
    assert_eq!(day_start(-1), -86400);
    assert_eq!(day_start(-86400), -86400);
    assert_eq!(day_start(-86401), -172800);
    assert_eq!(day_start(i64::MAX), 9223372036854720000);
    assert_eq!(day_start(i64::MIN), -9223372036854720000);
    assert_eq!(day_start(i64::MIN + 86400), -9223372036854720000);
}

#[test]
fn count_and_status_agree() {
    let db = temp_db();
    let mut store = StorageActor::open(db).unwrap();
    assert_eq!(store.count().unwrap(), 0);
    for i in 1..=4u64 {
        store.write_on(DAY, &cmd("t", &format!("u{}", i), i, "p")).unwrap();
    }
    assert_eq!(store.count().unwrap(), 4);
    assert_eq!(store.status().unwrap().retain_messages, 4);
    let none = status_of(3, None);
    assert_eq!((none.retain_messages, none.disk_size, none.last_nonce), (3, 0, 0));
    let some = status_of(7, Some(9));
    assert_eq!((some.retain_messages, some.disk_size, some.last_nonce), (7, 9, 0));
}

#[test]
fn day_of_no_second_is_no_day() {
    assert_eq!(day_of(None), None);
    assert_eq!(day_of(Some(86401)), Some(86400));
    assert_eq!(day_of(Some(-1)), Some(-86400));
}

#[test]
fn today_is_a_midnight() {
    let ts = today_ts().unwrap();
    assert_eq!(ts % DAY, 0);
    assert!(ts > 1_600_000_000);
}

#[test]
fn n_writes_give_n_records_and_consistent_indices() {
    let db = temp_db();
    let mut store = StorageActor::open(db.clone()).unwrap();
    let n = 50u64;
    for i in 1..=n {
        let topic = format!("topic{}", i % 3);
        store.write_on(DAY, &cmd(&topic, &format!("u{}", i), i, &format!("payload {}", i))).unwrap();
    }
    assert_eq!(store.status().unwrap().retain_messages, n as usize);
    let range = tree(&db, "range_idx");
    let main = tree(&db, "main_idx");
    let nonces = tree(&db, "nonce_idx");
    assert_eq!(range.len(), n as usize);
    let mut seen = 0;
    for item in db.iter() {
        let (data_key, _) = item.unwrap();
        let nonce_bytes = nonces.get(&data_key).unwrap().unwrap();
        assert_eq!(nonce_bytes.len(), 8);
        assert_eq!(range.get(&nonce_bytes).unwrap().unwrap(), data_key);
        let text = String::from_utf8(data_key.to_vec()).unwrap();
        let topic = text.split('-').next().unwrap().to_string();
        let mut main_key = topic.as_bytes().to_vec();
        main_key.extend_from_slice(&nonce_bytes);
        assert_eq!(main.get(&main_key).unwrap().unwrap(), data_key);
        assert!(text.starts_with(&format!("{}-", topic)));
        seen += 1;
    }
    assert_eq!(seen, n);
}

#[test]
fn scan_yields_the_records_of_a_topic_in_nonce_order() {
    let db = temp_db();
    let mut store = StorageActor::open(db).unwrap();
    store.write_on(DAY, &cmd("t", "c", 300, "third")).unwrap();
    store.write_on(DAY, &cmd("t", "a", 1, "first")).unwrap();
    store.write_on(DAY, &cmd("s", "x", 2, "other")).unwrap();
    store.write_on(DAY, &cmd("t", "b", 255, "second")).unwrap();
    let records = store.range_scan("t", 0).unwrap();
    assert_eq!(records.len(), 3);
    assert_eq!(records[0].nonce, 1);
    assert_eq!(records[0].payload, b"first".to_vec());
    assert_eq!(records[0].data_key, b"t-a".to_vec());
    assert_eq!(records[1].nonce, 255);
    assert_eq!(records[1].payload, b"second".to_vec());
    assert_eq!(records[2].nonce, 300);
    assert_eq!(records[2].payload, b"third".to_vec());
}

#[test]
fn scan_starts_at_the_offset() {
    let db = temp_db();
    let mut store = StorageActor::open(db).unwrap();
    for i in 1..=5u64 {
        store.write_on(DAY, &cmd("t", &format!("u{}", i), i, &format!("p{}", i))).unwrap();
    }
    let nonces = |from: u64| -> Vec<u64> {
        store.range_scan("t", from).unwrap().iter().map(|r| r.nonce).collect()
    };
    assert_eq!(nonces(0), vec![1, 2, 3, 4, 5]);
    assert_eq!(nonces(1), vec![1, 2, 3, 4, 5]);
    assert_eq!(nonces(3), vec![3, 4, 5]);
    assert_eq!(nonces(5), vec![5]);
    assert_eq!(nonces(6), Vec::<u64>::new());
    assert_eq!(nonces(u64::MAX), Vec::<u64>::new());
}

#[test]
fn scan_reaches_the_greatest_nonce() {
    let db = temp_db();
    let mut store = StorageActor::open(db).unwrap();
    store.write_on(DAY, &cmd("t", "last", u64::MAX, "end")).unwrap();
    store.write_on(DAY, &cmd("t", "first", 1, "begin")).unwrap();
    let records = store.range_scan("t", 2).unwrap();
    assert_eq!(records.len(), 1);
    assert_eq!(records[0].nonce, u64::MAX);
    let all = store.range_scan("t", u64::MAX).unwrap();
    assert_eq!(all.len(), 1);
    assert_eq!(all[0].payload, b"end".to_vec());
}

#[test]
fn scan_from_a_higher_offset_is_what_a_lower_scan_ends_in() {
    let db = temp_db();
    let mut store = StorageActor::open(db).unwrap();
    for i in 1..=20u64 {
        let topic = if i % 2 == 0 { "even" } else { "odd" };
        store.write_on(DAY, &cmd(topic, &format!("u{}", i), i, &format!("p{}", i))).unwrap();
    }
    for low in [0u64, 1, 4, 9, 20, 21] {
        for high in [0u64, 2, 9, 10, 20, 25] {
            if low <= high {
                let a: Vec<(u64, Vec<u8>)> = store
                    .range_scan("even", low)
                    .unwrap()
                    .into_iter()
                    .map(|r| (r.nonce, r.payload))
                    .collect();
                let b: Vec<(u64, Vec<u8>)> = store
                    .range_scan("even", high)
                    .unwrap()
                    .into_iter()
                    .map(|r| (r.nonce, r.payload))
                    .collect();
                assert!(b.len() <= a.len());
                assert_eq!(&a[a.len() - b.len()..], &b[..]);
                for (nonce, _) in &a[..a.len() - b.len()] {
                    assert!(*nonce < high);
                }
            }
        }
    }
}

#[test]
fn scan_passes_over_an_entry_without_payload() {
    let db = temp_db();
    let mut store = StorageActor::open(db.clone()).unwrap();
    store.write_on(DAY, &cmd("t", "a", 1, "one")).unwrap();
    store.write_on(DAY, &cmd("t", "b", 2, "two")).unwrap();
    store.write_on(DAY, &cmd("t", "c", 3, "three")).unwrap();
    db.remove(b"t-b").unwrap();
    let records = store.range_scan("t", 0).unwrap();
    assert_eq!(records.iter().map(|r| r.nonce).collect::<Vec<u64>>(), vec![1, 3]);
}

#[test]
fn scan_of_an_empty_store_is_empty() {
    let store = StorageActor::open(temp_db()).unwrap();
    assert!(store.range_scan("t", 0).unwrap().is_empty());
    assert!(store.range_scan("", 0).unwrap().is_empty());
}

#[test]
fn scan_of_a_topic_passes_over_longer_topics_that_start_with_it() {
    let db = temp_db();
    let mut store = StorageActor::open(db).unwrap();
    store.write_on(DAY, &cmd("a", "u", 1, "short")).unwrap();
    store.write_on(DAY, &cmd("ab", "u", 2, "long")).unwrap();
    store.write_on(DAY, &cmd("a", "v", 3, "short again")).unwrap();
    store.write_on(DAY, &cmd("a\u{0}", "w", 4, "longer by a zero")).unwrap();
    let records = store.range_scan("a", 0).unwrap();
    let payloads: Vec<Vec<u8>> = records.iter().map(|r| r.payload.clone()).collect();
    assert_eq!(payloads, vec![b"short".to_vec(), b"short again".to_vec()]);
    assert_eq!(records.iter().map(|r| r.nonce).collect::<Vec<u64>>(), vec![1, 3]);
    let only = store.range_scan("ab", 0).unwrap();
    assert_eq!(only.len(), 1);
    assert_eq!(only[0].nonce, 2);
    assert!(store.range_scan("", 0).unwrap().is_empty());
}

#[test]
fn scan_of_the_empty_topic_yields_its_records_only() {
    let db = temp_db();
    let mut store = StorageActor::open(db).unwrap();
    store.write_on(DAY, &cmd("", "u", 5, "no topic")).unwrap();
    store.write_on(DAY, &cmd("t", "u", 6, "topic")).unwrap();
    let records = store.range_scan("", 0).unwrap();
    assert_eq!(records.len(), 1);
    assert_eq!(records[0].nonce, 5);
    assert_eq!(records[0].payload, b"no topic".to_vec());
}

#[test]
fn lookup_nonce_reads_the_nonce_index() {
    let db = temp_db();
    let mut store = StorageActor::open(db.clone()).unwrap();
    store.write_on(DAY, &cmd("t", "u1", 77, "x")).unwrap();
    assert_eq!(store.lookup_nonce(b"t-u1").unwrap(), Some(77));
    assert_eq!(store.lookup_nonce(b"t-u2").unwrap(), None);
    tree(&db, "nonce_idx").insert(b"short", vec![1u8, 2]).unwrap();
    assert_eq!(store.lookup_nonce(b"short").unwrap(), None);
}

#[test]
fn rewriting_a_data_key_moves_its_nonce() {
    let db = temp_db();
    let mut store = StorageActor::open(db).unwrap();
    store.write_on(DAY, &cmd("t", "u1", 1, "old")).unwrap();
    store.write_on(DAY, &cmd("t", "u1", 2, "new")).unwrap();
    assert_eq!(store.lookup_nonce(b"t-u1").unwrap(), Some(2));
    let records = store.range_scan("t", 0).unwrap();
    assert_eq!(records.len(), 2);
    assert_eq!(records[0].payload, b"new".to_vec());
    assert_eq!(records[1].payload, b"new".to_vec());
    assert_eq!(store.status().unwrap().retain_messages, 2);
}

#[test]
fn last_nonce_is_the_greatest_in_the_range_index() {
    let db = temp_db();
    let mut store = StorageActor::open(db.clone()).unwrap();
    assert_eq!(store.last_nonce().unwrap(), 0);
    store.write_on(DAY, &cmd("t", "a", 256, "x")).unwrap();
    store.write_on(DAY, &cmd("t", "b", 255, "y")).unwrap();
    store.write_on(DAY, &cmd("s", "c", 3, "z")).unwrap();
    assert_eq!(store.last_nonce().unwrap(), 256);
}

#[test]
fn last_nonce_of_a_key_that_is_no_nonce_is_zero() {
    let db = temp_db();
    let store = StorageActor::open(db.clone()).unwrap();
    tree(&db, "range_idx").insert(vec![255u8; 9], b"k".to_vec()).unwrap();
    assert_eq!(store.last_nonce().unwrap(), 0);
}

#[test]
fn status_counts_the_range_index() {
    let db = temp_db();
    let mut store = StorageActor::open(db).unwrap();
    assert_eq!(store.status().unwrap().retain_messages, 0);
    assert_eq!(store.status().unwrap().last_nonce, 0);
    for i in 1..=7u64 {
        store.write_on(DAY, &cmd("t", &format!("u{}", i), i, "p")).unwrap();
    }
    let status = store.status().unwrap();
    assert_eq!(status.retain_messages, 7);
    assert_eq!(status.last_nonce, 0);
}

#[test]
fn trim_without_pivot_changes_nothing() {
    let db = temp_db();
    let mut store = StorageActor::open(db.clone()).unwrap();
    for i in 1..=4u64 {
        store.write_on(10 * DAY, &cmd("t", &format!("u{}", i), i, "p")).unwrap();
    }
    assert_eq!(store.trim_before(9 * DAY).unwrap(), 0);
    assert_eq!(store.trim_at(10 * DAY, 3).unwrap(), 0);
    assert_eq!(store.status().unwrap().retain_messages, 4);
    assert_eq!(db.len(), 4);
}

#[test]
fn trim_removes_up_to_the_pivot() {
    let db = temp_db();
    let mut store = StorageActor::open(db.clone()).unwrap();
    for i in 1..=5u64 {
        store.write_on(DAY, &cmd("t", &format!("old{}", i), i, "old")).unwrap();
    }
    for i in 6..=8u64 {
        store.write_on(4 * DAY, &cmd("t", &format!("new{}", i), i, "new")).unwrap();
    }
    assert_eq!(store.trim_before(DAY).unwrap(), 5);
    let range = tree(&db, "range_idx");
    let main = tree(&db, "main_idx");
    let nonces = tree(&db, "nonce_idx");
    for i in 1..=5u64 {
        let data_key = format!("t-old{}", i);
        assert_eq!(value(&range, &u64to_vec(i)), None);
        assert_eq!(value(&db, data_key.as_bytes()), None);
        assert_eq!(value(&nonces, data_key.as_bytes()), None);
        assert_eq!(value(&main, &make_key("t", i)), None);
    }
    for i in 6..=8u64 {
        let data_key = format!("t-new{}", i);
        assert_eq!(value(&range, &u64to_vec(i)), Some(data_key.as_bytes().to_vec()));
        assert_eq!(value(&db, data_key.as_bytes()), Some(b"new".to_vec()));
        assert_eq!(value(&nonces, data_key.as_bytes()), Some(u64to_vec(i)));
        assert_eq!(value(&main, &make_key("t", i)), Some(data_key.as_bytes().to_vec()));
    }
    assert_eq!(store.count().unwrap(), 3);
    assert_eq!(tree(&db, "day_idx").len(), 2);
}

#[test]
fn trim_removes_the_last_record_of_the_day_too() {
    let db = temp_db();
    let mut store = StorageActor::open(db).unwrap();
    for i in 1..=3u64 {
        store.write_on(DAY, &cmd("t", &format!("u{}", i), i, "p")).unwrap();
    }
    store.write_on(2 * DAY, &cmd("t", "u4", 4, "p")).unwrap();
    assert_eq!(store.trim_before(DAY).unwrap(), 3);
    let left: Vec<u64> = store.range_scan("t", 0).unwrap().iter().map(|r| r.nonce).collect();
    assert_eq!(left, vec![4]);
    assert_eq!(store.trim_before(2 * DAY).unwrap(), 1);
    assert!(store.range_scan("t", 0).unwrap().is_empty());
    assert_eq!(store.count().unwrap(), 0);
}

#[test]
fn trim_counts_whole_days_back_from_today() {
    let db = temp_db();
    let mut store = StorageActor::open(db).unwrap();
    let today = 100 * DAY;
    store.write_on(today - 3 * DAY, &cmd("t", "a", 1, "p")).unwrap();
    store.write_on(today - 3 * DAY, &cmd("t", "b", 2, "p")).unwrap();
    store.write_on(today - 2 * DAY, &cmd("t", "c", 3, "p")).unwrap();
    store.write_on(today, &cmd("t", "d", 4, "p")).unwrap();
    assert_eq!(store.trim_at(today, 0).unwrap(), 0);
    assert_eq!(store.trim_at(today, 3).unwrap(), 0);
    assert_eq!(store.trim_at(today, 1).unwrap(), 3);
    let left: Vec<u64> = store.range_scan("t", 0).unwrap().iter().map(|r| r.nonce).collect();
    assert_eq!(left, vec![4]);
}

#[test]
fn trim_with_a_cutoff_before_all_days_changes_nothing() {
    let db = temp_db();
    let mut store = StorageActor::open(db).unwrap();
    store.write_on(i64::MIN, &cmd("t", "a", 1, "p")).unwrap();
    store.write_on(0, &cmd("t", "b", 2, "p")).unwrap();
    assert_eq!(store.trim_at(i64::MIN, 0).unwrap(), 0);
    assert_eq!(store.trim_at(i64::MIN + 86399, u16::MAX).unwrap(), 0);
    assert_eq!(store.status().unwrap().retain_messages, 2);
}

#[test]
fn trim_twice_is_trim_once() {
    let db = temp_db();
    let mut store = StorageActor::open(db.clone()).unwrap();
    for i in 1..=6u64 {
        store.write_on(DAY, &cmd("t", &format!("a{}", i), i, "p")).unwrap();
    }
    for i in 7..=9u64 {
        store.write_on(2 * DAY, &cmd("s", &format!("b{}", i), i, "q")).unwrap();
    }
    let snapshot = |db: &sled::Db| -> Vec<Vec<(Vec<u8>, Vec<u8>)>> {
        let mut all = Vec::new();
        let mut trees = vec![tree(db, "range_idx"), tree(db, "day_idx"), tree(db, "main_idx")];
        trees.push(tree(db, "nonce_idx"));
        trees.push((**db).clone());
        for t in trees {
            all.push(t.iter().map(|e| e.unwrap()).map(|(k, v)| (k.to_vec(), v.to_vec())).collect());
        }
        all
    };
    assert_eq!(store.trim_before(DAY).unwrap(), 6);
    let once = snapshot(&db);
    assert_eq!(store.trim_before(DAY).unwrap(), 0);
    assert_eq!(snapshot(&db), once);
    assert_eq!(store.status().unwrap().retain_messages, 3);
}

#[test]
fn trim_today_reports_the_day() {
    let db = temp_db();
    let mut store = StorageActor::open(db).unwrap();
    store.write(&cmd("t", "a", 1, "p")).unwrap();
    let before = today_ts().unwrap();
    let report = store.trim(&TrimCmd { days: 0 }).unwrap();
    assert!(before <= report.today);
    assert_eq!(report.removed, 0);
    assert_eq!(store.status().unwrap().retain_messages, 1);
}

#[test]
fn trim_leaves_the_main_entry_of_a_topic_with_a_dash() {
    let db = temp_db();
    let mut store = StorageActor::open(db.clone()).unwrap();
    store.write_on(DAY, &cmd("a-b", "u", 1, "p")).unwrap();
    store.write_on(2 * DAY, &cmd("a-b", "v", 2, "q")).unwrap();
    assert_eq!(store.trim_before(DAY).unwrap(), 1);
    assert_eq!(value(&db, b"a-b-u"), None);
    assert_eq!(value(&tree(&db, "range_idx"), &u64to_vec(1)), None);
    assert_eq!(value(&tree(&db, "main_idx"), &make_key("a-b", 1)), Some(b"a-b-u".to_vec()));
    let left: Vec<u64> = store.range_scan("a-b", 0).unwrap().iter().map(|r| r.nonce).collect();
    assert_eq!(left, vec![2]);
}

#[test]
fn flush_succeeds_on_a_fresh_store() {
    let mut store = StorageActor::open(temp_db()).unwrap();
    store.write_on(DAY, &cmd("t", "a", 1, "p")).unwrap();
    assert!(store.flush().is_ok());
}

#[test]
fn commands_carry_their_fields() {
    let c = cmd("t", "u", 9, "d");
    assert_eq!(c.st_key, "t-u");
    assert_eq!(c.message_topic, "t");
    assert_eq!(c.nonce, 9);
    assert_eq!(c.data, "d");
    assert_eq!(TrimCmd { days: 3 }.days, 3);
    assert_eq!(StatusCmd { days: 4 }.days, 4);
}

#[test]
fn store_reopens_with_what_it_held() {
    let db = temp_db();
    {
        let mut store = StorageActor::open(db.clone()).unwrap();
        store.write_on(DAY, &cmd("t", "a", 12, "kept")).unwrap();
    }
    let store = StorageActor::open(db).unwrap();
    assert_eq!(store.last_nonce().unwrap(), 12);
    let records = store.range_scan("t", 0).unwrap();
    assert_eq!(records.len(), 1);
    assert_eq!(records[0].payload, b"kept".to_vec());
}
