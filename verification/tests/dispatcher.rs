use std::collections::hash_map::DefaultHasher;
use std::hash::{Hash, Hasher};
use wsmq::consumer::ConsumerActor;
use wsmq::envelope::Message;
use wsmq::partition::{
    add_status, seal, stable_hash, Partition, PartitionDispacher, MAILBOX_CAPACITY,
    MAX_PARTITIONS, WRITE_PACING,
};
use wsmq::sequencer::IdGenerator;
use wsmq::storage::{Status, StorageCmd};

fn temp_db() -> sled::Db {
    sled::Config::new().temporary(true).open().unwrap()
}

fn dbs(n: usize) -> Vec<sled::Db> {
    (0..n).map(|_| temp_db()).collect()
}

fn message(uid: &str, topic: Option<&str>, payload: Option<&str>) -> Message {
    Message {
        uid: uid.to_string(),
        topic: topic.map(|t| t.to_string()),
        payload: payload.map(|p| p.to_string()),
        key: None,
        cmd: None,
        params: None,
        offset: None,
        nonce: None,
    }
}

fn std_hash(topic: &str) -> u64 {
    let mut h = DefaultHasher::new();
    topic.hash(&mut h);
    h.finish()
}

fn registered(c: &ConsumerActor<String>, client: &str) -> Option<Vec<String>> {
    let k = c.position(client);
    if k < c.len() {
        Some(c.registration(k).topics.clone())
    } else {
        None
    }
}

#[test]
fn stable_hash_is_the_standard_hash_of_the_topic() {
    for topic in ["", "t", "topic", "news/sport", "a-b", "\u{e9}t\u{e9}", "0123456789abcdef0"] {
        assert_eq!(stable_hash(topic), std_hash(topic));
    }
}

#[test]
fn stable_hash_tells_topics_apart() {
    assert_ne!(stable_hash("a"), stable_hash("b"));
    assert_ne!(stable_hash(""), stable_hash("\u{0}"));
    assert_eq!(stable_hash("same"), stable_hash("same"));
}

#[test]
fn topic_goes_to_its_hash_modulo_the_partitions() {
    let d: PartitionDispacher<String> = PartitionDispacher::from_number(dbs(7)).unwrap();
    for i in 0..50 {
        let topic = format!("topic-{}", i);
        let p = d.topic_for_partition(&topic);
        assert!(p < 7);
        assert_eq!(p as u64, std_hash(&topic) % 7);
        assert_eq!(p, d.topic_for_partition(&topic));
    }
}

#[test]
fn one_partition_takes_every_topic() {
    let d: PartitionDispacher<String> = PartitionDispacher::from_number(dbs(1)).unwrap();
    for topic in ["a", "b", "c", ""] {
        assert_eq!(d.topic_for_partition(topic), 0);
    }
}

#[test]
fn partitions_know_their_index() {
    let d: PartitionDispacher<String> = PartitionDispacher::from_number(dbs(4)).unwrap();
    assert_eq!(d.partitions.len(), 4);
    for (i, p) in d.partitions.iter().enumerate() {
        assert_eq!(p.idx as usize, i);
        assert_eq!(p.consumer.len(), 0);
    }
    assert_eq!(d.id_generator.get_max_id(), 0);
}

#[test]
fn partitions_stand_on_the_databases_in_their_order() {
    let all = dbs(3);
    all[2].open_tree("range_idx").unwrap().insert(9u64.to_be_bytes(), b"t-x".to_vec()).unwrap();
    let d: PartitionDispacher<String> = PartitionDispacher::from_number(all).unwrap();
    assert_eq!(d.partitions[0].last_nonce().unwrap(), 0);
    assert_eq!(d.partitions[1].last_nonce().unwrap(), 0);
    assert_eq!(d.partitions[2].last_nonce().unwrap(), 9);
}

#[test]
fn seal_makes_the_write_command() {
    let cmd = seal("t", "u1", 5, "{}".to_string());
    assert_eq!(cmd.st_key, "t-u1");
    assert_eq!(cmd.message_topic, "t");
    assert_eq!(cmd.nonce, 5);
    assert_eq!(cmd.data, "{}");
}

#[test]
fn partition_seals_a_message_with_the_next_nonce() {
    let p: Partition<String> = Partition::from_idx(3, temp_db()).unwrap();
    let mut ids = IdGenerator::new(41);
    let mut m = message("u1", Some("t"), Some("rain"));
    let cmd = p.dispach_message(&mut ids, &mut m).unwrap();
    assert_eq!(m.nonce, Some(42));
    assert_eq!(ids.get_max_id(), 42);
    assert_eq!(cmd.st_key, "t-u1");
    assert_eq!(cmd.message_topic, "t");
    assert_eq!(cmd.nonce, 42);
    let parsed: serde_json::Value = serde_json::from_str(&cmd.data).unwrap();
    assert_eq!(parsed["uid"], "u1");
    assert_eq!(parsed["topic"], "t");
    assert_eq!(parsed["payload"], "rain");
    assert_eq!(parsed["nonce"], 42);
    assert!(parsed["key"].is_null());
    assert!(parsed["cmd"].is_null());
    assert!(parsed["params"].is_null());
    assert!(parsed["offset"].is_null());
}

#[test]
fn partition_leaves_a_message_without_topic_alone() {
    let p: Partition<String> = Partition::from_idx(0, temp_db()).unwrap();
    let mut ids = IdGenerator::new(7);
    let mut m = message("u1", None, Some("rain"));
    assert!(p.dispach_message(&mut ids, &mut m).is_none());
    assert_eq!(m.nonce, None);
    assert_eq!(ids.get_max_id(), 7);
}

#[test]
fn partition_seals_nothing_once_the_sequencer_is_exhausted() {
    let p: Partition<String> = Partition::from_idx(0, temp_db()).unwrap();
    let mut ids = IdGenerator::new(u64::MAX);
    let mut m = message("u1", Some("t"), None);
    assert!(p.dispach_message(&mut ids, &mut m).is_none());
    assert_eq!(m.nonce, None);
    assert_eq!(ids.get_max_id(), u64::MAX);
}

#[test]
fn envelope_text_is_pretty_json_with_the_fields_in_order() {
    let p: Partition<String> = Partition::from_idx(0, temp_db()).unwrap();
    let mut ids = IdGenerator::new(0);
    let mut m = Message {
        uid: "u\"1".to_string(),
        topic: Some("t".to_string()),
        payload: Some("line\nbreak".to_string()),
        key: Some("k".to_string()),
        cmd: None,
        params: Some(vec!["a".to_string(), "b".to_string()]),
        offset: Some(3),
        nonce: None,
    };
    let cmd = p.dispach_message(&mut ids, &mut m).unwrap();
    let expected = "{\n  \"uid\": \"u\\\"1\",\n  \"topic\": \"t\",\n  \"payload\": \"line\\nbreak\",\n  \"key\": \"k\",\n  \"cmd\": null,\n  \"params\": [\n    \"a\",\n    \"b\"\n  ],\n  \"offset\": 3,\n  \"nonce\": 1\n}";
    assert_eq!(cmd.data, expected);
}

#[test]
fn partition_builds_its_commands() {
    let p: Partition<String> = Partition::from_idx(0, temp_db()).unwrap();
    let r = p.subscribe("sock".to_string(), "c1", vec!["a".to_string()], 4);
    assert_eq!(r.client_id, "c1");
    assert_eq!(r.topics, vec!["a"]);
    assert_eq!(r.offset, 4);
    assert_eq!(r.addr, "sock");
    assert_eq!(p.unsubscribe("c1").client_id, "c1");
    assert_eq!(p.trim_data(12).days, 12);
    assert_eq!(WRITE_PACING, 5);
}

#[test]
fn dispatcher_routes_a_message_to_the_partition_of_its_topic() {
    let mut d: PartitionDispacher<String> = PartitionDispacher::from_number(dbs(5)).unwrap();
    let mut m = message("u1", Some("weather"), Some("rain"));
    let (pidx, cmd) = d.dispach_message(&mut m).unwrap();
    assert_eq!(pidx, d.topic_for_partition("weather"));
    assert_eq!(cmd.nonce, 1);
    assert_eq!(m.nonce, Some(1));
    assert_eq!(d.id_generator.get_max_id(), 1);
    assert_eq!(d.sum_status().unwrap().retain_messages, 0);
}

#[test]
fn handle_storage_writes_to_the_named_partition() {
    let mut d: PartitionDispacher<String> = PartitionDispacher::from_number(dbs(3)).unwrap();
    let cmd = StorageCmd {
        st_key: "t-u".to_string(),
        message_topic: "t".to_string(),
        nonce: 4,
        data: "x".to_string(),
    };
    d.handle_storage(2, &cmd).unwrap();
    assert_eq!(d.partitions[0].sum_status().unwrap().retain_messages, 0);
    assert_eq!(d.partitions[1].sum_status().unwrap().retain_messages, 0);
    assert_eq!(d.partitions[2].sum_status().unwrap().retain_messages, 1);
    assert_eq!(d.partitions[2].store.lookup_nonce(b"t-u").unwrap(), Some(4));
}

#[test]
fn publish_writes_where_the_topic_belongs() {
    let mut d: PartitionDispacher<String> = PartitionDispacher::from_number(dbs(4)).unwrap();
    let mut m = message("u1", Some("t"), Some("rain"));
    let publication = d.publish(&mut m).unwrap();
    assert_eq!(publication.partition, d.topic_for_partition("t"));
    assert!(publication.written.is_ok());
    assert_eq!(publication.cmd.nonce, 1);
    for (i, p) in d.partitions.iter().enumerate() {
        let records = p.store.range_scan("t", 0).unwrap();
        if i == publication.partition as usize {
            assert_eq!(records.len(), 1);
            assert_eq!(records[0].nonce, 1);
            assert_eq!(records[0].payload, publication.cmd.data.as_bytes().to_vec());
        } else {
            assert!(records.is_empty());
        }
    }
}

#[test]
fn publish_without_topic_does_nothing() {
    let mut d: PartitionDispacher<String> = PartitionDispacher::from_number(dbs(2)).unwrap();
    let mut m = message("u1", None, Some("rain"));
    assert!(d.publish(&mut m).is_none());
    assert_eq!(m.nonce, None);
    assert_eq!(d.id_generator.get_max_id(), 0);
    assert_eq!(d.sum_status().unwrap().retain_messages, 0);
}

#[test]
fn n_publishes_give_n_records_over_all_partitions() {
    let mut d: PartitionDispacher<String> = PartitionDispacher::from_number(dbs(4)).unwrap();
    let n = 60u64;
    for i in 0..n {
        let mut m = message(&format!("u{}", i), Some(&format!("topic{}", i % 9)), Some("p"));
        let publication = d.publish(&mut m).unwrap();
        assert!(publication.written.is_ok());
        assert_eq!(m.nonce, Some(i + 1));
    }
    let status = d.sum_status().unwrap();
    assert_eq!(status.retain_messages, n as usize);
    assert_eq!(status.last_nonce, n);
    let mut sum = 0;
    for p in d.partitions.iter() {
        sum += p.sum_status().unwrap().retain_messages;
    }
    assert_eq!(sum, n as usize);
}

#[test]
fn status_of_an_empty_dispatcher() {
    let d: PartitionDispacher<String> = PartitionDispacher::from_number(dbs(3)).unwrap();
    let status = d.sum_status().unwrap();
    assert_eq!(status.retain_messages, 0);
    assert_eq!(status.last_nonce, 0);
}

#[test]
fn subscribe_groups_topics_by_partition() {
    let mut d: PartitionDispacher<String> = PartitionDispacher::from_number(dbs(3)).unwrap();
    let topics: Vec<String> = (0..12).map(|i| format!("t{}", i)).collect();
    d.subscribe("sock".to_string(), "c1", topics.clone(), 5);
    let mut seen = 0;
    for (i, p) in d.partitions.iter().enumerate() {
        let mine: Vec<String> = topics
            .iter()
            .filter(|t| d.topic_for_partition(t.as_str()) as usize == i)
            .cloned()
            .collect();
        if mine.is_empty() {
            assert_eq!(registered(&p.consumer, "c1"), None);
        } else {
            assert_eq!(registered(&p.consumer, "c1"), Some(mine.clone()));
            let reg = p.consumer.registration(p.consumer.position("c1"));
            assert_eq!(reg.offset, 5);
            assert_eq!(reg.socket, "sock");
        }
        seen += mine.len();
    }
    assert_eq!(seen, 12);
}

#[test]
fn subscribe_to_nothing_registers_nowhere() {
    let mut d: PartitionDispacher<String> = PartitionDispacher::from_number(dbs(3)).unwrap();
    d.subscribe("sock".to_string(), "c1", Vec::new(), 0);
    for p in d.partitions.iter() {
        assert_eq!(p.consumer.len(), 0);
    }
}

#[test]
fn unsubscribe_forgets_the_client_everywhere() {
    let mut d: PartitionDispacher<String> = PartitionDispacher::from_number(dbs(3)).unwrap();
    let topics: Vec<String> = (0..12).map(|i| format!("t{}", i)).collect();
    d.subscribe("first socket".to_string(), "c1", topics.clone(), 0);
    d.subscribe("second socket".to_string(), "c2", topics, 0);
    d.unsubscribe("c1");
    for p in d.partitions.iter() {
        assert_eq!(registered(&p.consumer, "c1"), None);
        assert!(registered(&p.consumer, "c2").is_some());
        assert_eq!(p.consumer.len(), 1);
    }
}

#[test]
fn trim_runs_in_every_partition() {
    let mut d: PartitionDispacher<String> = PartitionDispacher::from_number(dbs(3)).unwrap();
    for i in 0..9u64 {
        let mut m = message(&format!("u{}", i), Some(&format!("t{}", i)), None);
        d.publish(&mut m).unwrap();
    }
    let reports = d.trim_data(0);
    assert_eq!(reports.len(), 3);
    for r in reports.iter() {
        assert_eq!(r.as_ref().unwrap().removed, 0);
    }
    assert_eq!(d.sum_status().unwrap().retain_messages, 9);
}

#[test]
fn sequencer_recovers_above_every_partition() {
    let all = dbs(3);
    let mut first: PartitionDispacher<String> = PartitionDispacher::from_number(all.clone()).unwrap();
    for i in 0..20u64 {
        let mut m = message(&format!("u{}", i), Some(&format!("t{}", i)), None);
        first.publish(&mut m).unwrap();
    }
    let mut greatest = 0;
    for p in first.partitions.iter() {
        greatest = greatest.max(p.last_nonce().unwrap());
    }
    assert_eq!(greatest, 20);
    drop(first);
    let mut second: PartitionDispacher<String> = PartitionDispacher::from_number(all).unwrap();
    assert_eq!(second.id_generator.get_max_id(), 20);
    for p in second.partitions.iter() {
        assert!(p.last_nonce().unwrap() <= 20);
    }
    let mut m = message("next", Some("t0"), None);
    second.publish(&mut m).unwrap();
    assert_eq!(m.nonce, Some(21));
}

#[test]
fn add_status_sums_and_caps() {
    let total = Status { retain_messages: 3, disk_size: 100, last_nonce: 9 };
    let part = Status { retain_messages: 4, disk_size: 50, last_nonce: 0 };
    let sum = add_status(total, &part);
    assert_eq!(sum.retain_messages, 7);
    assert_eq!(sum.disk_size, 150);
    assert_eq!(sum.last_nonce, 9);
    let near = Status { retain_messages: usize::MAX - 1, disk_size: u64::MAX - 1, last_nonce: 1 };
    let capped = add_status(near, &part);
    assert_eq!(capped.retain_messages, usize::MAX);
    assert_eq!(capped.disk_size, u64::MAX);
    assert_eq!(capped.last_nonce, 1);
}

#[test]
fn limits_of_the_dispatcher() {
    assert_eq!(MAX_PARTITIONS, 65535);
    assert_eq!(MAILBOX_CAPACITY, 65536);
}

#[test]
fn status_sums_the_partitions_and_changes_nothing() {
    let mut d: PartitionDispacher<String> = PartitionDispacher::from_number(dbs(3)).unwrap();
    for i in 0..17u64 {
        let mut m = message(&format!("u{}", i), Some(&format!("t{}", i)), None);
        d.publish(&mut m).unwrap();
    }
    let first = d.sum_status().unwrap();
    assert_eq!(first.retain_messages, 17);
    assert_eq!(first.last_nonce, 17);
    let mut by_partition = 0;
    for p in d.partitions.iter() {
        let st = p.sum_status().unwrap();
        assert_eq!(st.last_nonce, 0);
        assert_eq!(st.retain_messages, p.store.count().unwrap());
        by_partition += st.retain_messages;
    }
    assert_eq!(by_partition, 17);
    let second = d.sum_status().unwrap();
    assert_eq!(second.retain_messages, 17);
    assert_eq!(second.last_nonce, 17);
    assert_eq!(d.id_generator.get_max_id(), 17);
}

#[test]
fn publish_with_a_topic_always_gives_a_command() {
    let mut d: PartitionDispacher<String> = PartitionDispacher::from_number(dbs(2)).unwrap();
    for uid in ["", "u", "with \"quotes\"", "\u{7f}\u{0}", "\u{e9}"] {
        let mut m = message(uid, Some("t"), Some("\u{1}\u{2}"));
        let (_, cmd) = d.dispach_message(&mut m).unwrap();
        assert!(!cmd.data.is_empty());
        let parsed: serde_json::Value = serde_json::from_str(&cmd.data).unwrap();
        assert_eq!(parsed["uid"], uid);
    }
}
