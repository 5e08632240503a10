use wsmq::clock::today_ts;
use wsmq::codec::{i64to_vec, make_key, u64to_vec};
use wsmq::consumer::{ConsumerAction, ConsumerEvent};
use wsmq::envelope::Message;
use wsmq::partition::PartitionDispacher;
use wsmq::session::{SessionAction, SessionEvent, WsSession};

fn dbs(n: usize) -> Vec<sled::Db> {
    (0..n).map(|_| sled::Config::new().temporary(true).open().unwrap()).collect()
}

fn message(uid: &str, topic: &str, payload: &str) -> Message {
    Message {
        uid: uid.to_string(),
        topic: Some(topic.to_string()),
        payload: Some(payload.to_string()),
        key: None,
        cmd: None,
        params: None,
        offset: None,
        nonce: None,
    }
}

fn parse(frame: &str) -> serde_json::Value {
    serde_json::from_str(frame).unwrap()
}

/// Runs one pass of partition `p` in which the session takes every frame.
fn pass(d: &mut PartitionDispacher<String>, p: usize) -> Vec<String> {
    let part = &mut d.partitions[p];
    let mut frames = Vec::new();
    let mut polled = part.consumer.poll(&part.store, ConsumerEvent::Tick);
    loop {
        match polled.action {
            ConsumerAction::Deliver { frame, .. } => {
                frames.push(frame);
                polled = part.consumer.poll(&part.store, ConsumerEvent::Accepted);
            }
            _ => return frames,
        }
    }
}

#[test]
fn echo_to_self() {
    let mut d: PartitionDispacher<String> = PartitionDispacher::from_number(dbs(1)).unwrap();
    let session = WsSession { client_id: "c1".to_string() };
    let mut subscribe = message("", "", "");
    subscribe.topic = None;
    subscribe.payload = None;
    subscribe.cmd = Some("subscribe".to_string());
    subscribe.params = Some(vec!["t".to_string()]);
    subscribe.offset = Some(0);
    for action in session.handle(SessionEvent::Envelope(subscribe)) {
        if let SessionAction::Subscribe { client_id, topics, offset } = action {
            d.subscribe("socket of c1".to_string(), &client_id, topics, offset);
        }
    }
    for action in session.handle(SessionEvent::Envelope(message("u1", "t", "p1"))) {
        if let SessionAction::Publish(mut m) = action {
            assert!(d.publish(&mut m).unwrap().written.is_ok());
        }
    }
    let frames = pass(&mut d, 0);
    assert_eq!(frames.len(), 1);
    let got = parse(&frames[0]);
    assert_eq!(got["uid"], "u1");
    assert_eq!(got["topic"], "t");
    assert_eq!(got["payload"], "p1");
    assert_eq!(got["nonce"], 1);
}

#[test]
fn round_trip_gives_the_envelope_back_with_its_nonce() {
    let mut d: PartitionDispacher<String> = PartitionDispacher::from_number(dbs(1)).unwrap();
    let mut sent = Message {
        uid: "id \"7\"".to_string(),
        topic: Some("t".to_string()),
        payload: Some("{\"x\": [1, 2]}\n".to_string()),
        key: Some("k\u{e9}".to_string()),
        cmd: Some("note".to_string()),
        params: Some(vec!["a".to_string(), "".to_string()]),
        offset: Some(u64::MAX),
        nonce: None,
    };
    let before = sent.clone();
    d.publish(&mut sent).unwrap().written.unwrap();
    d.subscribe("s".to_string(), "c1", vec!["t".to_string()], 0);
    let frames = pass(&mut d, 0);
    assert_eq!(frames.len(), 1);
    let got = parse(&frames[0]);
    assert_eq!(got["uid"].as_str().unwrap(), before.uid);
    assert_eq!(got["topic"].as_str().map(|s| s.to_string()), before.topic);
    assert_eq!(got["payload"].as_str().map(|s| s.to_string()), before.payload);
    assert_eq!(got["key"].as_str().map(|s| s.to_string()), before.key);
    assert_eq!(got["cmd"].as_str().map(|s| s.to_string()), before.cmd);
    let params: Vec<String> = got["params"]
        .as_array()
        .unwrap()
        .iter()
        .map(|p| p.as_str().unwrap().to_string())
        .collect();
    assert_eq!(Some(params), before.params);
    assert_eq!(got["offset"].as_u64(), before.offset);
    assert_eq!(got["nonce"].as_u64(), Some(1));
    assert_eq!(got.as_object().unwrap().len(), 8);
}

#[test]
fn replay_from_an_offset() {
    let mut d: PartitionDispacher<String> = PartitionDispacher::from_number(dbs(1)).unwrap();
    for i in 1..=3 {
        d.publish(&mut message(&format!("u{}", i), "t", &format!("text {}", i))).unwrap();
    }
    d.subscribe("s".to_string(), "late", vec!["t".to_string()], 2);
    let frames = pass(&mut d, 0);
    let nonces: Vec<u64> = frames.iter().map(|f| parse(f)["nonce"].as_u64().unwrap()).collect();
    assert_eq!(nonces, vec![2, 3]);
    assert_eq!(parse(&frames[0])["payload"], "text 2");
    assert_eq!(parse(&frames[1])["payload"], "text 3");
}

#[test]
fn partitioning_keeps_each_topic_in_one_partition() {
    let mut d: PartitionDispacher<String> = PartitionDispacher::from_number(dbs(4)).unwrap();
    for round in 0..2 {
        for t in 0..100 {
            let topic = format!("topic/{}", t);
            let publication =
                d.publish(&mut message(&format!("u{}x{}", t, round), &topic, "p")).unwrap();
            assert!(publication.written.is_ok());
        }
    }
    let mut used = [0usize; 4];
    for t in 0..100 {
        let topic = format!("topic/{}", t);
        let home = d.topic_for_partition(&topic) as usize;
        used[home] += 1;
        for (i, p) in d.partitions.iter().enumerate() {
            let records = p.store.range_scan(&topic, 0).unwrap();
            if i == home {
                assert_eq!(records.len(), 2);
                assert!(records[0].nonce < records[1].nonce);
                assert_eq!(records[0].nonce, t + 1);
                assert_eq!(records[1].nonce, t + 101);
            } else {
                assert!(records.is_empty());
            }
        }
    }
    assert_eq!(used.iter().sum::<usize>(), 100);
    assert_eq!(d.sum_status().unwrap().retain_messages, 200);
}

#[test]
fn trim_drops_the_old_and_keeps_the_new() {
    let all = dbs(1);
    let db = all[0].clone();
    let mut d: PartitionDispacher<String> = PartitionDispacher::from_number(all).unwrap();
    for i in 1..=20 {
        d.publish(&mut message(&format!("u{}", i), "t", &format!("p{}", i))).unwrap();
    }
    let today = today_ts().unwrap();
    let two_days_ago = today - 2 * 86400;
    db.open_tree("day_idx").unwrap().insert(i64to_vec(two_days_ago), u64to_vec(10)).unwrap();
    let reports = d.trim_data(1);
    let report = reports[0].as_ref().unwrap();
    assert_eq!(report.removed, 10);
    assert!(report.today >= today);
    let range = db.open_tree("range_idx").unwrap();
    let main = db.open_tree("main_idx").unwrap();
    let nonces = db.open_tree("nonce_idx").unwrap();
    for i in 1..=10u64 {
        let data_key = format!("t-u{}", i);
        assert!(range.get(u64to_vec(i)).unwrap().is_none());
        assert!(main.get(make_key("t", i)).unwrap().is_none());
        assert!(nonces.get(&data_key).unwrap().is_none());
        assert!(db.get(&data_key).unwrap().is_none());
    }
    for i in 11..=20u64 {
        let data_key = format!("t-u{}", i);
        assert_eq!(range.get(u64to_vec(i)).unwrap().unwrap(), data_key.as_bytes());
        assert_eq!(main.get(make_key("t", i)).unwrap().unwrap(), data_key.as_bytes());
        assert_eq!(nonces.get(&data_key).unwrap().unwrap(), u64to_vec(i));
        assert!(db.get(&data_key).unwrap().is_some());
    }
    let left: Vec<u64> =
        d.partitions[0].store.range_scan("t", 0).unwrap().iter().map(|r| r.nonce).collect();
    assert_eq!(left, (11..=20).collect::<Vec<u64>>());
    assert_eq!(d.sum_status().unwrap().retain_messages, 10);
    let again = d.trim_data(1);
    assert_eq!(again[0].as_ref().unwrap().removed, 0);
    assert_eq!(d.sum_status().unwrap().retain_messages, 10);
}

#[test]
fn a_slow_subscriber_gets_everything_in_order() {
    let mut d: PartitionDispacher<String> = PartitionDispacher::from_number(dbs(1)).unwrap();
    d.subscribe("slow".to_string(), "slow", vec!["t".to_string()], 0);
    d.subscribe("fast".to_string(), "fast", vec!["t".to_string()], 0);
    for i in 1..=1000 {
        d.publish(&mut message(&format!("u{}", i), "t", "p")).unwrap();
    }
    let mut slow: Vec<u64> = Vec::new();
    let mut fast: Vec<u64> = Vec::new();
    {
        let part = &mut d.partitions[0];
        let mut polled = part.consumer.poll(&part.store, ConsumerEvent::Tick);
        let mut taken_by_slow = 0;
        loop {
            match polled.action {
                ConsumerAction::Deliver { reg, frame } => {
                    let nonce = parse(&frame)["nonce"].as_u64().unwrap();
                    let who = part.consumer.registration(reg).client_id.clone();
                    if who == "slow" {
                        if taken_by_slow == 1 {
                            polled = part.consumer.poll(&part.store, ConsumerEvent::Rejected);
                            continue;
                        }
                        taken_by_slow += 1;
                        slow.push(nonce);
                    } else {
                        fast.push(nonce);
                    }
                    polled = part.consumer.poll(&part.store, ConsumerEvent::Accepted);
                }
                _ => break,
            }
        }
    }
    assert_eq!(slow, vec![1]);
    assert_eq!(fast, (1..=1000).collect::<Vec<u64>>());
    let k = d.partitions[0].consumer.position("slow");
    assert_eq!(d.partitions[0].consumer.registration(k).offset, 2);
    loop {
        let part = &mut d.partitions[0];
        let mut polled = part.consumer.poll(&part.store, ConsumerEvent::Tick);
        let mut any = false;
        loop {
            match polled.action {
                ConsumerAction::Deliver { reg, frame } => {
                    any = true;
                    let who = part.consumer.registration(reg).client_id.clone();
                    assert_eq!(who, "slow");
                    slow.push(parse(&frame)["nonce"].as_u64().unwrap());
                    polled = part.consumer.poll(&part.store, ConsumerEvent::Accepted);
                }
                _ => break,
            }
        }
        if !any {
            break;
        }
    }
    assert_eq!(slow, (1..=1000).collect::<Vec<u64>>());
}

#[test]
fn restart_goes_on_after_the_last_nonce() {
    let all = dbs(2);
    {
        let mut d: PartitionDispacher<String> =
            PartitionDispacher::from_number(all.clone()).unwrap();
        for i in 1..=5 {
            let mut m = message(&format!("u{}", i), &format!("t{}", i), "p");
            d.publish(&mut m).unwrap();
            assert_eq!(m.nonce, Some(i));
        }
        for p in d.partitions.iter() {
            p.store.flush().unwrap();
        }
    }
    let mut d: PartitionDispacher<String> = PartitionDispacher::from_number(all).unwrap();
    let mut m = message("u6", "t1", "p");
    d.publish(&mut m).unwrap();
    assert_eq!(m.nonce, Some(6));
}
