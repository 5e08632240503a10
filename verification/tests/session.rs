use wsmq::envelope::{same_text, Command, ErrResp, InnerMessage, Message};
use wsmq::session::{
    SessionAction, SessionEvent, WsSession, CLOSE_REASON, CONNECTED, MAX_FRAME_SIZE,
    SESSION_MAILBOX, SUBSCRIBED,
};

fn session() -> WsSession {
    WsSession { client_id: "c1".to_string() }
}

fn envelope() -> Message {
    Message {
        uid: "u1".to_string(),
        topic: None,
        payload: None,
        key: None,
        cmd: None,
        params: None,
        offset: None,
        nonce: None,
    }
}

#[test]
fn getters_give_the_fields() {
    let mut m = envelope();
    assert_eq!(m.got_topic(), None);
    assert_eq!(m.got_cmd(), None);
    assert_eq!(m.got_offset(), None);
    assert_eq!(m.got_params(), None);
    m.topic = Some("t".to_string());
    m.cmd = Some("subscribe".to_string());
    m.offset = Some(9);
    m.params = Some(vec!["a".to_string(), "b".to_string()]);
    assert_eq!(m.got_topic(), Some("t".to_string()));
    assert_eq!(m.got_cmd(), Some("subscribe".to_string()));
    assert_eq!(m.got_offset(), Some(9));
    assert_eq!(m.got_params(), Some(vec!["a".to_string(), "b".to_string()]));
}

#[test]
fn set_nonce_seals_the_envelope() {
    let mut m = envelope();
    m.payload = Some("p".to_string());
    m.set_nonce(17);
    assert_eq!(m.nonce, Some(17));
    assert_eq!(m.uid, "u1");
    assert_eq!(m.payload, Some("p".to_string()));
    m.set_nonce(18);
    assert_eq!(m.nonce, Some(18));
}

#[test]
fn same_text_compares_texts() {
    assert!(same_text("subscribe", "subscribe"));
    assert!(!same_text("subscribe", "Subscribe"));
    assert!(!same_text("", "a"));
    assert!(same_text("", ""));
}

#[test]
fn plain_types_carry_their_fields() {
    let c = Command { cmd: "subscribe".to_string(), params: vec!["t".to_string()] };
    assert_eq!(c.cmd, "subscribe");
    assert_eq!(c.params, vec!["t"]);
    let r = ErrResp { rs: true, detail: "d".to_string() };
    assert!(r.rs);
    assert_eq!(r.detail, "d");
    assert_eq!(InnerMessage("x".to_string()).0, "x");
    assert_eq!(SESSION_MAILBOX, 65536);
    assert_eq!(MAX_FRAME_SIZE, 128_384);
}

#[test]
fn a_session_greets() {
    let actions = session().handle(SessionEvent::Started);
    assert_eq!(actions.len(), 1);
    match &actions[0] {
        SessionAction::Text(t) => {
            assert_eq!(t, "{\"rs\":true,\"detail\":\"connected\"}");
            assert_eq!(t, CONNECTED);
        }
        other => panic!("{:?}", other),
    }
}

#[test]
fn a_subscribe_frame_subscribes_and_is_confirmed() {
    let mut m = envelope();
    m.cmd = Some("subscribe".to_string());
    m.params = Some(vec!["a".to_string(), "b".to_string()]);
    m.offset = Some(4);
    let actions = session().handle(SessionEvent::Envelope(m));
    assert_eq!(actions.len(), 2);
    match &actions[0] {
        SessionAction::Subscribe { client_id, topics, offset } => {
            assert_eq!(client_id, "c1");
            assert_eq!(topics, &vec!["a".to_string(), "b".to_string()]);
            assert_eq!(*offset, 4);
        }
        other => panic!("{:?}", other),
    }
    match &actions[1] {
        SessionAction::Text(t) => {
            assert_eq!(t, "{\"rs\":true,\"detail\":\"Subscribe Success\"}");
            assert_eq!(t, SUBSCRIBED);
        }
        other => panic!("{:?}", other),
    }
}

#[test]
fn a_subscribe_frame_defaults_to_no_topics_and_offset_zero() {
    let mut m = envelope();
    m.cmd = Some("subscribe".to_string());
    let actions = session().process_message(m);
    match &actions[0] {
        SessionAction::Subscribe { topics, offset, .. } => {
            assert!(topics.is_empty());
            assert_eq!(*offset, 0);
        }
        other => panic!("{:?}", other),
    }
}

#[test]
fn another_command_does_nothing() {
    let mut m = envelope();
    m.cmd = Some("unsubscribe".to_string());
    m.params = Some(vec!["a".to_string()]);
    assert!(session().handle(SessionEvent::Envelope(m)).is_empty());
    assert!(session().process_command(&envelope()).is_empty());
}

#[test]
fn an_envelope_with_a_topic_is_published() {
    let mut m = envelope();
    m.topic = Some("t".to_string());
    m.payload = Some("rain".to_string());
    let actions = session().handle(SessionEvent::Envelope(m));
    assert_eq!(actions.len(), 1);
    match &actions[0] {
        SessionAction::Publish(p) => {
            assert_eq!(p.uid, "u1");
            assert_eq!(p.topic, Some("t".to_string()));
            assert_eq!(p.payload, Some("rain".to_string()));
        }
        other => panic!("{:?}", other),
    }
}

#[test]
fn an_envelope_with_command_and_topic_does_both() {
    let mut m = envelope();
    m.cmd = Some("subscribe".to_string());
    m.params = Some(vec!["t".to_string()]);
    m.topic = Some("t".to_string());
    let actions = session().handle(SessionEvent::Envelope(m));
    assert_eq!(actions.len(), 3);
    assert!(matches!(actions[0], SessionAction::Subscribe { .. }));
    assert!(matches!(actions[1], SessionAction::Text(_)));
    assert!(matches!(actions[2], SessionAction::Publish(_)));
}

#[test]
fn an_envelope_without_command_or_topic_is_ignored() {
    assert!(session().handle(SessionEvent::Envelope(envelope())).is_empty());
}

#[test]
fn a_malformed_frame_is_answered_with_the_reason() {
    let actions =
        session().handle(SessionEvent::Malformed("expected value at line 1".to_string()));
    assert_eq!(actions.len(), 1);
    match &actions[0] {
        SessionAction::Text(t) => {
            assert_eq!(t, "{\"rs\":false,\"detail\":\"Invalid json:expected value at line 1\"}");
        }
        other => panic!("{:?}", other),
    }
}

#[test]
fn a_malformed_reply_escapes_its_reason() {
    let actions = session().handle(SessionEvent::Malformed("bad \"x\"\n".to_string()));
    match &actions[0] {
        SessionAction::Text(t) => {
            let v: serde_json::Value = serde_json::from_str(t).unwrap();
            assert_eq!(v["rs"], false);
            assert_eq!(v["detail"], "Invalid json:bad \"x\"\n");
        }
        other => panic!("{:?}", other),
    }
}

#[test]
fn a_malformed_frame_gets_one_reply_whatever_the_reason() {
    for reason in ["", "{", "\u{0}", "EOF while parsing an object at line 1 column 1"] {
        let actions = session().handle(SessionEvent::Malformed(reason.to_string()));
        assert_eq!(actions.len(), 1);
        match &actions[0] {
            SessionAction::Text(t) => {
                let v: serde_json::Value = serde_json::from_str(t).unwrap();
                assert_eq!(v["rs"], false);
                assert_eq!(v["detail"], format!("Invalid json:{}", reason));
            }
            other => panic!("{:?}", other),
        }
    }
}

#[test]
fn ping_is_answered_and_binary_echoed() {
    let pong = session().handle(SessionEvent::Ping(vec![1, 2, 3]));
    assert!(matches!(&pong[..], [SessionAction::Pong(b)] if b == &vec![1, 2, 3]));
    let echo = session().handle(SessionEvent::Binary(vec![9]));
    assert!(matches!(&echo[..], [SessionAction::Binary(b)] if b == &vec![9]));
}

#[test]
fn close_closes_with_the_reason() {
    let actions = session().handle(SessionEvent::Close);
    assert!(matches!(&actions[..], [SessionAction::Close(r)] if r == "reset by peer"));
    assert_eq!(CLOSE_REASON, "reset by peer");
}

#[test]
fn an_inbound_frame_is_written() {
    let actions = session().handle(SessionEvent::Inbound(InnerMessage("{\"a\":1}".to_string())));
    assert!(matches!(&actions[..], [SessionAction::Text(t)] if t == "{\"a\":1}"));
}

#[test]
fn other_frames_are_ignored_and_the_end_unsubscribes() {
    assert!(session().handle(SessionEvent::Other).is_empty());
    let actions = session().handle(SessionEvent::Stopped);
    assert!(matches!(&actions[..], [SessionAction::Unsubscribe { client_id }] if client_id == "c1"));
}
