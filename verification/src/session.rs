//! The session adapter: what a connection does on each thing that happens
//! to it.
//!
//! The session neither reads a socket nor reaches the dispatcher itself: it
//! takes an event and names the actions that answer it, in their order.

use crate::envelope::{
    encode_reply, reply_json, same_text, texts_view, ErrResp, InnerMessage, Message, MessageView,
};
use vstd::prelude::*;
use vstd::string::*;

verus! {

/// The frame that greets a client.
pub const CONNECTED: &'static str = "{\"rs\":true,\"detail\":\"connected\"}";

/// The frame that confirms a subscription.
pub const SUBSCRIBED: &'static str = "{\"rs\":true,\"detail\":\"Subscribe Success\"}";

/// The control command that subscribes.
pub const SUBSCRIBE: &'static str = "subscribe";

/// What the detail of the reply to a malformed frame starts with.
pub const INVALID_JSON: &'static str = "Invalid json:";

/// The reason given when the session closes.
pub const CLOSE_REASON: &'static str = "reset by peer";

/// The number of inbound frames that a session's mailbox holds.
pub const SESSION_MAILBOX: usize = 65536;

/// The greatest size of a frame, in bytes.
pub const MAX_FRAME_SIZE: usize = 128_384;

/// One connection.
#[derive(Debug)]
pub struct WsSession {
    pub client_id: String,
}

/// What happened to a session.
#[derive(Debug)]
pub enum SessionEvent {
    /// The connection stands.
    Started,
    /// A text frame came that is an envelope.
    Envelope(Message),
    /// A text frame came that is no envelope; the parser's reason.
    Malformed(String),
    /// A ping came.
    Ping(Vec<u8>),
    /// A binary frame came.
    Binary(Vec<u8>),
    /// The client closes.
    Close,
    /// The consumer hands a frame over.
    Inbound(InnerMessage),
    /// A frame of another kind came.
    Other,
    /// The connection is gone.
    Stopped,
}

/// What a session is to do.
#[derive(Debug)]
pub enum SessionAction {
    /// Write a text frame.
    Text(String),
    /// Answer a ping with its payload.
    Pong(Vec<u8>),
    /// Write a binary frame.
    Binary(Vec<u8>),
    /// Close normally, with a reason.
    Close(String),
    /// Subscribe the client at the dispatcher.
    Subscribe { client_id: String, topics: Vec<String>, offset: u64 },
    /// Publish an envelope at the dispatcher.
    Publish(Message),
    /// Forget the client at the dispatcher.
    Unsubscribe { client_id: String },
}

/// An event, as plain values.
pub enum SessionEventView {
    Started,
    Envelope(MessageView),
    Malformed(Seq<char>),
    Ping(Seq<u8>),
    Binary(Seq<u8>),
    Close,
    Inbound(Seq<char>),
    Other,
    Stopped,
}

/// An action, as plain values.
pub enum SessionActionView {
    Text(Seq<char>),
    Pong(Seq<u8>),
    Binary(Seq<u8>),
    Close(Seq<char>),
    Subscribe { client_id: Seq<char>, topics: Seq<Seq<char>>, offset: u64 },
    Publish(MessageView),
    Unsubscribe { client_id: Seq<char> },
}

impl View for SessionEvent {
    type V = SessionEventView;

    open spec fn view(&self) -> SessionEventView {
        match *self {
            SessionEvent::Started => SessionEventView::Started,
            SessionEvent::Envelope(m) => SessionEventView::Envelope(m@),
            SessionEvent::Malformed(reason) => SessionEventView::Malformed(reason@),
            SessionEvent::Ping(b) => SessionEventView::Ping(b@),
            SessionEvent::Binary(b) => SessionEventView::Binary(b@),
            SessionEvent::Close => SessionEventView::Close,
            SessionEvent::Inbound(m) => SessionEventView::Inbound(m.0@),
            SessionEvent::Other => SessionEventView::Other,
            SessionEvent::Stopped => SessionEventView::Stopped,
        }
    }
}

impl View for SessionAction {
    type V = SessionActionView;

    open spec fn view(&self) -> SessionActionView {
        match *self {
            SessionAction::Text(t) => SessionActionView::Text(t@),
            SessionAction::Pong(b) => SessionActionView::Pong(b@),
            SessionAction::Binary(b) => SessionActionView::Binary(b@),
            SessionAction::Close(reason) => SessionActionView::Close(reason@),
            SessionAction::Subscribe { client_id, topics, offset } => SessionActionView::Subscribe {
                client_id: client_id@,
                topics: texts_view(topics@),
                offset,
            },
            SessionAction::Publish(m) => SessionActionView::Publish(m@),
            SessionAction::Unsubscribe { client_id } => SessionActionView::Unsubscribe {
                client_id: client_id@,
            },
        }
    }
}

/// The actions of `v`, as plain values.
pub open spec fn actions_view(v: Seq<SessionAction>) -> Seq<SessionActionView> {
    Seq::new(v.len(), |i: int| v[i]@)
}

/// What subscribing asks for: a `subscribe` command subscribes the client to
/// its parameters (none, if it has none) from its offset (`0`, if it has
/// none), and is confirmed; any other command does nothing.
pub open spec fn command_actions(client_id: Seq<char>, m: MessageView) -> Seq<SessionActionView> {
    if m.cmd == Some(SUBSCRIBE@) {
        seq![
            SessionActionView::Subscribe {
                client_id,
                topics: match m.params {
                    Some(p) => p,
                    None => Seq::empty(),
                },
                offset: match m.offset {
                    Some(o) => o,
                    None => 0,
                },
            },
            SessionActionView::Text(SUBSCRIBED@),
        ]
    } else {
        Seq::empty()
    }
}

/// What an envelope asks for: first what its command asks for, then, if it
/// has a topic, that it be published.
pub open spec fn envelope_actions(client_id: Seq<char>, m: MessageView) -> Seq<SessionActionView> {
    if m.topic is Some {
        command_actions(client_id, m).push(SessionActionView::Publish(m))
    } else {
        command_actions(client_id, m)
    }
}

/// The detail of the reply to a malformed frame.
pub open spec fn malformed_detail(reason: Seq<char>) -> Seq<char> {
    INVALID_JSON@ + reason
}

/// What answers an event.
pub open spec fn event_actions(client_id: Seq<char>, ev: SessionEventView) -> Seq<
    SessionActionView,
> {
    match ev {
        SessionEventView::Started => seq![SessionActionView::Text(CONNECTED@)],
        SessionEventView::Envelope(m) => envelope_actions(client_id, m),
        SessionEventView::Malformed(reason) => seq![
            SessionActionView::Text(reply_json(false, malformed_detail(reason))),
        ],
        SessionEventView::Ping(b) => seq![SessionActionView::Pong(b)],
        SessionEventView::Binary(b) => seq![SessionActionView::Binary(b)],
        SessionEventView::Close => seq![SessionActionView::Close(CLOSE_REASON@)],
        SessionEventView::Inbound(t) => seq![SessionActionView::Text(t)],
        SessionEventView::Other => Seq::empty(),
        SessionEventView::Stopped => seq![SessionActionView::Unsubscribe { client_id }],
    }
}

impl WsSession {
    /// What a control frame does.
    pub fn process_command(&self, message: &Message) -> (r: Vec<SessionAction>)
        ensures
            actions_view(r@) == command_actions(self.client_id@, message@),
    {
        let mut r: Vec<SessionAction> = Vec::new();
        let subscribes = match &message.cmd {
            Some(c) => same_text(c.as_str(), SUBSCRIBE),
            None => false,
        };
        if subscribes {
            let topics = match message.got_params() {
                Some(p) => p,
                None => Vec::new(),
            };
            let offset: u64 = match message.got_offset() {
                Some(o) => o,
                None => 0,
            };
            proof {
                assert(texts_view(topics@) =~= match message@.params {
                    Some(p) => p,
                    None => Seq::empty(),
                });
            }
            r.push(SessionAction::Subscribe { client_id: self.client_id.clone(), topics, offset });
            r.push(SessionAction::Text(String::from_str(SUBSCRIBED)));
        }
        proof {
            assert(actions_view(r@) =~= command_actions(self.client_id@, message@));
        }
        r
    }

    /// What an envelope from the client does: a control frame is carried
    /// out, and an envelope with a topic is published.
    pub fn process_message(&self, message: Message) -> (r: Vec<SessionAction>)
        ensures
            actions_view(r@) == envelope_actions(self.client_id@, message@),
    {
        let mut r = self.process_command(&message);
        let ghost before = actions_view(r@);
        if message.topic.is_some() {
            r.push(SessionAction::Publish(message));
            proof {
                assert(actions_view(r@) =~= before.push(SessionActionView::Publish(message@)));
            }
        }
        r
    }

    /// What the session does on `event`. A malformed frame is answered with
    /// one reply, whose detail is `Invalid json:` and the parser's reason;
    /// nothing else is done for it.
    pub fn handle(&self, event: SessionEvent) -> (r: Vec<SessionAction>)
        ensures
            actions_view(r@) == event_actions(self.client_id@, event@),
    {
        let mut r: Vec<SessionAction> = Vec::new();
        match event {
            SessionEvent::Started => {
                r.push(SessionAction::Text(String::from_str(CONNECTED)));
                proof {
                    assert(actions_view(r@) =~= seq![SessionActionView::Text(CONNECTED@)]);
                }
                r
            },
            SessionEvent::Envelope(m) => self.process_message(m),
            SessionEvent::Malformed(reason) => {
                let mut detail = String::from_str(INVALID_JSON);
                detail.append(reason.as_str());
                let reply = ErrResp { rs: false, detail };
                let text = encode_reply(&reply);
                let ghost shown = text@;
                r.push(SessionAction::Text(text));
                proof {
                    assert(actions_view(r@) =~= seq![SessionActionView::Text(shown)]);
                }
                r
            },
            SessionEvent::Ping(b) => {
                let ghost bytes = b@;
                r.push(SessionAction::Pong(b));
                proof {
                    assert(actions_view(r@) =~= seq![SessionActionView::Pong(bytes)]);
                }
                r
            },
            SessionEvent::Binary(b) => {
                let ghost bytes = b@;
                r.push(SessionAction::Binary(b));
                proof {
                    assert(actions_view(r@) =~= seq![SessionActionView::Binary(bytes)]);
                }
                r
            },
            SessionEvent::Close => {
                r.push(SessionAction::Close(String::from_str(CLOSE_REASON)));
                proof {
                    assert(actions_view(r@) =~= seq![SessionActionView::Close(CLOSE_REASON@)]);
                }
                r
            },
            SessionEvent::Inbound(m) => {
                let ghost text = m.0@;
                r.push(SessionAction::Text(m.0));
                proof {
                    assert(actions_view(r@) =~= seq![SessionActionView::Text(text)]);
                }
                r
            },
            SessionEvent::Other => {
                proof {
                    assert(actions_view(r@) =~= Seq::empty());
                }
                r
            },
            SessionEvent::Stopped => {
                r.push(SessionAction::Unsubscribe { client_id: self.client_id.clone() });
                proof {
                    assert(actions_view(r@) =~= seq![
                        SessionActionView::Unsubscribe { client_id: self.client_id@ },
                    ]);
                }
                r
            },
        }
    }
}

} // verus!
