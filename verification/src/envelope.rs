//! The message envelope and its JSON text.

use vstd::prelude::*;
use vstd::string::*;

verus! {

/// A message envelope: what a client publishes, what a subscriber receives,
/// and, with `cmd` set, a control frame.
#[derive(Debug, Clone)]
pub struct Message {
    pub uid: String,
    pub topic: Option<String>,
    pub payload: Option<String>,
    pub key: Option<String>,
    pub cmd: Option<String>,
    pub params: Option<Vec<String>>,
    pub offset: Option<u64>,
    pub nonce: Option<u64>,
}

/// An envelope, as plain values.
pub struct MessageView {
    pub uid: Seq<char>,
    pub topic: Option<Seq<char>>,
    pub payload: Option<Seq<char>>,
    pub key: Option<Seq<char>>,
    pub cmd: Option<Seq<char>>,
    pub params: Option<Seq<Seq<char>>>,
    pub offset: Option<u64>,
    pub nonce: Option<u64>,
}

/// The text of an optional string.
pub open spec fn text_view(s: Option<String>) -> Option<Seq<char>> {
    match s {
        Some(t) => Some(t@),
        None => None,
    }
}

/// The texts of a list of strings.
pub open spec fn texts_view(v: Seq<String>) -> Seq<Seq<char>> {
    Seq::new(v.len(), |i: int| v[i]@)
}

impl View for Message {
    type V = MessageView;

    open spec fn view(&self) -> MessageView {
        MessageView {
            uid: self.uid@,
            topic: text_view(self.topic),
            payload: text_view(self.payload),
            key: text_view(self.key),
            cmd: text_view(self.cmd),
            params: match self.params {
                Some(p) => Some(texts_view(p@)),
                None => None,
            },
            offset: self.offset,
            nonce: self.nonce,
        }
    }
}

/// A reply to a client: whether its request was taken, and a detail.
#[derive(Debug, Clone)]
pub struct ErrResp {
    pub rs: bool,
    pub detail: String,
}

/// A control command with its parameters.
#[derive(Debug, Clone)]
pub struct Command {
    pub cmd: String,
    pub params: Vec<String>,
}

/// A frame on its way to a session: the JSON text of a stored envelope.
#[derive(Debug, Clone)]
pub struct InnerMessage(pub String);

/// The pretty-printed JSON text of an envelope.
pub uninterp spec fn envelope_json(m: MessageView) -> Seq<char>;

/// The compact JSON text of a reply.
pub uninterp spec fn reply_json(rs: bool, detail: Seq<char>) -> Seq<char>;

/// Whether two texts are the same.
pub fn same_text(a: &str, b: &str) -> (r: bool)
    ensures
        r == (a@ == b@),
{
    let x = String::from_str(a);
    let y = String::from_str(b);
    x == y
}

/// A copy of `s`.
pub fn copy_text(s: &Option<String>) -> (r: Option<String>)
    ensures
        r == *s,
{
    match s {
        Some(t) => Some(t.clone()),
        None => None,
    }
}

/// A copy of `v`.
pub fn copy_texts(v: &Vec<String>) -> (r: Vec<String>)
    ensures
        r@ == v@,
{
    let mut r: Vec<String> = Vec::new();
    let mut i: usize = 0;
    while i < v.len()
        invariant
            i <= v.len(),
            r@ == v@.subrange(0, i as int),
        decreases v.len() - i,
    {
        r.push(v[i].clone());
        i = i + 1;
        proof {
            assert(r@ =~= v@.subrange(0, i as int));
        }
    }
    proof {
        assert(v@.subrange(0, v.len() as int) =~= v@);
    }
    r
}

impl Message {
    /// The topic, if the envelope has one.
    pub fn got_topic(&self) -> (r: Option<String>)
        ensures
            r == self.topic,
    {
        copy_text(&self.topic)
    }

    /// The control command, if the envelope is a control frame.
    pub fn got_cmd(&self) -> (r: Option<String>)
        ensures
            r == self.cmd,
    {
        copy_text(&self.cmd)
    }

    /// The offset, if the envelope names one.
    pub fn got_offset(&self) -> (r: Option<u64>)
        ensures
            r == self.offset,
    {
        self.offset
    }

    /// The parameters, if the envelope has any.
    pub fn got_params(&self) -> (r: Option<Vec<String>>)
        ensures
            r is Some == self.params is Some,
            r matches Some(p) ==> p@ == self.params->0@,
    {
        match &self.params {
            Some(p) => Some(copy_texts(p)),
            None => None,
        }
    }

    /// Seals the envelope with its nonce.
    pub fn set_nonce(&mut self, nonce: u64)
        ensures
            final(self).nonce == Some(nonce),
            final(self).uid == old(self).uid,
            final(self).topic == old(self).topic,
            final(self).payload == old(self).payload,
            final(self).key == old(self).key,
            final(self).cmd == old(self).cmd,
            final(self).params == old(self).params,
            final(self).offset == old(self).offset,
    {
        self.nonce = Some(nonce);
    }
}

/// The envelope as pretty-printed JSON.
///
/// Trusted, not proved: builds a `serde_json::Value` object of the eight
/// fields, in their order, an absent one as `null`, and calls
/// `serde_json::to_string_pretty` on it. The text depends on the fields
/// alone. The encoder fails only on a writer that fails or on a key that is
/// no string; it writes to memory here, and the keys are the field names.
#[verifier::external_body]
pub(crate) fn encode_envelope(m: &Message) -> (s: String)
    ensures
        s@ == envelope_json(m@),
{
    let fields: [(&str, serde_json::Value); 8] = [
        ("uid", m.uid.clone().into()),
        ("topic", m.topic.clone().into()),
        ("payload", m.payload.clone().into()),
        ("key", m.key.clone().into()),
        ("cmd", m.cmd.clone().into()),
        ("params", m.params.clone().into()),
        ("offset", m.offset.into()),
        ("nonce", m.nonce.into()),
    ];
    serde_json::to_string_pretty(&serde_json::Value::from_iter(fields)).unwrap_or_default()
}

/// The reply as compact JSON.
///
/// Trusted, not proved: builds a `serde_json::Value` object of the two
/// fields, in their order, and calls `serde_json::to_string` on it. The text
/// depends on the fields alone. The encoder fails only on a writer that
/// fails or on a key that is no string; it writes to memory here, and the
/// keys are the field names.
#[verifier::external_body]
pub(crate) fn encode_reply(r: &ErrResp) -> (s: String)
    ensures
        s@ == reply_json(r.rs, r.detail@),
{
    let fields: [(&str, serde_json::Value); 2] = [
        ("rs", r.rs.into()),
        ("detail", r.detail.clone().into()),
    ];
    serde_json::to_string(&serde_json::Value::from_iter(fields)).unwrap_or_default()
}

} // verus!
