//! The partition consumer: who is subscribed to what, from which offset, and
//! the pass that hands each subscriber the records it is owed.
//!
//! The consumer neither reads the store nor reaches a session itself. A pass
//! is a run of steps: each step takes the outcome of the action before it and
//! names the next action, until the pass ends in a wait.

use crate::codec::copy_bytes;
use crate::envelope::{same_text, texts_view};
use crate::storage::{nonce_of, scan_spec, RecordView, ScanRecord, StorageActor, StoreView};
use vstd::prelude::*;
use vstd::string::*;
use vstd::utf8::*;

verus! {

/// The wait before the next pass when nobody is subscribed, in milliseconds.
pub const IDLE_WAIT: u64 = 500;

/// The wait before the next pass after one that handed something off.
pub const BUSY_WAIT: u64 = 100;

/// The wait before the next pass after one that handed nothing off.
pub const QUIET_WAIT: u64 = 200;

/// One subscriber: its id, the handle of its session, its topics and the
/// offset from which it is served.
#[derive(Debug)]
pub struct Registration<S> {
    pub client_id: String,
    pub socket: S,
    pub topics: Vec<String>,
    pub offset: u64,
}

/// A registration, as plain values.
pub struct RegistrationView<S> {
    pub client_id: Seq<char>,
    pub socket: S,
    pub topics: Seq<Seq<char>>,
    pub offset: u64,
}

impl<S> View for Registration<S> {
    type V = RegistrationView<S>;

    open spec fn view(&self) -> RegistrationView<S> {
        RegistrationView {
            client_id: self.client_id@,
            socket: self.socket,
            topics: texts_view(self.topics@),
            offset: self.offset,
        }
    }
}

/// The command to subscribe a client, or to subscribe it to more.
#[derive(Debug)]
pub struct RegisterCmd<S> {
    pub topics: Vec<String>,
    pub client_id: String,
    pub offset: u64,
    pub addr: S,
}

/// The command to forget a client.
#[derive(Debug)]
pub struct ClearConnCmd {
    pub client_id: String,
}

/// A record made ready for a session: its text, and the data key by which
/// its nonce is found again.
#[derive(Debug)]
pub struct Frame {
    pub data_key: Vec<u8>,
    pub text: String,
}

/// A frame, as plain values.
pub struct FrameView {
    pub data_key: Seq<u8>,
    pub text: Seq<char>,
}

impl View for Frame {
    type V = FrameView;

    open spec fn view(&self) -> FrameView {
        FrameView { data_key: self.data_key@, text: self.text@ }
    }
}

/// The frames of `v`, as plain values.
pub open spec fn frames_view(v: Seq<Frame>) -> Seq<FrameView> {
    Seq::new(v.len(), |i: int| v[i]@)
}

/// Where a pass stands.
#[derive(Debug)]
pub enum Phase {
    /// No pass is under way.
    Idle,
    /// A scan of topic `topic` of registration `reg` was asked for.
    Scanning { reg: usize, topic: usize, any: bool },
    /// Frame `next` of `frames` was handed to the session of `reg`.
    Delivering { reg: usize, topic: usize, frames: Vec<Frame>, next: usize, any: bool },
    /// The nonce of the last frame that was taken was asked for.
    Advancing { reg: usize, topic: usize, stop: bool, any: bool },
}

/// A phase, as plain values.
pub enum PhaseView {
    Idle,
    Scanning { reg: int, topic: int, any: bool },
    Delivering { reg: int, topic: int, frames: Seq<FrameView>, next: int, any: bool },
    Advancing { reg: int, topic: int, stop: bool, any: bool },
}

impl View for Phase {
    type V = PhaseView;

    open spec fn view(&self) -> PhaseView {
        match *self {
            Phase::Idle => PhaseView::Idle,
            Phase::Scanning { reg, topic, any } => PhaseView::Scanning {
                reg: reg as int,
                topic: topic as int,
                any,
            },
            Phase::Delivering { reg, topic, frames, next, any } => PhaseView::Delivering {
                reg: reg as int,
                topic: topic as int,
                frames: frames_view(frames@),
                next: next as int,
                any,
            },
            Phase::Advancing { reg, topic, stop, any } => PhaseView::Advancing {
                reg: reg as int,
                topic: topic as int,
                stop,
                any,
            },
        }
    }
}

/// What happened to the action that the consumer named last.
#[derive(Debug)]
pub enum ConsumerEvent {
    /// The wait is over.
    Tick,
    /// The scan gave these records, or failed.
    Scanned(Option<Vec<ScanRecord>>),
    /// The session took the frame.
    Accepted,
    /// The session's mailbox was full.
    Rejected,
    /// The nonce index gave this nonce, or none.
    Nonce(Option<u64>),
}

/// An event, as plain values.
pub enum EventView {
    Tick,
    Scanned(Option<Seq<RecordView>>),
    Accepted,
    Rejected,
    Nonce(Option<u64>),
}

impl View for ConsumerEvent {
    type V = EventView;

    open spec fn view(&self) -> EventView {
        match *self {
            ConsumerEvent::Tick => EventView::Tick,
            ConsumerEvent::Scanned(r) => EventView::Scanned(
                match r {
                    Some(v) => Some(crate::storage::records_view(v@)),
                    None => None,
                },
            ),
            ConsumerEvent::Accepted => EventView::Accepted,
            ConsumerEvent::Rejected => EventView::Rejected,
            ConsumerEvent::Nonce(n) => EventView::Nonce(n),
        }
    }
}

/// What is to be done next.
#[derive(Debug)]
pub enum ConsumerAction {
    /// Wait so many milliseconds, then send `Tick`.
    Wait(u64),
    /// Scan `topic` from `offset`, then send `Scanned`.
    Scan { topic: String, offset: u64 },
    /// Offer `frame` to the session of registration `reg`, then send
    /// `Accepted` or `Rejected`.
    Deliver { reg: usize, frame: String },
    /// Look the nonce of `data_key` up, then send `Nonce`.
    Lookup { data_key: Vec<u8> },
}

/// What a poll came to.
#[derive(Debug)]
pub struct Polled {
    /// The frame to offer, or the wait that ends the pass.
    pub action: ConsumerAction,
    /// Whether the engine failed on the way.
    pub faulted: bool,
}

/// An action, as plain values.
pub enum ActionView {
    Wait(u64),
    Scan { topic: Seq<char>, offset: u64 },
    Deliver { reg: int, frame: Seq<char> },
    Lookup { data_key: Seq<u8> },
}

impl View for ConsumerAction {
    type V = ActionView;

    open spec fn view(&self) -> ActionView {
        match *self {
            ConsumerAction::Wait(ms) => ActionView::Wait(ms),
            ConsumerAction::Scan { topic, offset } => ActionView::Scan { topic: topic@, offset },
            ConsumerAction::Deliver { reg, frame } => ActionView::Deliver {
                reg: reg as int,
                frame: frame@,
            },
            ConsumerAction::Lookup { data_key } => ActionView::Lookup { data_key: data_key@ },
        }
    }
}

/// The state of a consumer, as plain values.
pub struct ConsumerView<S> {
    pub regs: Seq<RegistrationView<S>>,
    pub phase: PhaseView,
}

// ---------------------------------------------------------------------------
// What the consumer does, on plain values
// ---------------------------------------------------------------------------

/// The index of the first registration of `client_id` at or after `i`, or
/// the number of registrations if there is none.
pub open spec fn index_from<S>(regs: Seq<RegistrationView<S>>, client_id: Seq<char>, i: int) -> int
    decreases regs.len() - i,
{
    if 0 <= i < regs.len() && regs[i].client_id != client_id {
        index_from(regs, client_id, i + 1)
    } else {
        i
    }
}

/// The index of the registration of `client_id`, or the number of
/// registrations if it has none.
pub open spec fn index_of<S>(regs: Seq<RegistrationView<S>>, client_id: Seq<char>) -> int {
    index_from(regs, client_id, 0)
}

/// No client is registered twice.
pub open spec fn distinct_clients<S>(regs: Seq<RegistrationView<S>>) -> bool {
    forall|i: int, j: int|
        #![trigger regs[i], regs[j]]
        0 <= i < j < regs.len() ==> regs[i].client_id != regs[j].client_id
}

/// The registrations after `client_id` subscribed: a new client is added
/// last, with the topics as given; for a known client the socket and the
/// offset are replaced, and the topics are put before those it had, the
/// last given first.
pub open spec fn register_spec<S>(
    regs: Seq<RegistrationView<S>>,
    client_id: Seq<char>,
    socket: S,
    topics: Seq<Seq<char>>,
    offset: u64,
) -> Seq<RegistrationView<S>> {
    let i = index_of(regs, client_id);
    if i < regs.len() {
        regs.update(
            i,
            RegistrationView { client_id, socket, topics: topics.reverse() + regs[i].topics, offset },
        )
    } else {
        regs.push(RegistrationView { client_id, socket, topics, offset })
    }
}

/// The registrations after `client_id` was forgotten.
pub open spec fn clear_spec<S>(regs: Seq<RegistrationView<S>>, client_id: Seq<char>) -> Seq<
    RegistrationView<S>,
> {
    let i = index_of(regs, client_id);
    if i < regs.len() {
        regs.remove(i)
    } else {
        regs
    }
}

/// The frames that `records` give, in their order; a record whose payload is
/// not UTF-8 text gives none.
pub open spec fn text_frames(records: Seq<RecordView>) -> Seq<FrameView>
    decreases records.len(),
{
    if records.len() == 0 {
        Seq::empty()
    } else {
        let rest = text_frames(records.drop_last());
        let r = records.last();
        if valid_utf8(r.payload) {
            rest.push(FrameView { data_key: r.data_key, text: decode_utf8(r.payload) })
        } else {
            rest
        }
    }
}

/// The first topic to visit at or after topic `topic` of registration `reg`:
/// that topic if the registration has it, else the first topic of the next
/// registration that has any.
pub open spec fn next_visit<S>(regs: Seq<RegistrationView<S>>, reg: int, topic: int) -> Option<
    (int, int),
>
    decreases regs.len() - reg,
{
    if reg < 0 || reg >= regs.len() {
        None
    } else if 0 <= topic < regs[reg].topics.len() {
        Some((reg, topic))
    } else {
        next_visit(regs, reg + 1, 0)
    }
}

/// The offset of a subscriber after the record with nonce `nonce` was handed
/// to it: one past the nonce (the greatest nonce has nothing past it), and
/// never lower than before.
pub open spec fn advance_offset(offset: u64, nonce: u64) -> u64 {
    let past = if nonce < u64::MAX {
        (nonce + 1) as u64
    } else {
        u64::MAX
    };
    if past > offset {
        past
    } else {
        offset
    }
}

/// The pass goes on at topic `topic` of registration `reg`: the next topic
/// to visit is scanned, and when none is left the pass ends in a wait.
pub open spec fn enter<S>(regs: Seq<RegistrationView<S>>, reg: int, topic: int, any: bool) -> (
    ConsumerView<S>,
    ActionView,
) {
    match next_visit(regs, reg, topic) {
        Some((r, t)) => (
            ConsumerView { regs, phase: PhaseView::Scanning { reg: r, topic: t, any } },
            ActionView::Scan { topic: regs[r].topics[t], offset: regs[r].offset },
        ),
        None => (
            ConsumerView { regs, phase: PhaseView::Idle },
            ActionView::Wait(
                if any {
                    BUSY_WAIT
                } else {
                    QUIET_WAIT
                },
            ),
        ),
    }
}

/// One step of the consumer: the state and the action that follow state `c`
/// and event `ev`.
///
/// * Idle, on a tick: with nobody subscribed, wait; else start a pass at the
///   first topic of the first registration.
/// * A scan came back: with frames to hand off, offer the first; with none,
///   or after a failure, go on to the next topic.
/// * The session took a frame: offer the next; after the last, ask for its
///   nonce.
/// * The session's mailbox was full: leave the registration for this pass;
///   if it took a frame before, ask for that frame's nonce first.
/// * A nonce came back: the registration's offset moves past it; without a
///   nonce it stays. Then go on, to the next topic or the next registration.
/// * An event that does not answer the action before it ends the pass.
pub open spec fn step_spec<S>(c: ConsumerView<S>, ev: EventView) -> (ConsumerView<S>, ActionView) {
    match (c.phase, ev) {
        (PhaseView::Idle, EventView::Tick) => {
            if c.regs.len() == 0 {
                (c, ActionView::Wait(IDLE_WAIT))
            } else {
                enter(c.regs, 0, 0, false)
            }
        },
        (PhaseView::Scanning { reg, topic, any }, EventView::Scanned(Some(records))) => {
            let frames = text_frames(records);
            if frames.len() == 0 {
                enter(c.regs, reg, topic + 1, any)
            } else {
                (
                    ConsumerView {
                        regs: c.regs,
                        phase: PhaseView::Delivering { reg, topic, frames, next: 0, any },
                    },
                    ActionView::Deliver { reg, frame: frames[0].text },
                )
            }
        },
        (PhaseView::Scanning { reg, topic, any }, EventView::Scanned(None)) => enter(
            c.regs,
            reg,
            topic + 1,
            any,
        ),
        (PhaseView::Delivering { reg, topic, frames, next, any }, EventView::Accepted) => {
            if next + 1 < frames.len() {
                (
                    ConsumerView {
                        regs: c.regs,
                        phase: PhaseView::Delivering {
                            reg,
                            topic,
                            frames,
                            next: next + 1,
                            any: true,
                        },
                    },
                    ActionView::Deliver { reg, frame: frames[next + 1].text },
                )
            } else {
                (
                    ConsumerView {
                        regs: c.regs,
                        phase: PhaseView::Advancing { reg, topic, stop: false, any: true },
                    },
                    ActionView::Lookup { data_key: frames[next].data_key },
                )
            }
        },
        (PhaseView::Delivering { reg, topic, frames, next, any }, EventView::Rejected) => {
            if next == 0 {
                enter(c.regs, reg + 1, 0, any)
            } else {
                (
                    ConsumerView {
                        regs: c.regs,
                        phase: PhaseView::Advancing { reg, topic, stop: true, any },
                    },
                    ActionView::Lookup { data_key: frames[next - 1].data_key },
                )
            }
        },
        (PhaseView::Advancing { reg, topic, stop, any }, EventView::Nonce(n)) => {
            let regs = match n {
                Some(v) => c.regs.update(
                    reg,
                    RegistrationView {
                        client_id: c.regs[reg].client_id,
                        socket: c.regs[reg].socket,
                        topics: c.regs[reg].topics,
                        offset: advance_offset(c.regs[reg].offset, v),
                    },
                ),
                None => c.regs,
            };
            if stop {
                enter(regs, reg + 1, 0, any)
            } else {
                enter(regs, reg, topic + 1, any)
            }
        },
        _ => (ConsumerView { regs: c.regs, phase: PhaseView::Idle }, ActionView::Wait(QUIET_WAIT)),
    }
}

/// The phase points at a registration and a topic that exist, and at a frame
/// that is there.
pub open spec fn phase_fits<S>(regs: Seq<RegistrationView<S>>, phase: PhaseView) -> bool {
    match phase {
        PhaseView::Idle => true,
        PhaseView::Scanning { reg, topic, any } => 0 <= reg < regs.len() && 0 <= topic
            < regs[reg].topics.len(),
        PhaseView::Delivering { reg, topic, frames, next, any } => 0 <= reg < regs.len() && 0
            <= topic < regs[reg].topics.len() && 0 <= next < frames.len(),
        PhaseView::Advancing { reg, topic, stop, any } => 0 <= reg < regs.len() && 0 <= topic
            < regs[reg].topics.len(),
    }
}

/// A consumer state is well formed: no client is registered twice, and the
/// phase fits the registrations.
pub open spec fn well_formed<S>(c: ConsumerView<S>) -> bool {
    distinct_clients(c.regs) && phase_fits(c.regs, c.phase)
}

proof fn lemma_index_from<S>(regs: Seq<RegistrationView<S>>, client_id: Seq<char>, i: int)
    requires
        0 <= i <= regs.len(),
    ensures
        ({
            let k = index_from(regs, client_id, i);
            &&& i <= k <= regs.len()
            &&& forall|j: int| i <= j < k ==> (#[trigger] regs[j]).client_id != client_id
            &&& k < regs.len() ==> regs[k].client_id == client_id
        }),
    decreases regs.len() - i,
{
    if i < regs.len() && regs[i].client_id != client_id {
        lemma_index_from(regs, client_id, i + 1);
    }
}

/// What `next_visit` finds exists, and lies at or after where the search
/// began.
pub proof fn lemma_next_visit<S>(regs: Seq<RegistrationView<S>>, reg: int, topic: int)
    requires
        0 <= reg,
        0 <= topic,
    ensures
        next_visit(regs, reg, topic) matches Some((r, t)) ==> {
            &&& reg <= r < regs.len()
            &&& 0 <= t < regs[r].topics.len()
            &&& r == reg ==> t == topic
        },
    decreases regs.len() - reg,
{
    if reg < regs.len() && !(topic < regs[reg].topics.len()) {
        lemma_next_visit(regs, reg + 1, 0);
    }
}

/// Registering keeps the clients distinct.
pub proof fn lemma_register_distinct<S>(
    regs: Seq<RegistrationView<S>>,
    client_id: Seq<char>,
    socket: S,
    topics: Seq<Seq<char>>,
    offset: u64,
)
    requires
        distinct_clients(regs),
    ensures
        distinct_clients(register_spec(regs, client_id, socket, topics, offset)),
{
    lemma_index_from(regs, client_id, 0);
    let out = register_spec(regs, client_id, socket, topics, offset);
    let k = index_of(regs, client_id);
    assert forall|i: int, j: int|
        #![trigger out[i], out[j]]
        0 <= i < j < out.len() implies out[i].client_id != out[j].client_id by {
        if k < regs.len() {
            assert(out[i].client_id == regs[i].client_id);
            assert(out[j].client_id == regs[j].client_id);
        } else if j < regs.len() {
            assert(out[i].client_id == regs[i].client_id);
            assert(out[j].client_id == regs[j].client_id);
        } else {
            assert(out[i].client_id == regs[i].client_id);
        }
    }
}

/// Forgetting a client keeps the others distinct, and leaves no registration
/// of the client.
pub proof fn lemma_clear_distinct<S>(regs: Seq<RegistrationView<S>>, client_id: Seq<char>)
    requires
        distinct_clients(regs),
    ensures
        distinct_clients(clear_spec(regs, client_id)),
        forall|i: int|
            0 <= i < clear_spec(regs, client_id).len() ==> (#[trigger] clear_spec(
                regs,
                client_id,
            )[i]).client_id != client_id,
{
    lemma_index_from(regs, client_id, 0);
    let out = clear_spec(regs, client_id);
    let k = index_of(regs, client_id);
    assert forall|i: int, j: int|
        #![trigger out[i], out[j]]
        0 <= i < j < out.len() implies out[i].client_id != out[j].client_id by {
        if k < regs.len() {
            let i0 = if i < k { i } else { i + 1 };
            let j0 = if j < k { j } else { j + 1 };
            assert(out[i] == regs[i0]);
            assert(out[j] == regs[j0]);
        }
    }
    assert forall|i: int| 0 <= i < out.len() implies (#[trigger] out[i]).client_id
        != client_id by {
        if k < regs.len() {
            let i0 = if i < k { i } else { i + 1 };
            assert(out[i] == regs[i0]);
            if i0 > k {
                assert(regs[k].client_id != regs[i0].client_id);
            }
        }
    }
}

/// A step keeps a well-formed state well formed.
pub proof fn lemma_step_well_formed<S>(c: ConsumerView<S>, ev: EventView)
    requires
        well_formed(c),
    ensures
        well_formed(step_spec(c, ev).0),
{
    let out = step_spec(c, ev).0;
    match (c.phase, ev) {
        (PhaseView::Idle, EventView::Tick) => {
            lemma_next_visit(c.regs, 0, 0);
        },
        (PhaseView::Scanning { reg, topic, any }, EventView::Scanned(_)) => {
            lemma_next_visit(c.regs, reg, topic + 1);
        },
        (PhaseView::Delivering { reg, topic, frames, next, any }, EventView::Accepted) => {},
        (PhaseView::Delivering { reg, topic, frames, next, any }, EventView::Rejected) => {
            lemma_next_visit(c.regs, reg + 1, 0);
        },
        (PhaseView::Advancing { reg, topic, stop, any }, EventView::Nonce(n)) => {
            let regs = out.regs;
            assert(regs.len() == c.regs.len());
            assert forall|i: int| 0 <= i < regs.len() implies (#[trigger] regs[i]).client_id
                == c.regs[i].client_id && regs[i].topics == c.regs[i].topics by {}
            assert(distinct_clients(regs)) by {
                assert forall|i: int, j: int|
                    #![trigger regs[i], regs[j]]
                    0 <= i < j < regs.len() implies regs[i].client_id != regs[j].client_id by {
                    assert(c.regs[i].client_id != c.regs[j].client_id);
                }
            }
            lemma_next_visit(regs, reg + 1, 0);
            lemma_next_visit(regs, reg, topic + 1);
        },
        _ => {},
    }
}

/// A step never lowers the offset of a registration, and changes neither
/// who is registered nor to what.
pub proof fn lemma_step_offsets<S>(c: ConsumerView<S>, ev: EventView)
    requires
        well_formed(c),
    ensures
        step_spec(c, ev).0.regs.len() == c.regs.len(),
        forall|i: int|
            0 <= i < c.regs.len() ==> {
                &&& (#[trigger] step_spec(c, ev).0.regs[i]).offset >= c.regs[i].offset
                &&& step_spec(c, ev).0.regs[i].client_id == c.regs[i].client_id
                &&& step_spec(c, ev).0.regs[i].topics == c.regs[i].topics
                &&& step_spec(c, ev).0.regs[i].socket == c.regs[i].socket
            },
{
}

/// A full mailbox does not move the offset past the frame that was
/// refused: the offset moves only when a nonce comes back, and the nonce
/// asked for is that of the last frame that was taken.
pub proof fn lemma_rejected_keeps_offset<S>(c: ConsumerView<S>)
    requires
        well_formed(c),
        c.phase is Delivering,
    ensures
        step_spec(c, EventView::Rejected).0.regs == c.regs,
        c.phase->Delivering_next > 0 ==> step_spec(c, EventView::Rejected).1
            == (ActionView::Lookup {
            data_key: c.phase->Delivering_frames[c.phase->Delivering_next - 1].data_key,
        }),
        c.phase->Delivering_next == 0 ==> !(step_spec(c, EventView::Rejected).1 is Lookup),
{
}

/// Frames are offered one after the other, none left out: after frame
/// `next` was taken, the frame offered is frame `next + 1`.
pub proof fn lemma_accepted_offers_next<S>(c: ConsumerView<S>)
    requires
        well_formed(c),
        c.phase is Delivering,
        c.phase->Delivering_next + 1 < c.phase->Delivering_frames.len(),
    ensures
        step_spec(c, EventView::Accepted).1 == (ActionView::Deliver {
            reg: c.phase->Delivering_reg,
            frame: c.phase->Delivering_frames[c.phase->Delivering_next + 1].text,
        }),
        step_spec(c, EventView::Accepted).0.regs == c.regs,
{
}

/// The registrations `post` are the registrations `pre`, each served up to
/// an offset that is not lower than before.
pub open spec fn served<S>(pre: Seq<RegistrationView<S>>, post: Seq<RegistrationView<S>>) -> bool {
    &&& post.len() == pre.len()
    &&& forall|i: int|
        0 <= i < pre.len() ==> {
            &&& (#[trigger] post[i]).client_id == pre[i].client_id
            &&& post[i].socket == pre[i].socket
            &&& post[i].topics == pre[i].topics
            &&& post[i].offset >= pre[i].offset
        }
}

/// The action is the one that the phase waits on an answer to: a scan is
/// asked for while scanning, a nonce while advancing.
pub open spec fn coherent<S>(c: ConsumerView<S>, action: ActionView) -> bool {
    &&& well_formed(c)
    &&& action is Scan ==> c.phase is Scanning
    &&& action is Lookup ==> c.phase is Advancing
}

/// The registrations that a pass still has to visit, the one it stands at
/// counted in.
pub open spec fn regs_left<S>(c: ConsumerView<S>) -> int {
    match c.phase {
        PhaseView::Scanning { reg, topic, any } => c.regs.len() - reg,
        PhaseView::Advancing { reg, topic, stop, any } => c.regs.len() - reg,
        _ => 0,
    }
}

/// The topics that a pass still has to visit in the registration it stands
/// at, the one it stands at counted in.
pub open spec fn topics_left<S>(c: ConsumerView<S>) -> int {
    match c.phase {
        PhaseView::Scanning { reg, topic, any } => c.regs[reg].topics.len() - topic,
        PhaseView::Advancing { reg, topic, stop, any } => c.regs[reg].topics.len() - topic,
        _ => 0,
    }
}

/// What the store answers to a scan or to a lookup.
pub open spec fn answer(store: StoreView, action: ActionView) -> EventView {
    match action {
        ActionView::Scan { topic, offset } => EventView::Scanned(
            Some(scan_spec(store, encode_utf8(topic), offset)),
        ),
        ActionView::Lookup { data_key } => EventView::Nonce(nonce_of(store, data_key)),
        _ => EventView::Tick,
    }
}

/// The consumer goes on against the store until a session or the clock is
/// needed: a scan or a lookup is answered by the store, and the step that
/// follows is taken, up to the first frame to offer or the wait that ends
/// the pass.
pub open spec fn settle<S>(c: ConsumerView<S>, store: StoreView, action: ActionView) -> (
    ConsumerView<S>,
    ActionView,
)
    decreases regs_left(c), topics_left(c),
    when coherent(c, action)
{
    if action is Scan || action is Lookup {
        proof {
            lemma_answer_progress(c, answer(store, action));
        }
        let next = step_spec(c, answer(store, action));
        settle(next.0, store, next.1)
    } else {
        (c, action)
    }
}

/// What a read of the store that failed answers: no records, no nonce.
pub open spec fn no_answer(action: ActionView) -> EventView {
    match action {
        ActionView::Scan { topic, offset } => EventView::Scanned(None),
        ActionView::Lookup { data_key } => EventView::Nonce(None),
        _ => EventView::Tick,
    }
}

/// `out` is where the consumer may come to when it goes on against the
/// store and any read may fail: each scan and each lookup is answered by the
/// store or not at all, and the step that follows is taken, up to the first
/// frame to offer or the wait that ends the pass.
pub open spec fn may_settle<S>(
    c: ConsumerView<S>,
    store: StoreView,
    action: ActionView,
    out: (ConsumerView<S>, ActionView),
) -> bool
    decreases regs_left(c), topics_left(c),
    when coherent(c, action)
{
    if action is Scan || action is Lookup {
        proof {
            lemma_answer_progress(c, answer(store, action));
            lemma_answer_progress(c, no_answer(action));
        }
        let told = step_spec(c, answer(store, action));
        let failed = step_spec(c, no_answer(action));
        may_settle(told.0, store, told.1, out) || may_settle(failed.0, store, failed.1, out)
    } else {
        out == (c, action)
    }
}

/// `out` is what a poll may come to: one step on the event, then on against
/// the store, where any read may fail.
pub open spec fn may_poll<S>(
    c: ConsumerView<S>,
    store: StoreView,
    ev: EventView,
    out: (ConsumerView<S>, ActionView),
) -> bool {
    let first = step_spec(c, ev);
    may_settle(first.0, store, first.1, out)
}

/// What a poll does: one step on the event, then on against the store.
pub open spec fn poll_spec<S>(c: ConsumerView<S>, store: StoreView, ev: EventView) -> (
    ConsumerView<S>,
    ActionView,
) {
    let first = step_spec(c, ev);
    settle(first.0, store, first.1)
}

/// A step leaves a state and an action that fit each other.
pub proof fn lemma_step_coherent<S>(c: ConsumerView<S>, ev: EventView)
    requires
        well_formed(c),
    ensures
        coherent(step_spec(c, ev).0, step_spec(c, ev).1),
        served(c.regs, step_spec(c, ev).0.regs),
{
    lemma_step_well_formed(c, ev);
    lemma_step_offsets(c, ev);
}

/// An answer of the store takes the pass forward: to a later topic, to a
/// frame to offer, or to its end.
pub proof fn lemma_answer_progress<S>(c: ConsumerView<S>, ev: EventView)
    requires
        well_formed(c),
        (c.phase is Scanning && ev is Scanned) || (c.phase is Advancing && ev is Nonce),
    ensures
        coherent(step_spec(c, ev).0, step_spec(c, ev).1),
        regs_left(step_spec(c, ev).0) < regs_left(c) || (regs_left(step_spec(c, ev).0)
            == regs_left(c) && topics_left(step_spec(c, ev).0) < topics_left(c)),
{
    lemma_step_coherent(c, ev);
    let out = step_spec(c, ev).0;
    match (c.phase, ev) {
        (PhaseView::Scanning { reg, topic, any }, EventView::Scanned(_)) => {
            lemma_next_visit(c.regs, reg, topic + 1);
        },
        (PhaseView::Advancing { reg, topic, stop, any }, EventView::Nonce(n)) => {
            lemma_step_offsets(c, ev);
            lemma_next_visit(out.regs, reg + 1, 0);
            lemma_next_visit(out.regs, reg, topic + 1);
            assert(out.regs[reg].topics == c.regs[reg].topics);
        },
        _ => {},
    }
}

/// Whatever the store holds, going on against it ends with a frame to offer
/// or with a wait, and serves each registration no lower than before.
pub proof fn lemma_settle<S>(c: ConsumerView<S>, store: StoreView, action: ActionView)
    requires
        coherent(c, action),
    ensures
        well_formed(settle(c, store, action).0),
        settle(c, store, action).1 is Wait || settle(c, store, action).1 is Deliver,
        served(c.regs, settle(c, store, action).0.regs),
    decreases regs_left(c), topics_left(c),
{
    if action is Scan || action is Lookup {
        let ev = answer(store, action);
        lemma_answer_progress(c, ev);
        let next = step_spec(c, ev);
        lemma_settle(next.0, store, next.1);
        let last = settle(next.0, store, next.1).0;
        assert forall|i: int| 0 <= i < c.regs.len() implies {
            &&& (#[trigger] last.regs[i]).client_id == c.regs[i].client_id
            &&& last.regs[i].socket == c.regs[i].socket
            &&& last.regs[i].topics == c.regs[i].topics
            &&& last.regs[i].offset >= c.regs[i].offset
        } by {
            assert(next.0.regs[i].offset >= c.regs[i].offset);
        }
    }
}

/// The first frame that a pass offers a subscriber for a topic is the first
/// text frame of the scan of that topic from the subscriber's offset, and
/// its offset has not moved yet.
pub proof fn lemma_first_offer<S>(c: ConsumerView<S>, store: StoreView)
    requires
        well_formed(c),
        c.phase is Scanning,
        text_frames(
            scan_spec(
                store,
                encode_utf8(c.regs[c.phase->Scanning_reg].topics[c.phase->Scanning_topic]),
                c.regs[c.phase->Scanning_reg].offset,
            ),
        ).len() > 0,
    ensures
        ({
            let reg = c.phase->Scanning_reg;
            let topic = c.regs[reg].topics[c.phase->Scanning_topic];
            let action = ActionView::Scan { topic, offset: c.regs[reg].offset };
            let frames = text_frames(scan_spec(store, encode_utf8(topic), c.regs[reg].offset));
            &&& settle(c, store, action).1 == (ActionView::Deliver { reg, frame: frames[0].text })
            &&& settle(c, store, action).0.regs == c.regs
        }),
{
    let reg = c.phase->Scanning_reg;
    let topic = c.regs[reg].topics[c.phase->Scanning_topic];
    let action = ActionView::Scan { topic, offset: c.regs[reg].offset };
    lemma_answer_progress(c, answer(store, action));
    let next = step_spec(c, answer(store, action));
    assert(settle(c, store, action) == settle(next.0, store, next.1));
    assert(settle(next.0, store, next.1) == next);
}

/// The state after the session took `n` frames in a row.
pub open spec fn after_accepts<S>(c: ConsumerView<S>, n: nat) -> ConsumerView<S>
    decreases n,
{
    if n == 0 {
        c
    } else {
        step_spec(after_accepts(c, (n - 1) as nat), EventView::Accepted).0
    }
}

/// A session that takes what it is offered is offered the frames of a scan
/// one after the other, none left out and none twice: after it took `n`
/// frames, frame `n` of the scan is on offer, and no offset has moved.
pub proof fn lemma_frames_in_order<S>(c: ConsumerView<S>, n: nat)
    requires
        well_formed(c),
        c.phase is Delivering,
        c.phase->Delivering_next == 0,
        n < c.phase->Delivering_frames.len(),
    ensures
        after_accepts(c, n).regs == c.regs,
        after_accepts(c, n).phase is Delivering,
        after_accepts(c, n).phase->Delivering_next == n,
        after_accepts(c, n).phase->Delivering_frames == c.phase->Delivering_frames,
        after_accepts(c, n).phase->Delivering_reg == c.phase->Delivering_reg,
        after_accepts(c, n).phase->Delivering_topic == c.phase->Delivering_topic,
        n > 0 ==> step_spec(after_accepts(c, (n - 1) as nat), EventView::Accepted).1
            == (ActionView::Deliver {
            reg: c.phase->Delivering_reg,
            frame: c.phase->Delivering_frames[n as int].text,
        }),
    decreases n,
{
    if n > 0 {
        lemma_frames_in_order(c, (n - 1) as nat);
    }
}

/// After the session took the last frame of a scan, the nonce of that frame
/// is asked for, and the offset moves past the nonce that comes back.
pub proof fn lemma_offset_after_last_frame<S>(c: ConsumerView<S>, nonce: u64)
    requires
        well_formed(c),
        c.phase is Delivering,
        c.phase->Delivering_next == c.phase->Delivering_frames.len() - 1,
    ensures
        ({
            let asked = step_spec(c, EventView::Accepted);
            let moved = step_spec(asked.0, EventView::Nonce(Some(nonce)));
            let reg = c.phase->Delivering_reg;
            &&& asked.1 == (ActionView::Lookup {
                data_key: c.phase->Delivering_frames.last().data_key,
            })
            &&& moved.0.regs[reg].offset == advance_offset(c.regs[reg].offset, nonce)
            &&& forall|i: int|
                0 <= i < c.regs.len() && i != reg ==> #[trigger] moved.0.regs[i] == c.regs[i]
        }),
{
}

// ---------------------------------------------------------------------------
// The consumer
// ---------------------------------------------------------------------------

/// The consumer of one partition.
pub struct ConsumerActor<S> {
    registrations: Vec<Registration<S>>,
    phase: Phase,
}

/// The registrations of `v`, as plain values.
pub open spec fn registrations_view<S>(v: Seq<Registration<S>>) -> Seq<RegistrationView<S>> {
    Seq::new(v.len(), |i: int| v[i]@)
}

impl<S> View for ConsumerActor<S> {
    type V = ConsumerView<S>;

    closed spec fn view(&self) -> ConsumerView<S> {
        ConsumerView { regs: registrations_view(self.registrations@), phase: self.phase@ }
    }
}

/// The text that `bytes` are in UTF-8, or `None` if they are none.
///
/// Trusted, not proved: `std::str::from_utf8`, which accepts exactly the
/// well-formed UTF-8 byte strings.
#[verifier::external_body]
fn text_of(bytes: &[u8]) -> (r: Option<String>)
    ensures
        r matches Some(s) ==> valid_utf8(bytes@) && s@ == decode_utf8(bytes@),
        r is None ==> !valid_utf8(bytes@),
{
    std::str::from_utf8(bytes).ok().map(|s| s.to_string())
}

/// The frames that `records` give.
fn frames_of(records: &Vec<ScanRecord>) -> (r: Vec<Frame>)
    ensures
        frames_view(r@) == text_frames(crate::storage::records_view(records@)),
{
    let ghost rv = crate::storage::records_view(records@);
    let mut out: Vec<Frame> = Vec::new();
    let mut i: usize = 0;
    while i < records.len()
        invariant
            i <= records.len(),
            rv == crate::storage::records_view(records@),
            frames_view(out@) == text_frames(rv.subrange(0, i as int)),
        decreases records.len() - i,
    {
        proof {
            assert(rv.subrange(0, i + 1).drop_last() =~= rv.subrange(0, i as int));
            assert(rv.subrange(0, i + 1).last() == rv[i as int]);
        }
        let ghost before = frames_view(out@);
        match text_of(records[i].payload.as_slice()) {
            Some(text) => {
                let data_key = copy_bytes(records[i].data_key.as_slice());
                out.push(Frame { data_key, text });
                proof {
                    assert(frames_view(out@) =~= before.push(
                        FrameView {
                            data_key: rv[i as int].data_key,
                            text: decode_utf8(rv[i as int].payload),
                        },
                    ));
                }
            },
            None => {},
        }
        i = i + 1;
    }
    proof {
        assert(rv.subrange(0, records.len() as int) =~= rv);
    }
    out
}

impl<S> ConsumerActor<S> {
    /// Whether the state is well formed.
    pub open spec fn wf(&self) -> bool {
        well_formed(self@)
    }

    /// A consumer with nobody subscribed.
    pub fn new() -> (r: ConsumerActor<S>)
        ensures
            r.wf(),
            r@.regs.len() == 0,
            r@.phase is Idle,
    {
        let r = ConsumerActor { registrations: Vec::new(), phase: Phase::Idle };
        proof {
            assert(registrations_view(r.registrations@) =~= Seq::empty());
        }
        r
    }

    /// The number of subscribers.
    pub fn len(&self) -> (n: usize)
        ensures
            n == self@.regs.len(),
    {
        self.registrations.len()
    }

    /// The index of the registration of `client_id`, or the number of
    /// registrations if it has none.
    pub fn position(&self, client_id: &str) -> (k: usize)
        ensures
            k == index_of(self@.regs, client_id@),
            k <= self@.regs.len(),
            k < self@.regs.len() ==> self@.regs[k as int].client_id == client_id@,
    {
        let mut i: usize = 0;
        while i < self.registrations.len() && !same_text(
            self.registrations[i].client_id.as_str(),
            client_id,
        )
            invariant
                i <= self.registrations.len(),
                index_of(self@.regs, client_id@) == index_from(self@.regs, client_id@, i as int),
            decreases self.registrations.len() - i,
        {
            i = i + 1;
        }
        proof {
            lemma_index_from(self@.regs, client_id@, i as int);
        }
        i
    }

    /// The registration at index `i`.
    pub fn registration(&self, i: usize) -> (r: &Registration<S>)
        requires
            i < self@.regs.len(),
        ensures
            r@ == self@.regs[i as int],
    {
        &self.registrations[i]
    }

    /// Subscribes a client, or subscribes it to more. A pass under way ends.
    pub fn register(&mut self, cmd: RegisterCmd<S>)
        requires
            old(self).wf(),
        ensures
            final(self).wf(),
            final(self)@.phase is Idle,
            final(self)@.regs == register_spec(
                old(self)@.regs,
                cmd.client_id@,
                cmd.addr,
                texts_view(cmd.topics@),
                cmd.offset,
            ),
    {
        let k = self.position(cmd.client_id.as_str());
        proof {
            lemma_register_distinct(
                self@.regs,
                cmd.client_id@,
                cmd.addr,
                texts_view(cmd.topics@),
                cmd.offset,
            );
        }
        let ghost before = self@.regs;
        if k < self.registrations.len() {
            let mut topics: Vec<String> = Vec::new();
            let mut i: usize = cmd.topics.len();
            while i > 0
                invariant
                    i <= cmd.topics.len(),
                    texts_view(topics@) == texts_view(cmd.topics@).reverse().subrange(
                        0,
                        cmd.topics.len() - i,
                    ),
                decreases i,
            {
                i = i - 1;
                let ghost prev = topics@;
                topics.push(cmd.topics[i].clone());
                proof {
                    assert(texts_view(topics@) =~= texts_view(prev).push(cmd.topics@[i as int]@));
                    assert(texts_view(topics@) =~= texts_view(cmd.topics@).reverse().subrange(
                        0,
                        cmd.topics.len() - i,
                    ));
                }
            }
            let had = &self.registrations[k].topics;
            let mut j: usize = 0;
            while j < had.len()
                invariant
                    j <= had.len(),
                    texts_view(topics@) == texts_view(cmd.topics@).reverse() + texts_view(
                        had@,
                    ).subrange(0, j as int),
                decreases had.len() - j,
            {
                let ghost prev = topics@;
                topics.push(had[j].clone());
                j = j + 1;
                proof {
                    assert(texts_view(topics@) =~= texts_view(prev).push(had@[j - 1]@));
                    assert(texts_view(topics@) =~= texts_view(cmd.topics@).reverse() + texts_view(
                        had@,
                    ).subrange(0, j as int));
                }
            }
            proof {
                assert(texts_view(had@).subrange(0, had.len() as int) =~= texts_view(had@));
            }
            let reg = Registration {
                client_id: cmd.client_id,
                socket: cmd.addr,
                topics,
                offset: cmd.offset,
            };
            self.registrations.set(k, reg);
        } else {
            let reg = Registration {
                client_id: cmd.client_id,
                socket: cmd.addr,
                topics: cmd.topics,
                offset: cmd.offset,
            };
            self.registrations.push(reg);
        }
        self.phase = Phase::Idle;
        proof {
            assert(self@.regs =~= register_spec(
                before,
                cmd.client_id@,
                cmd.addr,
                texts_view(cmd.topics@),
                cmd.offset,
            ));
        }
    }

    /// Forgets a client. A pass under way ends.
    pub fn clear(&mut self, cmd: &ClearConnCmd)
        requires
            old(self).wf(),
        ensures
            final(self).wf(),
            final(self)@.phase is Idle,
            final(self)@.regs == clear_spec(old(self)@.regs, cmd.client_id@),
    {
        let k = self.position(cmd.client_id.as_str());
        proof {
            lemma_clear_distinct(self@.regs, cmd.client_id@);
        }
        let ghost before = self@.regs;
        if k < self.registrations.len() {
            let _ = self.registrations.remove(k);
        }
        self.phase = Phase::Idle;
        proof {
            assert(self@.regs =~= clear_spec(before, cmd.client_id@));
        }
    }

    /// Goes on at topic `topic` of registration `reg`.
    fn enter_at(&mut self, reg: usize, topic: usize, any: bool) -> (action: ConsumerAction)
        requires
            distinct_clients(old(self)@.regs),
            reg <= old(self)@.regs.len(),
        ensures
            (final(self)@, action@) == enter(old(self)@.regs, reg as int, topic as int, any),
            final(self).wf(),
    {
        let mut r: usize = reg;
        let mut t: usize = topic;
        while r < self.registrations.len() && t >= self.registrations[r].topics.len()
            invariant
                reg <= r <= self.registrations.len(),
                self@.regs == old(self)@.regs,
                next_visit(self@.regs, reg as int, topic as int) == next_visit(
                    self@.regs,
                    r as int,
                    t as int,
                ),
            decreases self.registrations.len() - r,
        {
            r = r + 1;
            t = 0;
        }
        proof {
            lemma_next_visit(self@.regs, r as int, t as int);
        }
        if r < self.registrations.len() {
            self.phase = Phase::Scanning { reg: r, topic: t, any };
            ConsumerAction::Scan {
                topic: self.registrations[r].topics[t].clone(),
                offset: self.registrations[r].offset,
            }
        } else {
            self.phase = Phase::Idle;
            ConsumerAction::Wait(
                if any {
                    BUSY_WAIT
                } else {
                    QUIET_WAIT
                },
            )
        }
    }

    /// One step of the consumer: takes the outcome of the action named
    /// before, and names the next.
    pub fn step(&mut self, event: ConsumerEvent) -> (action: ConsumerAction)
        requires
            old(self).wf(),
        ensures
            final(self).wf(),
            (final(self)@, action@) == step_spec(old(self)@, event@),
    {
        proof {
            lemma_step_well_formed(self@, event@);
        }
        let mut phase = Phase::Idle;
        core::mem::swap(&mut self.phase, &mut phase);
        proof {
            assert(self@.regs == old(self)@.regs);
            assert forall|i: int| 0 <= i < self.registrations@.len() implies (
            #[trigger] self@.regs[i]).topics.len() == self.registrations@[i].topics@.len() by {}
        }
        match (phase, event) {
            (Phase::Idle, ConsumerEvent::Tick) => {
                if self.registrations.len() == 0 {
                    ConsumerAction::Wait(IDLE_WAIT)
                } else {
                    self.enter_at(0, 0, false)
                }
            },
            (Phase::Scanning { reg, topic, any }, ConsumerEvent::Scanned(Some(records))) => {
                proof {
                    assert(phase@ == old(self)@.phase);
                    assert(self@.regs.len() == self.registrations.len());
                    assert(self@.regs[reg as int].topics.len()
                        == self.registrations@[reg as int].topics.len());
                }
                let frames = frames_of(&records);
                if frames.len() == 0 {
                    self.enter_at(reg, topic + 1, any)
                } else {
                    let frame = frames[0].text.clone();
                    self.phase = Phase::Delivering { reg, topic, frames, next: 0, any };
                    ConsumerAction::Deliver { reg, frame }
                }
            },
            (Phase::Scanning { reg, topic, any }, ConsumerEvent::Scanned(None)) => {
                proof {
                    assert(phase@ == old(self)@.phase);
                    assert(self@.regs.len() == self.registrations.len());
                    assert(self@.regs[reg as int].topics.len()
                        == self.registrations@[reg as int].topics.len());
                }
                self.enter_at(reg, topic + 1, any)
            },
            (Phase::Delivering { reg, topic, frames, next, any }, ConsumerEvent::Accepted) => {
                proof {
                    assert(phase@ == old(self)@.phase);
                    assert(frames_view(frames@).len() == frames.len());
                    assert(self@.regs.len() == self.registrations.len());
                }
                if next + 1 < frames.len() {
                    let frame = frames[next + 1].text.clone();
                    self.phase = Phase::Delivering { reg, topic, frames, next: next + 1, any: true };
                    ConsumerAction::Deliver { reg, frame }
                } else {
                    let data_key = copy_bytes(frames[next].data_key.as_slice());
                    self.phase = Phase::Advancing { reg, topic, stop: false, any: true };
                    ConsumerAction::Lookup { data_key }
                }
            },
            (Phase::Delivering { reg, topic, frames, next, any }, ConsumerEvent::Rejected) => {
                proof {
                    assert(phase@ == old(self)@.phase);
                    assert(frames_view(frames@).len() == frames.len());
                    assert(self@.regs.len() == self.registrations.len());
                }
                if next == 0 {
                    self.enter_at(reg + 1, 0, any)
                } else {
                    let data_key = copy_bytes(frames[next - 1].data_key.as_slice());
                    self.phase = Phase::Advancing { reg, topic, stop: true, any };
                    ConsumerAction::Lookup { data_key }
                }
            },
            (Phase::Advancing { reg, topic, stop, any }, ConsumerEvent::Nonce(n)) => {
                proof {
                    assert(phase@ == old(self)@.phase);
                    assert(self@.regs.len() == self.registrations.len());
                    assert(self@.regs[reg as int].topics.len()
                        == self.registrations@[reg as int].topics.len());
                }
                match n {
                    Some(v) => {
                        self.move_offset(reg, v);
                    },
                    None => {},
                }
                if stop {
                    self.enter_at(reg + 1, 0, any)
                } else {
                    self.enter_at(reg, topic + 1, any)
                }
            },
            _ => ConsumerAction::Wait(QUIET_WAIT),
        }
    }

    /// Takes an event from a session or from the clock, and goes on against
    /// `store` until a session or the clock is needed again: returns the
    /// frame to offer next, or the wait that ends the pass. Where the engine
    /// fails, the scan counts as empty and the nonce as not found, and
    /// `faulted` says so; where the store is not read, nothing has failed.
    /// Failed or not, the result is a run of steps in which each read was
    /// answered by the store or not at all.
    pub fn poll(&mut self, store: &StorageActor, event: ConsumerEvent) -> (r: Polled)
        requires
            old(self).wf(),
        ensures
            final(self).wf(),
            r.action is Wait || r.action is Deliver,
            served(old(self)@.regs, final(self)@.regs),
            may_poll(old(self)@, store@, event@, (final(self)@, r.action@)),
            !r.faulted ==> (final(self)@, r.action@) == poll_spec(old(self)@, store@, event@),
            !(step_spec(old(self)@, event@).1 is Scan) && !(step_spec(old(self)@, event@).1
                is Lookup) ==> !r.faulted,
    {
        proof {
            lemma_step_coherent(self@, event@);
        }
        let mut action = self.step(event);
        let mut faulted = false;
        loop
            invariant
                coherent(self@, action@),
                served(old(self)@.regs, self@.regs),
                !faulted ==> settle(self@, store@, action@) == poll_spec(
                    old(self)@,
                    store@,
                    event@,
                ),
                faulted ==> step_spec(old(self)@, event@).1 is Scan || step_spec(
                    old(self)@,
                    event@,
                ).1 is Lookup,
                forall|out: (ConsumerView<S>, ActionView)| #[trigger]
                    may_settle(self@, store@, action@, out) ==> may_poll(
                        old(self)@,
                        store@,
                        event@,
                        out,
                    ),
                !faulted && !(step_spec(old(self)@, event@).1 is Scan) && !(step_spec(
                    old(self)@,
                    event@,
                ).1 is Lookup) ==> !(action@ is Scan) && !(action@ is Lookup),
            decreases regs_left(self@), topics_left(self@),
        {
            let ghost before = self@;
            let ghost asked = action@;
            let answered = match action {
                ConsumerAction::Scan { topic, offset } => {
                    match store.range_scan(topic.as_str(), offset) {
                        Ok(records) => ConsumerEvent::Scanned(Some(records)),
                        Err(_) => {
                            faulted = true;
                            ConsumerEvent::Scanned(None)
                        },
                    }
                },
                ConsumerAction::Lookup { data_key } => {
                    match store.lookup_nonce(data_key.as_slice()) {
                        Ok(n) => ConsumerEvent::Nonce(n),
                        Err(_) => {
                            faulted = true;
                            ConsumerEvent::Nonce(None)
                        },
                    }
                },
                other => {
                    proof {
                        assert(may_settle(before, store@, asked, (before, asked)));
                    }
                    return Polled { action: other, faulted };
                },
            };
            proof {
                lemma_answer_progress(before, answered@);
                assert(!faulted ==> answered@ == answer(store@, asked));
                assert(answered@ == answer(store@, asked) || answered@ == no_answer(asked));
            }
            action = self.step(answered);
            proof {
                assert forall|out: (ConsumerView<S>, ActionView)| #[trigger]
                    may_settle(self@, store@, action@, out) implies may_poll(
                    old(self)@,
                    store@,
                    event@,
                    out,
                ) by {
                    assert(may_settle(before, store@, asked, out));
                }
                assert forall|i: int| 0 <= i < old(self)@.regs.len() implies {
                    &&& (#[trigger] self@.regs[i]).client_id == old(self)@.regs[i].client_id
                    &&& self@.regs[i].socket == old(self)@.regs[i].socket
                    &&& self@.regs[i].topics == old(self)@.regs[i].topics
                    &&& self@.regs[i].offset >= old(self)@.regs[i].offset
                } by {
                    assert(before.regs[i].offset >= old(self)@.regs[i].offset);
                }
            }
        }
    }

    /// Moves the offset of registration `reg` past `nonce`.
    fn move_offset(&mut self, reg: usize, nonce: u64)
        requires
            reg < old(self)@.regs.len(),
        ensures
            final(self)@.phase == old(self)@.phase,
            final(self)@.regs == old(self)@.regs.update(
                reg as int,
                RegistrationView {
                    client_id: old(self)@.regs[reg as int].client_id,
                    socket: old(self)@.regs[reg as int].socket,
                    topics: old(self)@.regs[reg as int].topics,
                    offset: advance_offset(old(self)@.regs[reg as int].offset, nonce),
                },
            ),
    {
        let past: u64 = if nonce < u64::MAX {
            nonce + 1
        } else {
            u64::MAX
        };
        let ghost before = self@.regs;
        if past > self.registrations[reg].offset {
            self.registrations[reg].offset = past;
        }
        proof {
            assert(self@.regs =~= before.update(
                reg as int,
                RegistrationView {
                    client_id: before[reg as int].client_id,
                    socket: before[reg as int].socket,
                    topics: before[reg as int].topics,
                    offset: advance_offset(before[reg as int].offset, nonce),
                },
            ));
        }
    }
}

} // verus!
