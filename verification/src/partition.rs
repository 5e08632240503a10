//! Partitions and the dispatcher that owns them.
//!
//! A partition is one shard: a store and a consumer. The dispatcher owns a
//! fixed number of partitions and the one sequencer they share, and routes
//! each topic to the partition that its hash names.

use crate::codec::{be_value, data_key_text, lemma_be_bytes_len, lemma_be_order, lemma_be_value_of_bytes, lemma_pow256_8, lex_le, make_data_key, nonce_key};
use crate::consumer::{clear_spec, ClearConnCmd, ConsumerActor, ConsumerView, register_spec, RegisterCmd, RegistrationView};
use crate::envelope::{encode_envelope, envelope_json, Message, texts_view};
use crate::listing::is_greatest;
use crate::sequencer::IdGenerator;
use crate::storage::{
    has_last, last_nonce_spec, trim_at_spec, write_spec, Status, StorageActor, StorageCmd, StoreError,
    StoreView, TreeName, TrimCmd, TrimReport, trim_today_stopped, write_stopped,
};
use core::hash::Hasher;
use std::collections::hash_map::DefaultHasher;
use vstd::prelude::*;
use vstd::std_specs::hash::DefaultHasherAdditionalSpecFns;
use vstd::string::*;
use vstd::utf8::*;

verus! {

/// The greatest number of partitions that a dispatcher can own.
pub const MAX_PARTITIONS: usize = 65535;

/// The number of commands that the mailbox of a producer or of a consumer
/// holds.
pub const MAILBOX_CAPACITY: usize = 65536;

/// The pause of a producer after each write, in milliseconds.
pub const WRITE_PACING: u64 = 5;

/// The stable hash of a topic: what the standard hasher, freshly made, gives
/// for the topic's bytes followed by the byte `0xff`.
pub open spec fn topic_hash(topic: Seq<u8>) -> u64 {
    DefaultHasher::spec_finish(seq![topic, seq![0xffu8]])
}

/// The partition of `topic` among `n`.
pub open spec fn partition_of(topic: Seq<char>, n: int) -> int {
    topic_hash(encode_utf8(topic)) as int % n
}

/// The stable hash of `topic`.
pub fn stable_hash(topic: &str) -> (h: u64)
    ensures
        h == topic_hash(topic.spec_bytes()),
{
    let mut state = DefaultHasher::new();
    state.write(topic.as_bytes());
    let mut end: Vec<u8> = Vec::new();
    end.push(0xffu8);
    state.write(end.as_slice());
    proof {
        assert(state@ =~= seq![topic.spec_bytes(), seq![0xffu8]]);
    }
    state.finish()
}

/// The write command for the message `uid` on `topic`, sealed with `nonce`,
/// whose text is `encoded`.
pub fn seal(topic: &str, uid: &str, nonce: u64, encoded: String) -> (cmd: StorageCmd)
    ensures
        cmd.st_key@ == data_key_text(topic@, uid@),
        cmd.message_topic@ == topic@,
        cmd.nonce == nonce,
        cmd.data == encoded,
{
    StorageCmd {
        st_key: make_data_key(topic, uid),
        message_topic: String::from_str(topic),
        nonce,
        data: encoded,
    }
}

/// Every key of the range index is a nonce at or below `mark`.
pub open spec fn nonces_below(s: StoreView, mark: u64) -> bool {
    forall|k: Seq<u8>| #[trigger]
        s.range_idx.dom().contains(k) ==> k.len() == 8 && be_value(k) <= mark
}

/// Every key of the range index is eight bytes long.
pub open spec fn keys_are_nonces(s: StoreView) -> bool {
    forall|k: Seq<u8>| #[trigger] s.range_idx.dom().contains(k) ==> k.len() == 8
}

/// Recovery: a sequencer raised to the last nonce of a store, or above it,
/// stands at or above every nonce in the store, so that the next nonce it
/// hands out exceeds them all.
pub proof fn lemma_recovery(s: StoreView, mark: u64)
    requires
        keys_are_nonces(s),
        has_last(s),
        last_nonce_spec(s) <= mark,
    ensures
        nonces_below(s, mark),
        mark < u64::MAX ==> forall|k: Seq<u8>| #[trigger]
            s.range_idx.dom().contains(k) ==> be_value(k) < crate::sequencer::next_id(mark),
{
    assert forall|k: Seq<u8>| #[trigger] s.range_idx.dom().contains(k) implies k.len() == 8
        && be_value(k) <= mark by {
        let g = choose|g: Seq<u8>| is_greatest(s.range_idx, g);
        assert(is_greatest(s.range_idx, g));
        assert(lex_le(k, g));
        lemma_be_order(k, g);
        crate::codec::lemma_be_value_bound(g);
        lemma_pow256_8();
    }
}

/// A nonce above the mark is not in a store whose nonces are at or below
/// the mark.
pub proof fn lemma_fresh_nonce(s: StoreView, mark: u64, nonce: u64)
    requires
        nonces_below(s, mark),
        mark < nonce,
    ensures
        !s.range_idx.dom().contains(nonce_key(nonce)),
{
    lemma_pow256_8();
    lemma_be_value_of_bytes(nonce as nat, 8);
}

/// A write under a nonce above the mark leaves the nonces of the store at or
/// below that nonce.
pub proof fn lemma_write_keeps_below(
    s: StoreView,
    mark: u64,
    day: i64,
    key: Seq<u8>,
    topic: Seq<u8>,
    nonce: u64,
    payload: Seq<u8>,
)
    requires
        nonces_below(s, mark),
        mark <= nonce,
    ensures
        nonces_below(write_spec(s, day, key, topic, nonce, payload), nonce),
{
    lemma_pow256_8();
    lemma_be_value_of_bytes(nonce as nat, 8);
    lemma_be_bytes_len(nonce as nat, 8);
}

/// One shard of the broker.
pub struct Partition<S> {
    pub idx: u16,
    pub store: StorageActor,
    pub consumer: ConsumerActor<S>,
}

impl<S> Partition<S> {
    /// The partition `idx`, on database `db`, with nobody subscribed.
    pub fn from_idx(idx: u16, db: sled::Db) -> (r: Result<Partition<S>, StoreError>)
        ensures
            r matches Ok(p) ==> p.idx == idx && p.consumer.wf() && p.consumer@.regs.len() == 0,
            r matches Err(e) ==> e.tree != TreeName::Data,
    {
        match StorageActor::open(db) {
            Ok(store) => Ok(Partition { idx, store, consumer: ConsumerActor::new() }),
            Err(e) => Err(e),
        }
    }

    /// The greatest nonce that the partition holds; `0` if it holds none. A
    /// failure is one of reading the range index.
    pub fn last_nonce(&self) -> (r: Result<u64, StoreError>)
        ensures
            r matches Ok(n) ==> n == last_nonce_spec(self.store@) && has_last(self.store@),
            r matches Err(e) ==> e.tree == TreeName::Range,
    {
        self.store.last_nonce()
    }

    /// Seals `message` for this partition: draws its nonce from `id_gen`,
    /// writes the nonce into it, and makes the write command, whose payload
    /// is the sealed envelope's JSON text. A message without topic is left
    /// alone, and so is every message once the sequencer is exhausted.
    pub fn dispach_message(&self, id_gen: &mut IdGenerator, message: &mut Message) -> (r: Option<
        StorageCmd,
    >)
        ensures
            old(message).topic is None || old(id_gen).mark() == u64::MAX ==> r is None && *final(message) == *old(message) && final(id_gen).mark() == old(id_gen).mark(),
            old(message).topic is Some && old(id_gen).mark() < u64::MAX ==> {
                &&& r is Some
                &&& final(id_gen).mark() == old(id_gen).mark() + 1
                &&& final(message).nonce == Some(final(id_gen).mark())
                &&& final(message).uid == old(message).uid
                &&& final(message).topic == old(message).topic
                &&& final(message).payload == old(message).payload
                &&& final(message).key == old(message).key
                &&& final(message).cmd == old(message).cmd
                &&& final(message).params == old(message).params
                &&& final(message).offset == old(message).offset
                &&& r matches Some(cmd) ==> {
                    &&& cmd.st_key@ == data_key_text(old(message).topic->0@, old(message).uid@)
                    &&& cmd.message_topic@ == old(message).topic->0@
                    &&& cmd.nonce == final(id_gen).mark()
                    &&& cmd.data@ == envelope_json(final(message)@)
                }
            },
    {
        let topic = match message.got_topic() {
            Some(t) => t,
            None => {
                return None;
            },
        };
        let nonce = match id_gen.try_gen_id() {
            Some(n) => n,
            None => {
                return None;
            },
        };
        message.set_nonce(nonce);
        let encoded = encode_envelope(message);
        Some(seal(topic.as_str(), message.uid.as_str(), nonce, encoded))
    }

    /// The command that subscribes `client_id` to `topics` from `offset` on.
    pub fn subscribe(&self, sock_addr: S, client_id: &str, topics: Vec<String>, offset: u64) -> (r:
        RegisterCmd<S>)
        ensures
            r.client_id@ == client_id@,
            r.topics == topics,
            r.offset == offset,
            r.addr == sock_addr,
    {
        RegisterCmd { topics, client_id: String::from_str(client_id), offset, addr: sock_addr }
    }

    /// The command that forgets `client_id`.
    pub fn unsubscribe(&self, client_id: &str) -> (r: ClearConnCmd)
        ensures
            r.client_id@ == client_id@,
    {
        ClearConnCmd { client_id: String::from_str(client_id) }
    }

    /// The command that trims what is older than `days` whole days.
    pub fn trim_data(&self, days: u16) -> (r: TrimCmd)
        ensures
            r.days == days,
    {
        TrimCmd { days }
    }

    /// The number of records that the partition holds and its size on disk.
    /// The size is `0` where the engine cannot tell it; where the records
    /// cannot be counted, the status fails.
    pub fn sum_status(&self) -> (r: Result<Status, StoreError>)
        ensures
            r matches Ok(st) ==> self.store@.range_idx.dom().finite() && st.retain_messages
                == self.store@.range_idx.dom().len() && st.last_nonce == 0,
            r matches Err(e) ==> e.tree == TreeName::Range,
    {
        self.store.status()
    }
}

/// What became of a message that was published.
#[derive(Debug)]
pub struct Publication {
    /// The partition of the message's topic.
    pub partition: u16,
    /// The write command that the message was sealed into.
    pub cmd: StorageCmd,
    /// The day that it was written under, or the failure of the engine.
    pub written: Result<i64, StoreError>,
}

/// The stores of `parts`, as plain values.
pub open spec fn stores_view<S>(parts: Seq<Partition<S>>) -> Seq<StoreView> {
    Seq::new(parts.len(), |i: int| parts[i].store@)
}

/// The consumers of `parts`, as plain values.
pub open spec fn consumers_view<S>(parts: Seq<Partition<S>>) -> Seq<ConsumerView<S>> {
    Seq::new(parts.len(), |i: int| parts[i].consumer@)
}

/// The topics of `topics` that belong to partition `p` among `n`, in their
/// order.
pub open spec fn topics_of_partition(topics: Seq<Seq<char>>, n: int, p: int) -> Seq<Seq<char>>
    decreases topics.len(),
{
    if topics.len() == 0 {
        Seq::empty()
    } else {
        let rest = topics_of_partition(topics.drop_last(), n, p);
        if partition_of(topics.last(), n) == p {
            rest.push(topics.last())
        } else {
            rest
        }
    }
}

/// The registrations `post` are `pre` after `client_id` subscribed to
/// `topics` with a clone of `sock`; with no topic, they are `pre`.
pub open spec fn subscribed<S: Clone>(
    pre: Seq<RegistrationView<S>>,
    post: Seq<RegistrationView<S>>,
    sock: S,
    client_id: Seq<char>,
    topics: Seq<Seq<char>>,
    offset: u64,
) -> bool {
    if topics.len() == 0 {
        post == pre
    } else {
        exists|clone: S| #[trigger]
            cloned(sock, clone) && post == register_spec(pre, client_id, clone, topics, offset)
    }
}

/// The sum of the numbers of records of the first `n` stores.
pub open spec fn records_in(stores: Seq<StoreView>, n: int) -> nat
    decreases n,
{
    if n <= 0 {
        0
    } else {
        records_in(stores, n - 1) + stores[n - 1].range_idx.dom().len()
    }
}

/// The sum of two numbers of records, capped at the greatest number.
pub open spec fn capped_count(a: nat, b: nat) -> nat {
    if a + b <= usize::MAX {
        a + b
    } else {
        usize::MAX as nat
    }
}

/// The number of records of all `stores` together, capped at the greatest
/// number.
pub open spec fn capped_records(stores: Seq<StoreView>) -> nat {
    capped_count(records_in(stores, stores.len() as int), 0)
}

/// The sum of two sizes, capped at the greatest size.
pub open spec fn capped_size(a: u64, b: u64) -> u64 {
    if a + b <= u64::MAX {
        (a + b) as u64
    } else {
        u64::MAX
    }
}

/// Adds the status of one partition to a total: records to records and size
/// to size, each capped; the total's nonce stays.
pub fn add_status(total: Status, part: &Status) -> (r: Status)
    ensures
        r.retain_messages == capped_count(total.retain_messages as nat, part.retain_messages as nat),
        r.disk_size == capped_size(total.disk_size, part.disk_size),
        r.last_nonce == total.last_nonce,
{
    Status {
        retain_messages: total.retain_messages.saturating_add(part.retain_messages),
        disk_size: total.disk_size.saturating_add(part.disk_size),
        last_nonce: total.last_nonce,
    }
}

/// The dispatcher: a fixed set of partitions and their sequencer.
pub struct PartitionDispacher<S> {
    pub partitions: Vec<Partition<S>>,
    pub id_generator: IdGenerator,
}

impl<S> PartitionDispacher<S> {
    /// The dispatcher has between one and `MAX_PARTITIONS` partitions, each
    /// knows its index, and each consumer is well formed.
    pub open spec fn wf(&self) -> bool {
        &&& 0 < self.partitions@.len() <= MAX_PARTITIONS
        &&& forall|i: int|
            0 <= i < self.partitions@.len() ==> (#[trigger] self.partitions@[i]).idx == i
                && self.partitions@[i].consumer.wf()
    }

    /// The stores of the partitions.
    pub open spec fn stores(&self) -> Seq<StoreView> {
        stores_view(self.partitions@)
    }

    /// The consumers of the partitions.
    pub open spec fn consumers(&self) -> Seq<ConsumerView<S>> {
        consumers_view(self.partitions@)
    }

    /// A dispatcher over the databases `dbs`, one partition each, in their
    /// order. The databases must be distinct: what is proved of a partition
    /// holds only while no other writes to its trees. The sequencer is recovered: it stands at the greatest last
    /// nonce of any partition, so at or above every nonce that a partition
    /// holds whose range index has nonces for keys.
    pub fn from_number(dbs: Vec<sled::Db>) -> (r: Result<PartitionDispacher<S>, StoreError>)
        requires
            0 < dbs@.len() <= MAX_PARTITIONS,
        ensures
            r matches Ok(d) ==> {
                &&& d.wf()
                &&& d.partitions@.len() == dbs@.len()
                &&& forall|i: int|
                    0 <= i < d.partitions@.len() ==> (#[trigger] d.partitions@[i]).consumer@.regs.len()
                        == 0
                &&& forall|i: int|
                    0 <= i < d.stores().len() ==> last_nonce_spec(#[trigger] d.stores()[i])
                        <= d.id_generator.mark() && has_last(d.stores()[i])
                &&& exists|i: int|
                    0 <= i < d.stores().len() && last_nonce_spec(#[trigger] d.stores()[i])
                        == d.id_generator.mark()
                &&& forall|i: int|
                    0 <= i < d.stores().len() && keys_are_nonces(#[trigger] d.stores()[i])
                        ==> nonces_below(d.stores()[i], d.id_generator.mark())
            },
    {
        let n: usize = dbs.len();
        let mut rest = dbs;
        let mut turned: Vec<sled::Db> = Vec::new();
        while rest.len() > 0
            invariant
                rest@.len() + turned@.len() == n,
            decreases rest@.len(),
        {
            let db = rest.pop().unwrap();
            turned.push(db);
        }
        let mut partitions: Vec<Partition<S>> = Vec::new();
        let mut top: u64 = 0;
        let ghost mut at: int = -1;
        while turned.len() > 0
            invariant
                0 < n <= MAX_PARTITIONS,
                partitions@.len() + turned@.len() == n,
                forall|i: int|
                    0 <= i < partitions@.len() ==> (#[trigger] partitions@[i]).idx == i
                        && partitions@[i].consumer.wf() && partitions@[i].consumer@.regs.len() == 0,
                forall|i: int|
                    0 <= i < partitions@.len() ==> last_nonce_spec(
                        (#[trigger] partitions@[i]).store@,
                    ) <= top && has_last(partitions@[i].store@),
                partitions@.len() > 0 ==> 0 <= at < partitions@.len() && last_nonce_spec(
                    partitions@[at].store@,
                ) == top,
            decreases turned@.len(),
        {
            let idx: u16 = partitions.len() as u16;
            let db = turned.pop().unwrap();
            let partition: Partition<S> = match Partition::from_idx(idx, db) {
                Ok(p) => p,
                Err(e) => {
                    return Err(e);
                },
            };
            let last = match partition.last_nonce() {
                Ok(v) => v,
                Err(e) => {
                    return Err(e);
                },
            };
            if last > top || partitions.len() == 0 {
                top = last;
                proof {
                    at = partitions@.len() as int;
                }
            }
            partitions.push(partition);
        }
        let mut id_generator = IdGenerator::new(0);
        id_generator.init_with(top);
        let d = PartitionDispacher { partitions, id_generator };
        proof {
            assert forall|i: int| 0 <= i < d.stores().len() implies last_nonce_spec(
                #[trigger] d.stores()[i],
            ) <= d.id_generator.mark() && has_last(d.stores()[i]) by {
                assert(d.stores()[i] == d.partitions@[i].store@);
            }
            assert(last_nonce_spec(d.stores()[at]) == d.id_generator.mark());
            assert forall|i: int|
                0 <= i < d.stores().len() && keys_are_nonces(
                    #[trigger] d.stores()[i],
                ) implies nonces_below(d.stores()[i], d.id_generator.mark()) by {
                lemma_recovery(d.stores()[i], d.id_generator.mark());
            }
        }
        Ok(d)
    }

    /// The partition of `topic`: its stable hash, modulo the number of
    /// partitions.
    pub fn topic_for_partition(&self, topic: &str) -> (p: u16)
        requires
            self.wf(),
        ensures
            p == partition_of(topic@, self.partitions@.len() as int),
            p < self.partitions@.len(),
    {
        let n: u64 = self.partitions.len() as u64;
        (stable_hash(topic) % n) as u16
    }

    /// Seals `message` and routes it: returns the partition of its topic and
    /// the write command for that partition's store. A message without topic
    /// is left alone.
    pub fn dispach_message(&mut self, message: &mut Message) -> (r: Option<(u16, StorageCmd)>)
        requires
            old(self).wf(),
        ensures
            final(self).wf(),
            final(self).partitions == old(self).partitions,
            old(message).topic is None || old(self).id_generator.mark() == u64::MAX ==> r is None
                && *final(message) == *old(message) && final(self).id_generator.mark() == old(self).id_generator.mark(),
            old(message).topic is Some && old(self).id_generator.mark() < u64::MAX ==> {
                &&& r is Some
                &&& final(self).id_generator.mark() == old(self).id_generator.mark() + 1
                &&& final(message).nonce == Some(final(self).id_generator.mark())
                &&& final(message).uid == old(message).uid
                &&& final(message).topic == old(message).topic
                &&& final(message).payload == old(message).payload
                &&& final(message).key == old(message).key
                &&& final(message).cmd == old(message).cmd
                &&& final(message).params == old(message).params
                &&& final(message).offset == old(message).offset
                &&& r matches Some(routed) ==> {
                    &&& routed.0 == partition_of(
                        old(message).topic->0@,
                        old(self).partitions@.len() as int,
                    )
                    &&& routed.1.st_key@ == data_key_text(
                        old(message).topic->0@,
                        old(message).uid@,
                    )
                    &&& routed.1.message_topic@ == old(message).topic->0@
                    &&& routed.1.nonce == final(self).id_generator.mark()
                    &&& routed.1.data@ == envelope_json(final(message)@)
                }
            },
    {
        let topic = match message.got_topic() {
            Some(t) => t,
            None => {
                return None;
            },
        };
        let pidx = self.topic_for_partition(topic.as_str());
        match self.partitions[pidx as usize].dispach_message(&mut self.id_generator, message) {
            Some(cmd) => Some((pidx, cmd)),
            None => None,
        }
    }

    /// Hands a write command to the store of partition `pidx`, as of today.
    /// Where the engine fails, the write has stopped at the tree that the
    /// error names, and what was written before stays.
    pub fn handle_storage(&mut self, pidx: u16, cmd: &StorageCmd) -> (r: Result<i64, StoreError>)
        requires
            old(self).wf(),
            pidx < old(self).partitions@.len(),
        ensures
            final(self).wf(),
            final(self).id_generator == old(self).id_generator,
            final(self).partitions@.len() == old(self).partitions@.len(),
            final(self).consumers() == old(self).consumers(),
            forall|i: int|
                0 <= i < final(self).stores().len() && i != pidx ==> #[trigger] final(self).stores()[i] == old(self).stores()[i],
            r matches Ok(day) ==> final(self).stores()[pidx as int] == write_spec(
                old(self).stores()[pidx as int],
                day,
                encode_utf8(cmd.st_key@),
                encode_utf8(cmd.message_topic@),
                cmd.nonce,
                encode_utf8(cmd.data@),
            ),
            r matches Err(e) ==> exists|day: i64|
                write_stopped(
                    old(self).stores()[pidx as int],
                    final(self).stores()[pidx as int],
                    e.tree,
                    #[trigger] write_spec(
                        old(self).stores()[pidx as int],
                        day,
                        encode_utf8(cmd.st_key@),
                        encode_utf8(cmd.message_topic@),
                        cmd.nonce,
                        encode_utf8(cmd.data@),
                    ),
                ),
    {
        let ghost before = self.partitions@[pidx as int].store@;
        let r = self.partitions[pidx as usize].store.write(cmd);
        proof {
            assert(final(self).consumers() =~= old(self).consumers());
            let after = self.partitions@[pidx as int].store@;
            assert(old(self).stores()[pidx as int] == before);
            assert(self.stores()[pidx as int] == after);
            if r is Err {
                let failed = r->Err_0.tree;
                let day = choose|day: i64|
                    write_stopped(
                        before,
                        after,
                        failed,
                        #[trigger] write_spec(
                            before,
                            day,
                            encode_utf8(cmd.st_key@),
                            encode_utf8(cmd.message_topic@),
                            cmd.nonce,
                            encode_utf8(cmd.data@),
                        ),
                    );
                assert(write_stopped(
                    old(self).stores()[pidx as int],
                    self.stores()[pidx as int],
                    failed,
                    write_spec(
                        old(self).stores()[pidx as int],
                        day,
                        encode_utf8(cmd.st_key@),
                        encode_utf8(cmd.message_topic@),
                        cmd.nonce,
                        encode_utf8(cmd.data@),
                    ),
                ));
            }
        }
        r
    }

    /// Publishes `message`: seals it, routes it, and writes it to the store
    /// of its partition as of today. Returns `None` for a message without
    /// topic, which is left alone, and once the sequencer is exhausted.
    /// Where the engine fails, the write has stopped at the tree that the
    /// error names.
    pub fn publish(&mut self, message: &mut Message) -> (r: Option<Publication>)
        requires
            old(self).wf(),
        ensures
            final(self).wf(),
            final(self).partitions@.len() == old(self).partitions@.len(),
            final(self).consumers() == old(self).consumers(),
            old(message).topic is None || old(self).id_generator.mark() == u64::MAX ==> r is None
                && *final(message) == *old(message) && final(self).id_generator.mark() == old(self).id_generator.mark() && final(self).stores() == old(self).stores(),
            old(message).topic is Some && old(self).id_generator.mark() < u64::MAX ==> {
                &&& r is Some
                &&& final(self).id_generator.mark() == old(self).id_generator.mark() + 1
                &&& final(message).nonce == Some(final(self).id_generator.mark())
                &&& final(message).uid == old(message).uid
                &&& final(message).topic == old(message).topic
                &&& final(message).payload == old(message).payload
                &&& final(message).key == old(message).key
                &&& final(message).cmd == old(message).cmd
                &&& final(message).params == old(message).params
                &&& final(message).offset == old(message).offset
            },
            r matches Some(p) ==> {
                &&& p.partition == partition_of(
                    old(message).topic->0@,
                    old(self).partitions@.len() as int,
                )
                &&& p.cmd.st_key@ == data_key_text(old(message).topic->0@, old(message).uid@)
                &&& p.cmd.message_topic@ == old(message).topic->0@
                &&& p.cmd.nonce == final(self).id_generator.mark()
                &&& p.cmd.data@ == envelope_json(final(message)@)
                &&& forall|i: int|
                    0 <= i < final(self).stores().len() && i != p.partition ==> #[trigger] final(self).stores()[i] == old(self).stores()[i]
                &&& p.written matches Ok(day) ==> final(self).stores()[p.partition as int]
                    == write_spec(
                    old(self).stores()[p.partition as int],
                    day,
                    encode_utf8(p.cmd.st_key@),
                    encode_utf8(p.cmd.message_topic@),
                    p.cmd.nonce,
                    encode_utf8(p.cmd.data@),
                )
                &&& p.written matches Err(e) ==> exists|day: i64|
                    write_stopped(
                        old(self).stores()[p.partition as int],
                        final(self).stores()[p.partition as int],
                        e.tree,
                        #[trigger] write_spec(
                            old(self).stores()[p.partition as int],
                            day,
                            encode_utf8(p.cmd.st_key@),
                            encode_utf8(p.cmd.message_topic@),
                            p.cmd.nonce,
                            encode_utf8(p.cmd.data@),
                        ),
                    )
            },
            r is None ==> final(self).stores() == old(self).stores(),
    {
        match self.dispach_message(message) {
            Some((partition, cmd)) => {
                proof {
                    assert(self.stores() =~= old(self).stores());
                    assert(self.consumers() =~= old(self).consumers());
                }
                let written = self.handle_storage(partition, &cmd);
                Some(Publication { partition, cmd, written })
            },
            None => {
                proof {
                    assert(self.stores() =~= old(self).stores());
                    assert(self.consumers() =~= old(self).consumers());
                }
                None
            },
        }
    }

    /// Forgets `client_id` in every partition.
    pub fn unsubscribe(&mut self, client_id: &str)
        requires
            old(self).wf(),
        ensures
            final(self).wf(),
            final(self).id_generator == old(self).id_generator,
            final(self).stores() == old(self).stores(),
            final(self).consumers().len() == old(self).consumers().len(),
            forall|i: int|
                0 <= i < old(self).consumers().len() ==> (#[trigger] final(self).consumers()[i]).regs == clear_spec(old(self).consumers()[i].regs, client_id@),
    {
        let cmd = ClearConnCmd { client_id: String::from_str(client_id) };
        let n: usize = self.partitions.len();
        let mut i: usize = 0;
        while i < n
            invariant
                i <= n,
                n == self.partitions@.len(),
                n == old(self).partitions@.len(),
                cmd.client_id@ == client_id@,
                self.id_generator == old(self).id_generator,
                0 < n <= MAX_PARTITIONS,
                forall|j: int|
                    0 <= j < n ==> (#[trigger] self.partitions@[j]).idx == j
                        && self.partitions@[j].consumer.wf() && self.partitions@[j].store@ == old(self).partitions@[j].store@,
                forall|j: int|
                    0 <= j < i ==> (#[trigger] self.partitions@[j]).consumer@.regs == clear_spec(
                        old(self).partitions@[j].consumer@.regs,
                        client_id@,
                    ),
                forall|j: int|
                    i <= j < n ==> (#[trigger] self.partitions@[j]).consumer@ == old(self).partitions@[j].consumer@,
            decreases n - i,
        {
            self.partitions[i].consumer.clear(&cmd);
            i = i + 1;
        }
        proof {
            assert(self.stores() =~= old(self).stores());
        }
    }

    /// Trims what is older than `days` whole days in every partition, as of
    /// today, and returns what each partition's trim came to. A partition
    /// whose trim failed is left where its trim stopped.
    pub fn trim_data(&mut self, days: u16) -> (r: Vec<Result<TrimReport, StoreError>>)
        requires
            old(self).wf(),
        ensures
            final(self).wf(),
            final(self).id_generator == old(self).id_generator,
            final(self).consumers() == old(self).consumers(),
            r@.len() == old(self).stores().len(),
            final(self).stores().len() == old(self).stores().len(),
            forall|i: int|
                0 <= i < r@.len() ==> (#[trigger] r@[i] matches Ok(report) ==> final(self).stores()[i] == trim_at_spec(old(self).stores()[i], report.today, days)),
            forall|i: int|
                0 <= i < r@.len() ==> (#[trigger] r@[i] matches Err(e) ==> trim_today_stopped(
                    old(self).stores()[i],
                    final(self).stores()[i],
                    e.tree,
                    days,
                )),
    {
        let cmd = TrimCmd { days };
        let n: usize = self.partitions.len();
        let mut out: Vec<Result<TrimReport, StoreError>> = Vec::new();
        let mut i: usize = 0;
        while i < n
            invariant
                i <= n,
                n == self.partitions@.len(),
                n == old(self).partitions@.len(),
                out@.len() == i,
                cmd.days == days,
                self.id_generator == old(self).id_generator,
                0 < n <= MAX_PARTITIONS,
                forall|j: int|
                    0 <= j < n ==> (#[trigger] self.partitions@[j]).idx == j
                        && self.partitions@[j].consumer.wf() && self.partitions@[j].consumer@
                        == old(self).partitions@[j].consumer@,
                forall|j: int|
                    0 <= j < i ==> (#[trigger] out@[j] matches Ok(report) ==> self.partitions@[j].store@
                        == trim_at_spec(old(self).partitions@[j].store@, report.today, days)),
                forall|j: int|
                    0 <= j < i ==> (#[trigger] out@[j] matches Err(e) ==> trim_today_stopped(
                        old(self).partitions@[j].store@,
                        self.partitions@[j].store@,
                        e.tree,
                        days,
                    )),
                forall|j: int|
                    i <= j < n ==> (#[trigger] self.partitions@[j]).store@ == old(self).partitions@[j].store@,
            decreases n - i,
        {
            let report = self.partitions[i].store.trim(&cmd);
            out.push(report);
            i = i + 1;
        }
        proof {
            assert(self.consumers() =~= old(self).consumers());
            assert forall|j: int| 0 <= j < n implies self.stores()[j]
                == self.partitions@[j].store@ && old(self).stores()[j] == old(self).partitions@[j].store@ by {}
        }
        out
    }

    /// The number of records in all partitions together and the size of all
    /// stores on disk, each capped at the greatest number of its type, and
    /// the sequencer's high-water mark. A store whose size the engine cannot
    /// tell adds none; where the records of a partition cannot be counted,
    /// the status fails.
    pub fn sum_status(&self) -> (r: Result<Status, StoreError>)
        requires
            self.wf(),
        ensures
            r matches Ok(st) ==> st.retain_messages == capped_records(self.stores())
                && st.last_nonce == self.id_generator.mark(),
            r matches Err(e) ==> e.tree == TreeName::Range,
    {
        let n: usize = self.partitions.len();
        let mut total = Status {
            retain_messages: 0,
            disk_size: 0,
            last_nonce: self.id_generator.get_max_id(),
        };
        let mut i: usize = 0;
        while i < n
            invariant
                i <= n,
                n == self.partitions@.len(),
                total.last_nonce == self.id_generator.mark(),
                total.retain_messages == capped_count(records_in(self.stores(), i as int), 0),
            decreases n - i,
        {
            let st = match self.partitions[i].sum_status() {
                Ok(st) => st,
                Err(e) => {
                    return Err(e);
                },
            };
            proof {
                assert(self.stores()[i as int] == self.partitions@[i as int].store@);
            }
            total = add_status(total, &st);
            i = i + 1;
        }
        Ok(total)
    }
}

impl<S: Clone> PartitionDispacher<S> {
    /// Subscribes `client_id` from `offset` on: the topics are grouped by
    /// partition, and each partition that a topic belongs to registers the
    /// client for its topics, in their order, with a clone of the socket.
    pub fn subscribe(&mut self, sock_addr: S, client_id: &str, topics: Vec<String>, offset: u64)
        requires
            old(self).wf(),
        ensures
            final(self).wf(),
            final(self).id_generator == old(self).id_generator,
            final(self).stores() == old(self).stores(),
            final(self).consumers().len() == old(self).consumers().len(),
            forall|i: int|
                0 <= i < old(self).consumers().len() ==> subscribed(
                    old(self).consumers()[i].regs,
                    (#[trigger] final(self).consumers()[i]).regs,
                    sock_addr,
                    client_id@,
                    topics_of_partition(
                        texts_view(topics@),
                        old(self).consumers().len() as int,
                        i,
                    ),
                    offset,
                ),
    {
        let n: usize = self.partitions.len();
        let mut i: usize = 0;
        while i < n
            invariant
                i <= n,
                n == self.partitions@.len(),
                n == old(self).partitions@.len(),
                self.id_generator == old(self).id_generator,
                0 < n <= MAX_PARTITIONS,
                forall|j: int|
                    0 <= j < n ==> (#[trigger] self.partitions@[j]).idx == j
                        && self.partitions@[j].consumer.wf() && self.partitions@[j].store@ == old(self).partitions@[j].store@,
                forall|j: int|
                    0 <= j < i ==> subscribed(
                        old(self).partitions@[j].consumer@.regs,
                        (#[trigger] self.partitions@[j]).consumer@.regs,
                        sock_addr,
                        client_id@,
                        topics_of_partition(texts_view(topics@), n as int, j),
                        offset,
                    ),
                forall|j: int|
                    i <= j < n ==> (#[trigger] self.partitions@[j]).consumer@ == old(self).partitions@[j].consumer@,
            decreases n - i,
        {
            let mut mine: Vec<String> = Vec::new();
            let mut k: usize = 0;
            while k < topics.len()
                invariant
                    k <= topics.len(),
                    i < n,
                    n == self.partitions@.len(),
                    self.wf(),
                    texts_view(mine@) == topics_of_partition(
                        texts_view(topics@).subrange(0, k as int),
                        n as int,
                        i as int,
                    ),
                decreases topics.len() - k,
            {
                proof {
                    let all = texts_view(topics@);
                    assert(all.subrange(0, k + 1).drop_last() =~= all.subrange(0, k as int));
                    assert(all.subrange(0, k + 1).last() == topics@[k as int]@);
                }
                let ghost prev = mine@;
                if self.topic_for_partition(topics[k].as_str()) as usize == i {
                    mine.push(topics[k].clone());
                    proof {
                        assert(texts_view(mine@) =~= texts_view(prev).push(topics@[k as int]@));
                    }
                }
                k = k + 1;
            }
            proof {
                assert(texts_view(topics@).subrange(0, topics.len() as int) =~= texts_view(
                    topics@,
                ));
            }
            if mine.len() > 0 {
                let addr = sock_addr.clone();
                proof {
                    assert(cloned(sock_addr, addr));
                }
                let ghost cmd_topics = mine@;
                let cmd = RegisterCmd {
                    topics: mine,
                    client_id: String::from_str(client_id),
                    offset,
                    addr,
                };
                let ghost before = self.partitions@;
                self.partitions[i].consumer.register(cmd);
                proof {
                    assert forall|j: int| 0 <= j < n && j != i implies self.partitions@[j]
                        == before[j] by {}
                    assert(self.partitions@[i as int].consumer@.regs == register_spec(
                        before[i as int].consumer@.regs,
                        client_id@,
                        addr,
                        texts_view(cmd_topics),
                        offset,
                    ));
                }
            }
            i = i + 1;
        }
        proof {
            assert(self.stores() =~= old(self).stores());
        }
    }
}

} // verus!
