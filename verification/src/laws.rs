//! What holds of a store across its operations.
//!
//! The laws are stated over `StoreView`, the plain values that the
//! operations of `StorageActor` are specified by.

use crate::codec::{DASH, dash_free, day_key, key_nonce, lemma_be_bytes_len, lemma_day_key_injective, lemma_key_nonce_of_main_key, lemma_key_topic_of_data_key, lemma_lex_successor, lemma_main_key_order, lemma_nonce_key_injective, lemma_nonce_key_order, be_value, lex_le, lex_lt, main_key, nonce_key};
use crate::listing::{
    has_key, in_range, is_suffix, lemma_listing_exists, lemma_listing_suffix, listing,
};
use crate::storage::{
    empty_store, main_key_len, nonce_of, resolve, scan_hi, scan_lo, scan_spec, trim_at_spec, trim_through,
    trim_main_key, trim_spec, victim_data, victim_main, victims, write_spec, RecordView,
    StoreView,
};
use crate::partition::{
    lemma_fresh_nonce, lemma_write_keeps_below, nonces_below, records_in,
};
use crate::consumer::{text_frames, FrameView};
use vstd::prelude::*;
use vstd::utf8::*;

verus! {

/// `dk` is a data key of `topic`: it starts with the topic and a `-`.
pub open spec fn is_data_key_of(topic: Seq<u8>, dk: Seq<u8>) -> bool {
    &&& topic.len() < dk.len()
    &&& dk.subrange(0, topic.len() as int) == topic
    &&& dk[topic.len() as int] == DASH
}

/// The main index of `s` holds the record `dk` of `topic` under nonce key
/// `nk`.
pub open spec fn main_entry(s: StoreView, topic: Seq<u8>, nk: Seq<u8>, dk: Seq<u8>) -> bool {
    is_data_key_of(topic, dk) && s.main_idx.contains_pair(topic + nk, dk)
}

/// The payload under `dk` is indexed: the nonce index gives its nonce, the
/// range index leads from that nonce back to `dk`, and so does the main
/// index, from a topic that `dk` starts with.
pub open spec fn indexed(s: StoreView, dk: Seq<u8>) -> bool {
    &&& s.nonce_idx.dom().contains(dk)
    &&& s.range_idx.contains_pair(s.nonce_idx[dk], dk)
    &&& exists|topic: Seq<u8>| #[trigger] main_entry(s, topic, s.nonce_idx[dk], dk)
}

/// The five trees agree: every range-index key is a nonce, and every payload
/// is indexed.
pub open spec fn consistent(s: StoreView) -> bool {
    &&& forall|k: Seq<u8>| #[trigger] s.range_idx.dom().contains(k) ==> k.len() == 8
    &&& forall|dk: Seq<u8>| #[trigger] s.data.dom().contains(dk) ==> indexed(s, dk)
}

/// The empty store is consistent.
pub proof fn lemma_empty_consistent()
    ensures
        consistent(empty_store()),
{
}

/// A write under a nonce that the range index does not hold yet keeps the
/// trees consistent.
pub proof fn lemma_write_consistent(
    s: StoreView,
    day: i64,
    topic: Seq<u8>,
    uid: Seq<u8>,
    nonce: u64,
    payload: Seq<u8>,
)
    requires
        consistent(s),
        !s.range_idx.dom().contains(nonce_key(nonce)),
    ensures
        consistent(write_spec(s, day, topic + seq![DASH] + uid, topic, nonce, payload)),
{
    let key = topic + seq![DASH] + uid;
    let nk = nonce_key(nonce);
    let t = write_spec(s, day, key, topic, nonce, payload);
    lemma_be_bytes_len(nonce as nat, 8);
    assert forall|dk: Seq<u8>| #[trigger] t.data.dom().contains(dk) implies indexed(t, dk) by {
        if dk == key {
            assert(key.subrange(0, topic.len() as int) =~= topic);
            assert(main_entry(t, topic, nk, key));
        } else {
            assert(s.data.dom().contains(dk));
            assert(indexed(s, dk));
            let nk1 = s.nonce_idx[dk];
            let topic1 = choose|topic1: Seq<u8>| #[trigger] main_entry(s, topic1, nk1, dk);
            assert(s.range_idx.dom().contains(nk1));
            if topic1 + nk1 == topic + nk {
                let joined = topic1 + nk1;
                assert(nk1 =~= joined.subrange(joined.len() - 8, joined.len() as int));
                assert(nk =~= joined.subrange(joined.len() - 8, joined.len() as int));
            }
            assert(main_entry(t, topic1, nk1, dk));
        }
    }
}

/// A write under a nonce that the range index does not hold yet adds one
/// record to it.
pub proof fn lemma_write_count(
    s: StoreView,
    day: i64,
    key: Seq<u8>,
    topic: Seq<u8>,
    nonce: u64,
    payload: Seq<u8>,
)
    requires
        s.range_idx.dom().finite(),
        !s.range_idx.dom().contains(nonce_key(nonce)),
    ensures
        write_spec(s, day, key, topic, nonce, payload).range_idx.dom().finite(),
        write_spec(s, day, key, topic, nonce, payload).range_idx.dom().len()
            == s.range_idx.dom().len() + 1,
{
}

/// One write, as plain values.
pub struct WriteView {
    pub day: i64,
    pub topic: Seq<u8>,
    pub uid: Seq<u8>,
    pub nonce: u64,
    pub payload: Seq<u8>,
}

/// The store after write `w`.
pub open spec fn apply_write(s: StoreView, w: WriteView) -> StoreView {
    write_spec(s, w.day, write_key(w), w.topic, w.nonce, w.payload)
}

/// The store after the writes `writes`, in their order.
pub open spec fn replay(s: StoreView, writes: Seq<WriteView>) -> StoreView
    decreases writes.len(),
{
    if writes.len() == 0 {
        s
    } else {
        apply_write(replay(s, writes.drop_last()), writes.last())
    }
}

/// The nonces of `writes` lie above `mark` and ascend, as the nonces do that
/// one sequencer hands out.
pub open spec fn sequenced(mark: u64, writes: Seq<WriteView>) -> bool {
    &&& forall|i: int| 0 <= i < writes.len() ==> mark < (#[trigger] writes[i]).nonce
    &&& forall|i: int, j: int|
        #![trigger writes[i], writes[j]]
        0 <= i < j < writes.len() ==> writes[i].nonce < writes[j].nonce
}

/// The mark after the writes `writes`: the nonce of the last, or `mark` if
/// there is none.
pub open spec fn mark_after(mark: u64, writes: Seq<WriteView>) -> u64 {
    if writes.len() == 0 {
        mark
    } else {
        writes.last().nonce
    }
}

/// After `n` writes under nonces of one sequencer, a store holds `n` records
/// more, its trees agree, and its nonces lie at or below the last nonce
/// written.
pub proof fn lemma_replay(s: StoreView, mark: u64, writes: Seq<WriteView>)
    requires
        consistent(s),
        nonces_below(s, mark),
        s.range_idx.dom().finite(),
        sequenced(mark, writes),
    ensures
        consistent(replay(s, writes)),
        nonces_below(replay(s, writes), mark_after(mark, writes)),
        replay(s, writes).range_idx.dom().finite(),
        replay(s, writes).range_idx.dom().len() == s.range_idx.dom().len() + writes.len(),
    decreases writes.len(),
{
    if writes.len() > 0 {
        let head = writes.drop_last();
        let w = writes.last();
        assert(sequenced(mark, head)) by {
            assert forall|i: int| 0 <= i < head.len() implies mark < (#[trigger] head[i]).nonce by {
                assert(head[i] == writes[i]);
            }
            assert forall|i: int, j: int|
                #![trigger head[i], head[j]]
                0 <= i < j < head.len() implies head[i].nonce < head[j].nonce by {
                assert(head[i] == writes[i]);
                assert(head[j] == writes[j]);
            }
        }
        lemma_replay(s, mark, head);
        let before = replay(s, head);
        let m = mark_after(mark, head);
        assert(m < w.nonce) by {
            assert(w == writes[writes.len() - 1]);
            if head.len() > 0 {
                assert(head.last() == writes[writes.len() - 2]);
            }
        }
        lemma_fresh_nonce(before, m, w.nonce);
        lemma_write_consistent(before, w.day, w.topic, w.uid, w.nonce, w.payload);
        lemma_write_count(
            before,
            w.day,
            w.topic + seq![DASH] + w.uid,
            w.topic,
            w.nonce,
            w.payload,
        );
        lemma_write_keeps_below(
            before,
            m,
            w.day,
            w.topic + seq![DASH] + w.uid,
            w.topic,
            w.nonce,
            w.payload,
        );
    }
}

/// From the empty store, `n` writes under nonces of one sequencer give `n`
/// records.
pub proof fn lemma_replay_from_empty(mark: u64, writes: Seq<WriteView>)
    requires
        sequenced(mark, writes),
    ensures
        consistent(replay(empty_store(), writes)),
        replay(empty_store(), writes).range_idx.dom().len() == writes.len(),
{
    lemma_replay(empty_store(), mark, writes);
}

/// A write to one of several stores that adds a record there adds one to
/// the number of records of all the stores together.
pub proof fn lemma_records_in_one_more(
    before: Seq<StoreView>,
    after: Seq<StoreView>,
    p: int,
    n: int,
)
    requires
        before.len() == after.len(),
        0 <= p < before.len(),
        0 <= n <= before.len(),
        forall|i: int| 0 <= i < before.len() && i != p ==> #[trigger] after[i] == before[i],
        after[p].range_idx.dom().len() == before[p].range_idx.dom().len() + 1,
    ensures
        records_in(after, n) == records_in(before, n) + (if p < n {
            1nat
        } else {
            0nat
        }),
    decreases n,
{
    if n > 0 {
        lemma_records_in_one_more(before, after, p, n - 1);
    }
}

/// After a write, each index answers for the record written: the nonce
/// index gives its nonce, the range index and the main index its data key,
/// the payload tree its payload, and the day index the nonce as the day's
/// last.
pub proof fn lemma_write_pointwise(
    s: StoreView,
    day: i64,
    key: Seq<u8>,
    topic: Seq<u8>,
    nonce: u64,
    payload: Seq<u8>,
)
    ensures
        ({
            let t = write_spec(s, day, key, topic, nonce, payload);
            &&& t.data.contains_pair(key, payload)
            &&& nonce_of(t, key) == Some(nonce)
            &&& t.range_idx.contains_pair(nonce_key(nonce), key)
            &&& t.main_idx.contains_pair(main_key(topic, nonce), key)
            &&& t.day_idx.contains_pair(day_key(day), nonce_key(nonce))
        }),
{
    crate::codec::lemma_pow256_8();
    lemma_be_bytes_len(nonce as nat, 8);
    crate::codec::lemma_be_value_of_bytes(nonce as nat, 8);
}

/// In a store whose trees agree, the nonce index answers for every payload
/// with a nonce, and the range index leads from that nonce back to the
/// payload's data key.
pub proof fn lemma_lookup_of_payload(s: StoreView, dk: Seq<u8>)
    requires
        consistent(s),
        s.data.dom().contains(dk),
    ensures
        nonce_of(s, dk) is Some,
        s.range_idx.contains_pair(nonce_key(nonce_of(s, dk)->0), dk),
{
    assert(indexed(s, dk));
    let nk = s.nonce_idx[dk];
    assert(s.range_idx.dom().contains(nk));
    crate::codec::lemma_be_value_bound(nk);
    crate::codec::lemma_pow256_8();
    crate::codec::lemma_be_bytes_of_value(nk);
}

/// Trimming keeps the trees consistent.
pub proof fn lemma_trim_consistent(s: StoreView, cutoff: i64)
    requires
        consistent(s),
    ensures
        consistent(trim_spec(s, cutoff)),
{
    if s.day_idx.dom().contains(day_key(cutoff)) {
        let pivot = s.day_idx[day_key(cutoff)];
        let t = trim_through(s, pivot);
        assert forall|dk: Seq<u8>| #[trigger] t.data.dom().contains(dk) implies indexed(t, dk) by {
            assert(s.data.dom().contains(dk));
            assert(indexed(s, dk));
            assert(!victim_data(s.range_idx, pivot).contains(dk));
            let nk = s.nonce_idx[dk];
            let topic = choose|topic: Seq<u8>| #[trigger] main_entry(s, topic, nk, dk);
            assert(s.range_idx.dom().contains(nk));
            assert(!lex_le(nk, pivot));
            if victim_main(s.range_idx, pivot).contains(topic + nk) {
                let k = choose|k: Seq<u8>| #[trigger]
                    s.range_idx.dom().contains(k) && lex_le(k, pivot) && trim_main_key(
                        k,
                        s.range_idx[k],
                    ) == topic + nk;
                let joined = topic + nk;
                assert(k.len() == 8 && nk.len() == 8);
                assert(nk =~= joined.subrange(joined.len() - 8, joined.len() as int));
                assert(k =~= joined.subrange(joined.len() - 8, joined.len() as int));
            }
            assert(main_entry(t, topic, nk, dk));
        }
    }
}

/// Trimming twice at one day leaves what trimming once leaves.
pub proof fn lemma_trim_idempotent(s: StoreView, cutoff: i64)
    ensures
        trim_spec(trim_spec(s, cutoff), cutoff) == trim_spec(s, cutoff),
{
    if s.day_idx.dom().contains(day_key(cutoff)) {
        let pivot = s.day_idx[day_key(cutoff)];
        let t = trim_through(s, pivot);
        let u = trim_through(t, pivot);
        assert(victims(t.range_idx, pivot) =~= Set::<Seq<u8>>::empty());
        assert(victim_data(t.range_idx, pivot) =~= Set::<Seq<u8>>::empty());
        assert(victim_main(t.range_idx, pivot) =~= Set::<Seq<u8>>::empty());
        assert(u.data =~= t.data);
        assert(u.main_idx =~= t.main_idx);
        assert(u.range_idx =~= t.range_idx);
        assert(u.nonce_idx =~= t.nonce_idx);
    }
}

/// Trimming twice on one day, for one number of days, leaves what trimming
/// once leaves.
pub proof fn lemma_trim_at_idempotent(s: StoreView, today: i64, days: u16)
    ensures
        trim_at_spec(trim_at_spec(s, today, days), today, days) == trim_at_spec(s, today, days),
{
    if today - 86400 * (days + 1) >= i64::MIN {
        lemma_trim_idempotent(s, (today - 86400 * (days + 1)) as i64);
    }
}

/// After a trim, a record whose range-index key lay at or below the pivot
/// is in none of the four trees that held it: not under its key in the range
/// index, not under its data key in the payload tree and the nonce index,
/// and not under the topic read off its data key in the main index.
pub proof fn lemma_trim_removes(s: StoreView, cutoff: i64, k: Seq<u8>)
    requires
        s.day_idx.dom().contains(day_key(cutoff)),
        s.range_idx.dom().contains(k),
        lex_le(k, s.day_idx[day_key(cutoff)]),
    ensures
        ({
            let t = trim_spec(s, cutoff);
            let dk = s.range_idx[k];
            &&& !t.range_idx.dom().contains(k)
            &&& !t.data.dom().contains(dk)
            &&& !t.nonce_idx.dom().contains(dk)
            &&& !t.main_idx.dom().contains(trim_main_key(k, dk))
        }),
{
    let pivot = s.day_idx[day_key(cutoff)];
    assert(victims(s.range_idx, pivot).contains(k));
    assert(victim_data(s.range_idx, pivot).contains(s.range_idx[k]));
    assert(victim_main(s.range_idx, pivot).contains(trim_main_key(k, s.range_idx[k])));
}

/// After a trim whose pivot is nonce `pivot`, the range index holds no nonce
/// at or below it, and holds every nonce above it as before.
pub proof fn lemma_trim_by_nonce(s: StoreView, cutoff: i64, pivot: u64, n: u64)
    requires
        s.day_idx.contains_pair(day_key(cutoff), nonce_key(pivot)),
    ensures
        n <= pivot ==> !trim_spec(s, cutoff).range_idx.dom().contains(nonce_key(n)),
        n > pivot && s.range_idx.dom().contains(nonce_key(n)) ==> trim_spec(
            s,
            cutoff,
        ).range_idx.contains_pair(nonce_key(n), s.range_idx[nonce_key(n)]),
{
    lemma_nonce_key_order(n, pivot);
    if n > pivot {
        lemma_nonce_key_order(pivot, n);
        crate::codec::lemma_lex_asymmetric(nonce_key(pivot), nonce_key(n));
    }
}

/// The main-index key that a trim removes for a record is the key that its
/// write put there, if the topic holds no `-`.
pub proof fn lemma_trim_main_key_of_write(topic: Seq<u8>, uid: Seq<u8>, nonce: u64)
    requires
        dash_free(topic),
    ensures
        trim_main_key(nonce_key(nonce), topic + seq![DASH] + uid) == main_key(topic, nonce),
{
    lemma_key_topic_of_data_key(topic, uid);
}

/// A trim leaves the day index as it was.
pub proof fn lemma_trim_keeps_days(s: StoreView, cutoff: i64)
    ensures
        trim_spec(s, cutoff).day_idx == s.day_idx,
{
}

/// The data key of write `w`.
pub open spec fn write_key(w: WriteView) -> Seq<u8> {
    w.topic + seq![DASH] + w.uid
}

/// After writes under ascending nonces, the range index leads from the nonce
/// of each write to its data key.
pub proof fn lemma_replay_range(s: StoreView, mark: u64, writes: Seq<WriteView>, j: int)
    requires
        sequenced(mark, writes),
        0 <= j < writes.len(),
    ensures
        replay(s, writes).range_idx.contains_pair(nonce_key(writes[j].nonce), write_key(writes[j])),
    decreases writes.len(),
{
    let head = writes.drop_last();
    let w = writes.last();
    if j < writes.len() - 1 {
        assert(sequenced(mark, head)) by {
            assert forall|i: int| 0 <= i < head.len() implies mark < (#[trigger] head[i]).nonce by {
                assert(head[i] == writes[i]);
            }
            assert forall|a: int, b: int|
                #![trigger head[a], head[b]]
                0 <= a < b < head.len() implies head[a].nonce < head[b].nonce by {
                assert(head[a] == writes[a]);
                assert(head[b] == writes[b]);
            }
        }
        lemma_replay_range(s, mark, head, j);
        assert(head[j] == writes[j]);
        assert(writes[j].nonce < writes[writes.len() - 1].nonce);
        if nonce_key(w.nonce) == nonce_key(writes[j].nonce) {
            lemma_nonce_key_injective(w.nonce, writes[j].nonce);
        }
    }
}

/// After writes, the day index holds for each day the nonce of the last
/// write of that day.
pub proof fn lemma_replay_day(s: StoreView, writes: Seq<WriteView>, k: int)
    requires
        0 <= k < writes.len(),
        forall|i: int| k < i < writes.len() ==> (#[trigger] writes[i]).day != writes[k].day,
    ensures
        replay(s, writes).day_idx.contains_pair(
            day_key(writes[k].day),
            nonce_key(writes[k].nonce),
        ),
    decreases writes.len(),
{
    let head = writes.drop_last();
    let w = writes.last();
    if k < writes.len() - 1 {
        assert(head[k] == writes[k]);
        assert forall|i: int| k < i < head.len() implies (#[trigger] head[i]).day
            != head[k].day by {
            assert(head[i] == writes[i]);
        }
        lemma_replay_day(s, head, k);
        assert(writes[writes.len() - 1].day != writes[k].day);
        if day_key(w.day) == day_key(writes[k].day) {
            lemma_day_key_injective(w.day, writes[k].day);
        }
    }
}

/// A trim at a day removes every record written up to and including the
/// last write of that day: the record is gone from the range index, the
/// payload tree and the nonce index, and, if its topic holds no `-`, from
/// the main index.
pub proof fn lemma_trim_by_write(
    s: StoreView,
    mark: u64,
    writes: Seq<WriteView>,
    k: int,
    j: int,
)
    requires
        sequenced(mark, writes),
        0 <= j <= k < writes.len(),
        forall|i: int| k < i < writes.len() ==> (#[trigger] writes[i]).day != writes[k].day,
    ensures
        ({
            let t = trim_spec(replay(s, writes), writes[k].day);
            let w = writes[j];
            &&& !t.range_idx.dom().contains(nonce_key(w.nonce))
            &&& !t.data.dom().contains(write_key(w))
            &&& !t.nonce_idx.dom().contains(write_key(w))
            &&& dash_free(w.topic) ==> !t.main_idx.dom().contains(main_key(w.topic, w.nonce))
        }),
{
    let after = replay(s, writes);
    let cutoff = writes[k].day;
    lemma_replay_day(s, writes, k);
    lemma_replay_range(s, mark, writes, j);
    if j < k {
        assert(writes[j].nonce < writes[k].nonce);
    }
    lemma_nonce_key_order(writes[j].nonce, writes[k].nonce);
    lemma_trim_removes(after, cutoff, nonce_key(writes[j].nonce));
    if dash_free(writes[j].topic) {
        lemma_trim_main_key_of_write(writes[j].topic, writes[j].uid, writes[j].nonce);
    }
}

/// A trim at a day leaves in the range index every record written after the
/// last write of that day.
pub proof fn lemma_trim_keeps_later_writes(
    s: StoreView,
    mark: u64,
    writes: Seq<WriteView>,
    k: int,
    j: int,
)
    requires
        sequenced(mark, writes),
        0 <= k < j < writes.len(),
        forall|i: int| k < i < writes.len() ==> (#[trigger] writes[i]).day != writes[k].day,
    ensures
        trim_spec(replay(s, writes), writes[k].day).range_idx.contains_pair(
            nonce_key(writes[j].nonce),
            write_key(writes[j]),
        ),
{
    let after = replay(s, writes);
    lemma_replay_day(s, writes, k);
    lemma_replay_range(s, mark, writes, j);
    assert(writes[k].nonce < writes[j].nonce);
    lemma_trim_by_nonce(after, writes[k].day, writes[k].nonce, writes[j].nonce);
}

/// The writes come in the order of their days.
pub open spec fn days_ascend(writes: Seq<WriteView>) -> bool {
    forall|i: int, j: int|
        #![trigger writes[i], writes[j]]
        0 <= i < j < writes.len() ==> writes[i].day <= writes[j].day
}

/// A trim at a day on which something was written removes every record
/// written on that day or before it, when the writes came in the order of
/// their days.
pub proof fn lemma_trim_drops_days(
    s: StoreView,
    mark: u64,
    writes: Seq<WriteView>,
    k: int,
    j: int,
)
    requires
        sequenced(mark, writes),
        days_ascend(writes),
        0 <= k < writes.len(),
        0 <= j < writes.len(),
        writes[j].day <= writes[k].day,
        forall|i: int| k < i < writes.len() ==> (#[trigger] writes[i]).day != writes[k].day,
    ensures
        ({
            let t = trim_spec(replay(s, writes), writes[k].day);
            let w = writes[j];
            &&& !t.range_idx.dom().contains(nonce_key(w.nonce))
            &&& !t.data.dom().contains(write_key(w))
            &&& !t.nonce_idx.dom().contains(write_key(w))
            &&& dash_free(w.topic) ==> !t.main_idx.dom().contains(main_key(w.topic, w.nonce))
        }),
{
    if k < j {
        assert(writes[k].day <= writes[j].day);
        assert(writes[j].day != writes[k].day);
    } else {
        lemma_trim_by_write(s, mark, writes, k, j);
    }
}

/// Resolving goes through concatenation.
pub proof fn lemma_resolve_concat(
    x: Seq<(Seq<u8>, Seq<u8>)>,
    y: Seq<(Seq<u8>, Seq<u8>)>,
    data: Map<Seq<u8>, Seq<u8>>,
    key_len: nat,
)
    ensures
        resolve(x + y, data, key_len) == resolve(x, data, key_len) + resolve(y, data, key_len),
    decreases y.len(),
{
    if y.len() == 0 {
        assert(x + y =~= x);
        assert(resolve(x, data, key_len) + resolve(y, data, key_len) =~= resolve(
            x,
            data,
            key_len,
        ));
    } else {
        lemma_resolve_concat(x, y.drop_last(), data, key_len);
        assert((x + y).drop_last() =~= x + y.drop_last());
        assert((x + y).last() == y.last());
        assert(resolve(x + y, data, key_len) =~= resolve(x, data, key_len) + resolve(
            y,
            data,
            key_len,
        ));
    }
}

/// The record that main-index entry `e` leads to.
pub open spec fn record_of(e: (Seq<u8>, Seq<u8>), data: Map<Seq<u8>, Seq<u8>>) -> RecordView {
    RecordView { nonce: key_nonce(e.0), data_key: e.1, payload: data[e.1] }
}

/// Every listed entry with a key of the length asked for, whose data key has
/// a payload, gives a record.
pub proof fn lemma_resolve_contains(
    items: Seq<(Seq<u8>, Seq<u8>)>,
    data: Map<Seq<u8>, Seq<u8>>,
    key_len: nat,
    i: int,
)
    requires
        0 <= i < items.len(),
        items[i].0.len() == key_len,
        data.dom().contains(items[i].1),
    ensures
        resolve(items, data, key_len).contains(record_of(items[i], data)),
    decreases items.len(),
{
    let rest = resolve(items.drop_last(), data, key_len);
    let all = resolve(items, data, key_len);
    if i == items.len() - 1 {
        assert(all[all.len() - 1] == record_of(items[i], data));
    } else {
        lemma_resolve_contains(items.drop_last(), data, key_len, i);
        let r = record_of(items[i], data);
        let j = choose|j: int| 0 <= j < rest.len() && rest[j] == r;
        assert(all[j] == r);
    }
}

/// Every record that resolving gives stems from a listed entry with a key of
/// the length asked for, whose data key has a payload.
pub proof fn lemma_resolve_origin(
    items: Seq<(Seq<u8>, Seq<u8>)>,
    data: Map<Seq<u8>, Seq<u8>>,
    key_len: nat,
    r: int,
)
    requires
        0 <= r < resolve(items, data, key_len).len(),
    ensures
        exists|i: int|
            0 <= i < items.len() && (#[trigger] items[i]).0.len() == key_len
                && data.dom().contains(items[i].1) && resolve(items, data, key_len)[r]
                == record_of(items[i], data),
    decreases items.len(),
{
    let rest = resolve(items.drop_last(), data, key_len);
    if r < rest.len() {
        lemma_resolve_origin(items.drop_last(), data, key_len, r);
        let i = choose|i: int|
            0 <= i < items.drop_last().len() && (#[trigger] items.drop_last()[i]).0.len()
                == key_len && data.dom().contains(items.drop_last()[i].1) && rest[r] == record_of(
                items.drop_last()[i],
                data,
            );
        assert(items[i] == items.drop_last()[i]);
    } else {
        assert(items[items.len() - 1] == items.last());
    }
}

/// Record `rec` stems from entry `i` of `items`: the entry has a key of the
/// length asked for and a payload, and leads to the record.
pub open spec fn stems_from(
    items: Seq<(Seq<u8>, Seq<u8>)>,
    data: Map<Seq<u8>, Seq<u8>>,
    key_len: nat,
    rec: RecordView,
    i: int,
) -> bool {
    &&& 0 <= i < items.len()
    &&& items[i].0.len() == key_len
    &&& data.dom().contains(items[i].1)
    &&& rec == record_of(items[i], data)
}

/// Resolving keeps the order of the entries: of two records, the earlier
/// stems from the earlier entry.
pub proof fn lemma_resolve_in_order(
    items: Seq<(Seq<u8>, Seq<u8>)>,
    data: Map<Seq<u8>, Seq<u8>>,
    key_len: nat,
    r1: int,
    r2: int,
)
    requires
        0 <= r1 < r2 < resolve(items, data, key_len).len(),
    ensures
        exists|i1: int, i2: int|
            i1 < i2 && #[trigger] stems_from(
                items,
                data,
                key_len,
                resolve(items, data, key_len)[r1],
                i1,
            ) && #[trigger] stems_from(items, data, key_len, resolve(items, data, key_len)[r2], i2),
    decreases items.len(),
{
    let head = items.drop_last();
    let rest = resolve(head, data, key_len);
    let out = resolve(items, data, key_len);
    if r2 < rest.len() {
        lemma_resolve_in_order(head, data, key_len, r1, r2);
        let (i1, i2) = choose|i1: int, i2: int|
            i1 < i2 && #[trigger] stems_from(head, data, key_len, rest[r1], i1)
                && #[trigger] stems_from(head, data, key_len, rest[r2], i2);
        assert(items[i1] == head[i1]);
        assert(items[i2] == head[i2]);
        assert(stems_from(items, data, key_len, out[r1], i1));
        assert(stems_from(items, data, key_len, out[r2], i2));
    } else {
        lemma_resolve_origin(head, data, key_len, r1);
        let i1 = choose|i: int|
            0 <= i < head.len() && (#[trigger] head[i]).0.len() == key_len
                && data.dom().contains(head[i].1) && rest[r1] == record_of(head[i], data);
        let i2 = items.len() - 1;
        assert(items[i1] == head[i1]);
        assert(items[i2] == items.last());
        assert(stems_from(items, data, key_len, out[r1], i1));
        assert(stems_from(items, data, key_len, out[r2], i2));
    }
}

/// A key of the length of the topic's main keys that lies in the range of a
/// scan of `topic` from `offset` is the main key of the topic for a nonce at
/// or above the offset.
pub proof fn lemma_key_of_topic(topic: Seq<u8>, offset: u64, k: Seq<u8>) -> (n: u64)
    requires
        in_range(k, scan_lo(topic, offset), scan_hi(topic)),
        k.len() == main_key_len(topic),
    ensures
        offset <= n,
        k == main_key(topic, n),
        key_nonce(k) == n,
{
    let lo = scan_lo(topic, offset);
    let top = main_key(topic, u64::MAX);
    let hi = scan_hi(topic);
    let t = topic.len() as int;
    lemma_be_bytes_len(offset as nat, 8);
    lemma_be_bytes_len(u64::MAX as nat, 8);
    crate::codec::lemma_mismatch(lo, k);
    crate::codec::lemma_mismatch(k, hi);
    let m1 = crate::codec::mismatch(lo, k);
    if lo != k && m1 < t {
        assert(lo[m1] == topic[m1]);
        assert(hi[m1] == topic[m1]);
        assert forall|j: int| 0 <= j < m1 implies k[j] == hi[j] by {
            assert(lo[j] == topic[j]);
            assert(hi[j] == topic[j]);
        }
        crate::codec::lemma_mismatch_is(k, hi, m1);
    }
    if lo == k {
        assert(k.subrange(0, t) =~= topic);
    } else {
        assert forall|j: int| 0 <= j < t implies k[j] == topic[j] by {
            assert(lo[j] == topic[j]);
        }
        assert(k.subrange(0, t) =~= topic);
    }
    let tail = k.subrange(t, t + 8);
    assert(k =~= topic + tail);
    assert(k == topic + tail);
    assert(lo == topic + nonce_key(offset));
    assert(tail.len() == 8 && nonce_key(offset).len() == 8);
    if lo == k {
        assert(tail =~= nonce_key(offset));
    } else {
        assert(lex_lt(topic + nonce_key(offset), topic + tail));
    }
    crate::codec::lemma_lex_common_prefix(topic, nonce_key(offset), tail);
    crate::codec::lemma_be_order(nonce_key(offset), tail);
    crate::codec::lemma_be_order(tail, nonce_key(offset));
    crate::codec::lemma_be_value_bound(tail);
    crate::codec::lemma_pow256_8();
    crate::codec::lemma_be_value_of_bytes(offset as nat, 8);
    crate::codec::lemma_be_bytes_of_value(tail);
    let n = be_value(tail) as u64;
    lemma_key_nonce_of_main_key(topic, n);
    n
}

/// Every record of a scan of `topic` from `offset` is a record of that
/// topic: it stands in the main index under the topic and a nonce at or
/// above the offset, carries that nonce, and its payload is what the payload
/// tree holds for its data key. No record of another topic is among them.
pub proof fn lemma_scan_records(s: StoreView, topic: Seq<u8>, offset: u64, r: int) -> (n: u64)
    requires
        s.main_idx.dom().finite(),
        0 <= r < scan_spec(s, topic, offset).len(),
    ensures
        offset <= n,
        scan_spec(s, topic, offset)[r].nonce == n,
        s.main_idx.contains_pair(main_key(topic, n), scan_spec(s, topic, offset)[r].data_key),
        s.data.contains_pair(
            scan_spec(s, topic, offset)[r].data_key,
            scan_spec(s, topic, offset)[r].payload,
        ),
{
    lemma_listing_exists(s.main_idx, scan_lo(topic, offset), scan_hi(topic));
    let l = listing(s.main_idx, scan_lo(topic, offset), scan_hi(topic));
    lemma_resolve_origin(l, s.data, main_key_len(topic), r);
    let i = choose|i: int|
        0 <= i < l.len() && (#[trigger] l[i]).0.len() == main_key_len(topic)
            && s.data.dom().contains(l[i].1) && resolve(l, s.data, main_key_len(topic))[r]
            == record_of(l[i], s.data);
    assert(in_range(l[i].0, scan_lo(topic, offset), scan_hi(topic)));
    assert(s.main_idx.contains_pair(l[i].0, l[i].1));
    lemma_key_of_topic(topic, offset, l[i].0)
}

/// A scan from an offset is what a scan from any lower offset ends in: the
/// two agree on every record from the higher offset on, and the lower scan
/// only adds records before them.
pub proof fn lemma_scan_suffix(s: StoreView, topic: Seq<u8>, low: u64, high: u64)
    requires
        low <= high,
        s.main_idx.dom().finite(),
    ensures
        is_suffix(scan_spec(s, topic, high), scan_spec(s, topic, low)),
{
    lemma_listing_exists(s.main_idx, scan_lo(topic, low), scan_hi(topic));
    lemma_listing_exists(s.main_idx, scan_lo(topic, high), scan_hi(topic));
    let l1 = listing(s.main_idx, scan_lo(topic, low), scan_hi(topic));
    let l2 = listing(s.main_idx, scan_lo(topic, high), scan_hi(topic));
    lemma_main_key_order(topic, low, high);
    lemma_listing_suffix(
        s.main_idx,
        scan_lo(topic, low),
        scan_lo(topic, high),
        scan_hi(topic),
        l1,
        l2,
    );
    let head = l1.subrange(0, l1.len() - l2.len());
    assert(l1 =~= head + l2);
    lemma_resolve_concat(head, l2, s.data, main_key_len(topic));
    let r1 = scan_spec(s, topic, low);
    let r2 = scan_spec(s, topic, high);
    assert(r1.subrange(r1.len() - r2.len(), r1.len() as int) =~= r2);
}

/// Moving the offset of a scan from `low` up to `high` leaves out exactly
/// the records with nonces below `high`: what the scan from `low` holds
/// before the scan from `high` begins are records with nonces from `low` up
/// to, but not including, `high`. So a subscriber whose offset moves past
/// the last nonce it was handed is offered nothing twice and misses nothing.
pub proof fn lemma_scan_split(s: StoreView, topic: Seq<u8>, low: u64, high: u64, r: int)
    requires
        low <= high,
        s.main_idx.dom().finite(),
        0 <= r < scan_spec(s, topic, low).len() - scan_spec(s, topic, high).len(),
    ensures
        low <= scan_spec(s, topic, low)[r].nonce < high,
{
    lemma_listing_exists(s.main_idx, scan_lo(topic, low), scan_hi(topic));
    lemma_listing_exists(s.main_idx, scan_lo(topic, high), scan_hi(topic));
    let l1 = listing(s.main_idx, scan_lo(topic, low), scan_hi(topic));
    let l2 = listing(s.main_idx, scan_lo(topic, high), scan_hi(topic));
    lemma_main_key_order(topic, low, high);
    lemma_listing_suffix(
        s.main_idx,
        scan_lo(topic, low),
        scan_lo(topic, high),
        scan_hi(topic),
        l1,
        l2,
    );
    let head = l1.subrange(0, l1.len() - l2.len());
    assert(l1 =~= head + l2);
    let len = main_key_len(topic);
    lemma_resolve_concat(head, l2, s.data, len);
    let out = resolve(head, s.data, len);
    assert(scan_spec(s, topic, low)[r] == out[r]);
    lemma_resolve_origin(head, s.data, len, r);
    let i = choose|i: int|
        0 <= i < head.len() && (#[trigger] head[i]).0.len() == len && s.data.dom().contains(
            head[i].1,
        ) && out[r] == record_of(head[i], s.data);
    assert(head[i] == l1[i]);
    assert(in_range(l1[i].0, scan_lo(topic, low), scan_hi(topic)));
    assert(lex_lt(l1[i].0, scan_lo(topic, high)));
    let n = lemma_key_of_topic(topic, low, l1[i].0);
    lemma_main_key_order(topic, n, high);
}

/// A scan goes by strictly ascending nonce: no nonce comes twice, and none
/// out of turn.
pub proof fn lemma_scan_ascending(s: StoreView, topic: Seq<u8>, offset: u64, r1: int, r2: int)
    requires
        s.main_idx.dom().finite(),
        0 <= r1 < r2 < scan_spec(s, topic, offset).len(),
    ensures
        scan_spec(s, topic, offset)[r1].nonce < scan_spec(s, topic, offset)[r2].nonce,
{
    lemma_listing_exists(s.main_idx, scan_lo(topic, offset), scan_hi(topic));
    let l = listing(s.main_idx, scan_lo(topic, offset), scan_hi(topic));
    let len = main_key_len(topic);
    let out = resolve(l, s.data, len);
    lemma_resolve_in_order(l, s.data, len, r1, r2);
    let (i1, i2) = choose|i1: int, i2: int|
        i1 < i2 && #[trigger] stems_from(l, s.data, len, out[r1], i1) && #[trigger] stems_from(
            l,
            s.data,
            len,
            out[r2],
            i2,
        );
    assert(lex_lt(l[i1].0, l[i2].0));
    assert(in_range(l[i1].0, scan_lo(topic, offset), scan_hi(topic)));
    assert(in_range(l[i2].0, scan_lo(topic, offset), scan_hi(topic)));
    let n1 = lemma_key_of_topic(topic, offset, l[i1].0);
    let n2 = lemma_key_of_topic(topic, offset, l[i2].0);
    lemma_main_key_order(topic, n1, n2);
}

/// Resuming after the `k`-th record of a scan yields the rest of it, and
/// nothing else: the scan from one past that record's nonce is the scan
/// without its first `k` records. A subscriber whose offset moves past the
/// last record it took is so offered, over any number of passes, every
/// record once, in nonce order, with no gap.
pub proof fn lemma_scan_resume(s: StoreView, topic: Seq<u8>, offset: u64, k: int)
    requires
        s.main_idx.dom().finite(),
        0 < k <= scan_spec(s, topic, offset).len(),
        scan_spec(s, topic, offset)[k - 1].nonce < u64::MAX,
    ensures
        scan_spec(s, topic, (scan_spec(s, topic, offset)[k - 1].nonce + 1) as u64) == scan_spec(
            s,
            topic,
            offset,
        ).subrange(k, scan_spec(s, topic, offset).len() as int),
{
    let all = scan_spec(s, topic, offset);
    let n = lemma_scan_records(s, topic, offset, k - 1);
    let high = (n + 1) as u64;
    let rest = scan_spec(s, topic, high);
    lemma_scan_suffix(s, topic, offset, high);
    let cut = all.len() - rest.len();
    if k - 1 >= cut {
        let m = lemma_scan_records(s, topic, high, k - 1 - cut);
        assert(rest[k - 1 - cut] == all[k - 1]);
    }
    if k < cut {
        lemma_scan_split(s, topic, offset, high, k);
        lemma_scan_ascending(s, topic, offset, k - 1, k);
    }
    assert(cut == k);
}

/// Scans of one offset agree with each other from any third offset on: what
/// two scans from `a` and `b` hold from `c >= a, b` on is the scan from `c`.
pub proof fn lemma_scans_agree(s: StoreView, topic: Seq<u8>, a: u64, b: u64, c: u64)
    requires
        a <= c,
        b <= c,
        s.main_idx.dom().finite(),
    ensures
        is_suffix(scan_spec(s, topic, c), scan_spec(s, topic, a)),
        is_suffix(scan_spec(s, topic, c), scan_spec(s, topic, b)),
{
    lemma_scan_suffix(s, topic, a, c);
    lemma_scan_suffix(s, topic, b, c);
}

/// The main-index key of nonce `n` on `topic` lies in the range of a scan of
/// `topic` exactly if `n` is at or above the scan's offset.
pub proof fn lemma_scan_range(topic: Seq<u8>, offset: u64, n: u64)
    ensures
        in_range(main_key(topic, n), scan_lo(topic, offset), scan_hi(topic)) == (offset <= n),
{
    lemma_main_key_order(topic, offset, n);
    lemma_main_key_order(topic, n, u64::MAX);
    lemma_lex_successor(main_key(topic, n), main_key(topic, u64::MAX));
}

/// Among the records of one topic, a scan goes by ascending nonce: of two
/// listed main-index keys of `topic`, the one with the lower nonce comes
/// first.
pub proof fn lemma_scan_order(
    s: StoreView,
    topic: Seq<u8>,
    offset: u64,
    i: int,
    j: int,
    a: u64,
    b: u64,
)
    requires
        s.main_idx.dom().finite(),
        0 <= i < j < listing(s.main_idx, scan_lo(topic, offset), scan_hi(topic)).len(),
        listing(s.main_idx, scan_lo(topic, offset), scan_hi(topic))[i].0 == main_key(topic, a),
        listing(s.main_idx, scan_lo(topic, offset), scan_hi(topic))[j].0 == main_key(topic, b),
    ensures
        offset <= a < b,
{
    lemma_listing_exists(s.main_idx, scan_lo(topic, offset), scan_hi(topic));
    let l = listing(s.main_idx, scan_lo(topic, offset), scan_hi(topic));
    assert(lex_lt(l[i].0, l[j].0));
    lemma_main_key_order(topic, a, b);
    assert(in_range(l[i].0, scan_lo(topic, offset), scan_hi(topic)));
    lemma_scan_range(topic, offset, a);
}

/// A record that was written is found by every scan of its topic from an
/// offset at or below its nonce, with the payload that was written.
pub proof fn lemma_scan_finds_written(
    s: StoreView,
    day: i64,
    key: Seq<u8>,
    topic: Seq<u8>,
    nonce: u64,
    payload: Seq<u8>,
    offset: u64,
)
    requires
        offset <= nonce,
        s.main_idx.dom().finite(),
    ensures
        scan_spec(write_spec(s, day, key, topic, nonce, payload), topic, offset).contains(
            RecordView { nonce: nonce as nat, data_key: key, payload },
        ),
{
    let t = write_spec(s, day, key, topic, nonce, payload);
    lemma_listing_exists(t.main_idx, scan_lo(topic, offset), scan_hi(topic));
    let l = listing(t.main_idx, scan_lo(topic, offset), scan_hi(topic));
    let mk = main_key(topic, nonce);
    lemma_scan_range(topic, offset, nonce);
    assert(t.main_idx.dom().contains(mk));
    assert(has_key(l, mk));
    let i = choose|i: int| 0 <= i < l.len() && (#[trigger] l[i]).0 == mk;
    assert(t.main_idx.contains_pair(l[i].0, l[i].1));
    lemma_key_nonce_of_main_key(topic, nonce);
    lemma_be_bytes_len(nonce as nat, 8);
    lemma_resolve_contains(l, t.data, main_key_len(topic), i);
}

/// A scan from above a record's nonce does not return the record's
/// main-index entry.
pub proof fn lemma_scan_skips_below(s: StoreView, topic: Seq<u8>, offset: u64, n: u64)
    requires
        n < offset,
        s.main_idx.dom().finite(),
    ensures
        !has_key(listing(s.main_idx, scan_lo(topic, offset), scan_hi(topic)), main_key(topic, n)),
{
    lemma_listing_exists(s.main_idx, scan_lo(topic, offset), scan_hi(topic));
    let l = listing(s.main_idx, scan_lo(topic, offset), scan_hi(topic));
    lemma_scan_range(topic, offset, n);
    if has_key(l, main_key(topic, n)) {
        let i = choose|i: int| 0 <= i < l.len() && (#[trigger] l[i]).0 == main_key(topic, n);
        assert(in_range(l[i].0, scan_lo(topic, offset), scan_hi(topic)));
    }
}

/// Every record whose payload is text gives a frame with that text.
pub proof fn lemma_text_frames_contains(records: Seq<RecordView>, i: int)
    requires
        0 <= i < records.len(),
        valid_utf8(records[i].payload),
    ensures
        text_frames(records).contains(
            FrameView { data_key: records[i].data_key, text: decode_utf8(records[i].payload) },
        ),
    decreases records.len(),
{
    let rest = text_frames(records.drop_last());
    let all = text_frames(records);
    let f = FrameView { data_key: records[i].data_key, text: decode_utf8(records[i].payload) };
    if i == records.len() - 1 {
        assert(all[all.len() - 1] == f);
    } else {
        lemma_text_frames_contains(records.drop_last(), i);
        let j = choose|j: int| 0 <= j < rest.len() && rest[j] == f;
        assert(all[j] == f);
    }
}

/// Round trip: a text that was written under a topic is among the frames
/// that a subscriber of the topic is offered from any offset at or below
/// the nonce it was written under, unchanged and under its data key.
pub proof fn lemma_written_is_offered(
    s: StoreView,
    day: i64,
    key: Seq<u8>,
    topic: Seq<u8>,
    nonce: u64,
    text: Seq<char>,
    offset: u64,
)
    requires
        offset <= nonce,
        s.main_idx.dom().finite(),
    ensures
        text_frames(
            scan_spec(write_spec(s, day, key, topic, nonce, encode_utf8(text)), topic, offset),
        ).contains(FrameView { data_key: key, text }),
{
    let payload = encode_utf8(text);
    let records = scan_spec(write_spec(s, day, key, topic, nonce, payload), topic, offset);
    lemma_scan_finds_written(s, day, key, topic, nonce, payload, offset);
    let rec = RecordView { nonce: nonce as nat, data_key: key, payload };
    let i = choose|i: int| 0 <= i < records.len() && records[i] == rec;
    encode_utf8_valid_utf8(text);
    encode_utf8_decode_utf8(text);
    lemma_text_frames_contains(records, i);
}

} // verus!
