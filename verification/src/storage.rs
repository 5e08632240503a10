//! The partition store: the payload tree and its four indices.
//!
//! | tree      | key                  | value                         |
//! |-----------|----------------------|-------------------------------|
//! | data      | data key             | message text                  |
//! | main_idx  | topic, then nonce    | data key                      |
//! | range_idx | nonce                | data key                      |
//! | day_idx   | day                  | nonce of the day's last write |
//! | nonce_idx | data key             | nonce                         |
//!
//! Integers in keys and values are eight bytes, big-endian.

use crate::clock::today_ts;
use crate::codec::{
    copy_bytes, be_value, bytes_to_u64, day_key, decode_key_nonce, i64to_vec, key_nonce, key_topic,
    lemma_lex_asymmetric, lemma_lex_empty_least, lemma_lex_successor, lex_le, main_key, make_key, nonce_key,
    topic_key, u64to_vec,
};
use crate::kv::{
    db_default_tree, db_open_tree, db_size_on_disk, error_text, pairs_view, tree_entries,
    tree_count, tree_flush, tree_get, tree_insert, tree_last, tree_range, tree_remove,
};
use crate::listing::{has_key, is_greatest, is_listing, lemma_listing_is, listing};
use vstd::prelude::*;
use vstd::string::*;
use vstd::utf8::*;

verus! {

/// What the five trees of a store hold.
pub struct StoreView {
    pub data: Map<Seq<u8>, Seq<u8>>,
    pub main_idx: Map<Seq<u8>, Seq<u8>>,
    pub range_idx: Map<Seq<u8>, Seq<u8>>,
    pub day_idx: Map<Seq<u8>, Seq<u8>>,
    pub nonce_idx: Map<Seq<u8>, Seq<u8>>,
}

/// One of the five trees, in the order in which a write fills them.
#[derive(Debug, Clone, Copy, PartialEq, Eq, Structural)]
pub enum TreeName {
    Day,
    Range,
    Data,
    Nonce,
    Main,
}

/// A failure of the engine, with the tree it struck.
#[derive(Debug)]
pub struct StoreError {
    pub tree: TreeName,
    pub detail: String,
}

/// The command to persist one sealed message.
#[derive(Debug)]
pub struct StorageCmd {
    pub st_key: String,
    pub message_topic: String,
    pub nonce: u64,
    pub data: String,
}

/// The command to drop what is older than `days` whole days.
#[derive(Debug)]
pub struct TrimCmd {
    pub days: u16,
}

/// The command to report on a store.
#[derive(Debug)]
pub struct StatusCmd {
    pub days: u16,
}

/// What a store reports of itself.
#[derive(Debug)]
pub struct Status {
    pub retain_messages: usize,
    pub disk_size: u64,
    pub last_nonce: u64,
}

/// One record that a scan yields.
#[derive(Debug)]
pub struct ScanRecord {
    pub nonce: u64,
    pub data_key: Vec<u8>,
    pub payload: Vec<u8>,
}

/// A scan record, as plain values.
pub struct RecordView {
    pub nonce: nat,
    pub data_key: Seq<u8>,
    pub payload: Seq<u8>,
}

impl View for ScanRecord {
    type V = RecordView;

    open spec fn view(&self) -> RecordView {
        RecordView { nonce: self.nonce as nat, data_key: self.data_key@, payload: self.payload@ }
    }
}

/// The records of `v`, as plain values.
pub open spec fn records_view(v: Seq<ScanRecord>) -> Seq<RecordView> {
    Seq::new(v.len(), |i: int| v[i]@)
}

/// What a trim did.
#[derive(Debug)]
pub struct TrimReport {
    /// The day that counted as today.
    pub today: i64,
    /// The number of records removed.
    pub removed: usize,
}

// ---------------------------------------------------------------------------
// What the operations do, on plain values
// ---------------------------------------------------------------------------

/// The store without any entry.
pub open spec fn empty_store() -> StoreView {
    StoreView {
        data: Map::empty(),
        main_idx: Map::empty(),
        range_idx: Map::empty(),
        day_idx: Map::empty(),
        nonce_idx: Map::empty(),
    }
}

/// The store after the message `key` of `topic`, sealed with `nonce`, was
/// written on day `day`.
pub open spec fn write_spec(
    s: StoreView,
    day: i64,
    key: Seq<u8>,
    topic: Seq<u8>,
    nonce: u64,
    payload: Seq<u8>,
) -> StoreView {
    StoreView {
        day_idx: s.day_idx.insert(day_key(day), nonce_key(nonce)),
        range_idx: s.range_idx.insert(nonce_key(nonce), key),
        data: s.data.insert(key, payload),
        nonce_idx: s.nonce_idx.insert(key, nonce_key(nonce)),
        main_idx: s.main_idx.insert(main_key(topic, nonce), key),
    }
}

/// The place of a tree in the order of a write.
pub open spec fn step_of(t: TreeName) -> int {
    match t {
        TreeName::Day => 1,
        TreeName::Range => 2,
        TreeName::Data => 3,
        TreeName::Nonce => 4,
        TreeName::Main => 5,
    }
}

/// One tree after a write that failed at step `failed`: written if its step
/// came before, untouched if its step was still to come.
pub open spec fn tree_after_failure(
    pre: Map<Seq<u8>, Seq<u8>>,
    full: Map<Seq<u8>, Seq<u8>>,
    post: Map<Seq<u8>, Seq<u8>>,
    step: int,
    failed: int,
) -> bool {
    &&& step < failed ==> post == full
    &&& step > failed ==> post == pre
}

/// The store `post` is what a write to `pre` leaves when the engine fails
/// on tree `failed`: the steps before it are done, the steps after it are
/// not, and nothing is undone.
pub open spec fn write_stopped(
    pre: StoreView,
    post: StoreView,
    failed: TreeName,
    full: StoreView,
) -> bool {
    let f = step_of(failed);
    &&& tree_after_failure(pre.day_idx, full.day_idx, post.day_idx, 1, f)
    &&& tree_after_failure(pre.range_idx, full.range_idx, post.range_idx, 2, f)
    &&& tree_after_failure(pre.data, full.data, post.data, 3, f)
    &&& tree_after_failure(pre.nonce_idx, full.nonce_idx, post.nonce_idx, 4, f)
    &&& tree_after_failure(pre.main_idx, full.main_idx, post.main_idx, 5, f)
}

/// The least main-index key that a scan of `topic` from `offset` reads.
pub open spec fn scan_lo(topic: Seq<u8>, offset: u64) -> Seq<u8> {
    main_key(topic, offset)
}

/// The bound below which the main-index keys of a scan of `topic` lie: just
/// above the key of the greatest nonce.
pub open spec fn scan_hi(topic: Seq<u8>) -> Seq<u8> {
    main_key(topic, u64::MAX).push(0u8)
}

/// The records that main-index entries `items` lead to, in their order. An
/// entry whose key is not `key_len` bytes long gives none, and neither does
/// one whose data key has no payload.
pub open spec fn resolve(
    items: Seq<(Seq<u8>, Seq<u8>)>,
    data: Map<Seq<u8>, Seq<u8>>,
    key_len: nat,
) -> Seq<RecordView>
    decreases items.len(),
{
    if items.len() == 0 {
        Seq::empty()
    } else {
        let rest = resolve(items.drop_last(), data, key_len);
        let e = items.last();
        if e.0.len() == key_len && data.dom().contains(e.1) {
            rest.push(RecordView { nonce: key_nonce(e.0), data_key: e.1, payload: data[e.1] })
        } else {
            rest
        }
    }
}

/// The length of a main-index key of `topic`: the topic and eight bytes of
/// nonce.
pub open spec fn main_key_len(topic: Seq<u8>) -> nat {
    topic.len() + 8
}

/// What a scan of `topic` from `offset` yields: the main-index entries of
/// the topic with keys from `topic‖offset` up to and including `topic‖MAX`,
/// in key order, which is nonce order, each followed into the payload tree.
/// Keys of other lengths in that range belong to longer topics that start
/// with `topic`, and are passed over.
pub open spec fn scan_spec(s: StoreView, topic: Seq<u8>, offset: u64) -> Seq<RecordView> {
    resolve(
        listing(s.main_idx, scan_lo(topic, offset), scan_hi(topic)),
        s.data,
        main_key_len(topic),
    )
}

/// The nonce that the nonce index holds for data key `key`.
pub open spec fn nonce_of(s: StoreView, key: Seq<u8>) -> Option<u64> {
    if s.nonce_idx.dom().contains(key) && s.nonce_idx[key].len() == 8 {
        Some(be_value(s.nonce_idx[key]) as u64)
    } else {
        None
    }
}

/// The range-index keys that a trim with pivot `pivot` removes: the pivot
/// and those below it.
pub open spec fn victims(range_idx: Map<Seq<u8>, Seq<u8>>, pivot: Seq<u8>) -> Set<Seq<u8>> {
    Set::new(|k: Seq<u8>| range_idx.dom().contains(k) && lex_le(k, pivot))
}

/// The data keys of the records that a trim with pivot `pivot` removes.
pub open spec fn victim_data(range_idx: Map<Seq<u8>, Seq<u8>>, pivot: Seq<u8>) -> Set<Seq<u8>> {
    Set::new(
        |dk: Seq<u8>|
            exists|k: Seq<u8>| #[trigger]
                range_idx.dom().contains(k) && lex_le(k, pivot) && range_idx[k] == dk,
    )
}

/// The main-index key that a trim removes for the range-index entry
/// `k -> dk`: the topic read off the data key, then `k`.
pub open spec fn trim_main_key(k: Seq<u8>, dk: Seq<u8>) -> Seq<u8> {
    key_topic(dk) + k
}

/// The main-index keys that a trim with pivot `pivot` removes.
pub open spec fn victim_main(range_idx: Map<Seq<u8>, Seq<u8>>, pivot: Seq<u8>) -> Set<Seq<u8>> {
    Set::new(
        |mk: Seq<u8>|
            exists|k: Seq<u8>| #[trigger]
                range_idx.dom().contains(k) && lex_le(k, pivot) && trim_main_key(k, range_idx[k])
                    == mk,
    )
}

/// The store after every record with a range-index key at or below `pivot`
/// was removed from the four trees that hold it.
pub open spec fn trim_through(s: StoreView, pivot: Seq<u8>) -> StoreView {
    StoreView {
        data: s.data.remove_keys(victim_data(s.range_idx, pivot)),
        main_idx: s.main_idx.remove_keys(victim_main(s.range_idx, pivot)),
        range_idx: s.range_idx.remove_keys(victims(s.range_idx, pivot)),
        nonce_idx: s.nonce_idx.remove_keys(victim_data(s.range_idx, pivot)),
        day_idx: s.day_idx,
    }
}

/// The store after a trim at day `cutoff`: trimmed up to and including the
/// nonce that the day index holds for that day, the day's last, or as it was
/// if the day index holds none.
pub open spec fn trim_spec(s: StoreView, cutoff: i64) -> StoreView {
    if s.day_idx.dom().contains(day_key(cutoff)) {
        trim_through(s, s.day_idx[day_key(cutoff)])
    } else {
        s
    }
}

/// The bound below which the range-index keys that a trim with pivot
/// `pivot` removes lie: just above the pivot.
pub open spec fn trim_hi(pivot: Seq<u8>) -> Seq<u8> {
    pivot.push(0u8)
}

/// The number of records that a trim at day `cutoff` removes.
pub open spec fn trim_count(s: StoreView, cutoff: i64) -> nat {
    if s.day_idx.dom().contains(day_key(cutoff)) {
        listing(s.range_idx, Seq::empty(), trim_hi(s.day_idx[day_key(cutoff)])).len()
    } else {
        0
    }
}

/// The day whose pivot a trim of `days` days uses, seen from `today`.
pub open spec fn cutoff_of(today: i64, days: u16) -> int {
    today - 86400 * (days + 1)
}

/// The store after a trim of `days` days on day `today`. A cutoff that no
/// day key can stand for trims nothing.
pub open spec fn trim_at_spec(s: StoreView, today: i64, days: u16) -> StoreView {
    if cutoff_of(today, days) >= i64::MIN {
        trim_spec(s, cutoff_of(today, days) as i64)
    } else {
        s
    }
}

/// The number of records that a trim of `days` days on day `today` removes.
pub open spec fn trim_at_count(s: StoreView, today: i64, days: u16) -> nat {
    if cutoff_of(today, days) >= i64::MIN {
        trim_count(s, cutoff_of(today, days) as i64)
    } else {
        0
    }
}

/// The range index is empty or has a greatest key, as every tree has.
pub open spec fn has_last(s: StoreView) -> bool {
    s.range_idx.dom() == Set::<Seq<u8>>::empty() || exists|k: Seq<u8>| is_greatest(s.range_idx, k)
}

/// The greatest nonce in the range index, or `0` where the index is empty or
/// its greatest key is not a nonce.
pub open spec fn last_nonce_spec(s: StoreView) -> u64 {
    if exists|k: Seq<u8>| is_greatest(s.range_idx, k) {
        let k = choose|k: Seq<u8>| is_greatest(s.range_idx, k);
        if k.len() == 8 {
            be_value(k) as u64
        } else {
            0
        }
    } else {
        0
    }
}

// ---------------------------------------------------------------------------
// Trimming, record by record
// ---------------------------------------------------------------------------

/// The keys of the first `n` of `items`.
pub open spec fn first_keys(items: Seq<(Seq<u8>, Seq<u8>)>, n: int) -> Set<Seq<u8>> {
    Set::new(|k: Seq<u8>| exists|j: int| 0 <= j < n && j < items.len() && (#[trigger] items[j]).0 == k)
}

/// The values of the first `n` of `items`.
pub open spec fn first_values(items: Seq<(Seq<u8>, Seq<u8>)>, n: int) -> Set<Seq<u8>> {
    Set::new(|v: Seq<u8>| exists|j: int| 0 <= j < n && j < items.len() && (#[trigger] items[j]).1 == v)
}

/// The main-index keys of the first `n` of `items`.
pub open spec fn first_main_keys(items: Seq<(Seq<u8>, Seq<u8>)>, n: int) -> Set<Seq<u8>> {
    Set::new(
        |mk: Seq<u8>|
            exists|j: int|
                0 <= j < n && j < items.len() && trim_main_key(
                    (#[trigger] items[j]).0,
                    items[j].1,
                ) == mk,
    )
}

/// The store after the first `n` of the range-index entries `items` were
/// removed.
pub open spec fn trim_first(s: StoreView, items: Seq<(Seq<u8>, Seq<u8>)>, n: int) -> StoreView {
    StoreView {
        data: s.data.remove_keys(first_values(items, n)),
        main_idx: s.main_idx.remove_keys(first_main_keys(items, n)),
        range_idx: s.range_idx.remove_keys(first_keys(items, n)),
        nonce_idx: s.nonce_idx.remove_keys(first_values(items, n)),
        day_idx: s.day_idx,
    }
}

/// The place of a tree in the order in which a trim removes a record from
/// the trees; the day index, which a trim only reads, comes first.
pub open spec fn trim_step_of(t: TreeName) -> int {
    match t {
        TreeName::Day => 0,
        TreeName::Data => 1,
        TreeName::Main => 2,
        TreeName::Range => 3,
        TreeName::Nonce => 4,
    }
}

/// The store `post` is what a trim of the range-index entries `items` of
/// `pre` leaves when the engine fails on tree `failed` while record `n` is
/// removed: the records before it are gone, the record itself is gone from
/// the trees that come before `failed`, and nothing else is touched.
pub open spec fn trim_stopped_at(
    pre: StoreView,
    post: StoreView,
    failed: TreeName,
    items: Seq<(Seq<u8>, Seq<u8>)>,
    n: int,
) -> bool {
    let before = trim_first(pre, items, n);
    let after = trim_first(pre, items, n + 1);
    let f = trim_step_of(failed);
    &&& 0 <= n < items.len()
    &&& f >= 1
    &&& post.day_idx == pre.day_idx
    &&& tree_after_failure(before.data, after.data, post.data, 1, f)
    &&& tree_after_failure(before.main_idx, after.main_idx, post.main_idx, 2, f)
    &&& tree_after_failure(before.range_idx, after.range_idx, post.range_idx, 3, f)
    &&& tree_after_failure(before.nonce_idx, after.nonce_idx, post.nonce_idx, 4, f)
}

/// The store `post` is what a trim of `pre` at day `cutoff` leaves when the
/// engine fails on tree `failed`. Where the day index or the listing of the
/// range index could not be read, nothing has changed; else the trim has
/// stopped at one of the records at or below the pivot.
pub open spec fn trim_stopped(pre: StoreView, post: StoreView, failed: TreeName, cutoff: i64) -> bool {
    ||| (failed == TreeName::Day || failed == TreeName::Range) && post == pre
    ||| pre.day_idx.dom().contains(day_key(cutoff)) && exists|n: int| #[trigger]
        trim_stopped_at(
            pre,
            post,
            failed,
            listing(pre.range_idx, Seq::empty(), trim_hi(pre.day_idx[day_key(cutoff)])),
            n,
        )
}

/// The store `post` is what a trim of `days` days of `pre` on day `today`
/// leaves when the engine fails on tree `failed`.
pub open spec fn trim_at_stopped(
    pre: StoreView,
    post: StoreView,
    failed: TreeName,
    today: i64,
    days: u16,
) -> bool {
    cutoff_of(today, days) >= i64::MIN && trim_stopped(
        pre,
        post,
        failed,
        cutoff_of(today, days) as i64,
    )
}

/// The store `post` is what a trim of `days` days of `pre` leaves when the
/// engine fails on tree `failed`, whatever day the trim took for today.
pub open spec fn trim_today_stopped(
    pre: StoreView,
    post: StoreView,
    failed: TreeName,
    days: u16,
) -> bool {
    exists|today: i64| #[trigger] trim_at_stopped(pre, post, failed, today, days)
}

proof fn lemma_trim_first_none(s: StoreView, items: Seq<(Seq<u8>, Seq<u8>)>)
    ensures
        trim_first(s, items, 0) == s,
{
    let t = trim_first(s, items, 0);
    assert(t.data =~= s.data);
    assert(t.main_idx =~= s.main_idx);
    assert(t.range_idx =~= s.range_idx);
    assert(t.nonce_idx =~= s.nonce_idx);
}

proof fn lemma_trim_first_step(s: StoreView, items: Seq<(Seq<u8>, Seq<u8>)>, n: int)
    requires
        0 <= n < items.len(),
    ensures
        ({
            let t = trim_first(s, items, n);
            let k = items[n].0;
            let dk = items[n].1;
            trim_first(s, items, n + 1) == StoreView {
                data: t.data.remove(dk),
                main_idx: t.main_idx.remove(trim_main_key(k, dk)),
                range_idx: t.range_idx.remove(k),
                nonce_idx: t.nonce_idx.remove(dk),
                day_idx: t.day_idx,
            }
        }),
{
    let t = trim_first(s, items, n);
    let u = trim_first(s, items, n + 1);
    let k = items[n].0;
    let dk = items[n].1;
    assert(first_keys(items, n + 1) =~= first_keys(items, n).insert(k));
    assert(first_values(items, n + 1) =~= first_values(items, n).insert(dk));
    assert(first_main_keys(items, n + 1) =~= first_main_keys(items, n).insert(
        trim_main_key(k, dk),
    ));
    assert(u.data =~= t.data.remove(dk));
    assert(u.main_idx =~= t.main_idx.remove(trim_main_key(k, dk)));
    assert(u.range_idx =~= t.range_idx.remove(k));
    assert(u.nonce_idx =~= t.nonce_idx.remove(dk));
}

proof fn lemma_trim_first_all(s: StoreView, pivot: Seq<u8>, items: Seq<(Seq<u8>, Seq<u8>)>)
    requires
        is_listing(s.range_idx, Seq::empty(), trim_hi(pivot), items),
    ensures
        trim_first(s, items, items.len() as int) == trim_through(s, pivot),
{
    let n = items.len() as int;
    assert forall|j: int| 0 <= j < n implies s.range_idx.contains_pair(
        (#[trigger] items[j]).0,
        items[j].1,
    ) && lex_le(items[j].0, pivot) by {
        lemma_lex_successor(items[j].0, pivot);
    }
    assert forall|k: Seq<u8>|
        s.range_idx.dom().contains(k) && lex_le(k, pivot) implies #[trigger] has_key(items, k) by {
        lemma_lex_empty_least(k);
        lemma_lex_successor(k, pivot);
    }
    assert forall|k: Seq<u8>| first_keys(items, n).contains(k) == victims(
        s.range_idx,
        pivot,
    ).contains(k) by {
        if first_keys(items, n).contains(k) {
            let j = choose|j: int| 0 <= j < n && j < items.len() && (#[trigger] items[j]).0 == k;
            assert(s.range_idx.dom().contains(items[j].0));
        }
        if victims(s.range_idx, pivot).contains(k) {
            assert(has_key(items, k));
        }
    }
    assert(first_keys(items, n) =~= victims(s.range_idx, pivot));
    assert forall|dk: Seq<u8>| first_values(items, n).contains(dk) == victim_data(
        s.range_idx,
        pivot,
    ).contains(dk) by {
        if first_values(items, n).contains(dk) {
            let j = choose|j: int| 0 <= j < n && j < items.len() && (#[trigger] items[j]).1 == dk;
            assert(s.range_idx.dom().contains(items[j].0));
        }
        if victim_data(s.range_idx, pivot).contains(dk) {
            let k = choose|k: Seq<u8>| #[trigger]
                s.range_idx.dom().contains(k) && lex_le(k, pivot) && s.range_idx[k] == dk;
            assert(has_key(items, k));
            let j = choose|j: int| 0 <= j < items.len() && (#[trigger] items[j]).0 == k;
            assert(items[j].1 == dk);
        }
    }
    assert(first_values(items, n) =~= victim_data(s.range_idx, pivot));
    assert forall|mk: Seq<u8>| first_main_keys(items, n).contains(mk) == victim_main(
        s.range_idx,
        pivot,
    ).contains(mk) by {
        if first_main_keys(items, n).contains(mk) {
            let j = choose|j: int|
                0 <= j < n && j < items.len() && trim_main_key(
                    (#[trigger] items[j]).0,
                    items[j].1,
                ) == mk;
            assert(s.range_idx.dom().contains(items[j].0));
        }
        if victim_main(s.range_idx, pivot).contains(mk) {
            let k = choose|k: Seq<u8>| #[trigger]
                s.range_idx.dom().contains(k) && lex_le(k, pivot) && trim_main_key(
                    k,
                    s.range_idx[k],
                ) == mk;
            assert(has_key(items, k));
            let j = choose|j: int| 0 <= j < items.len() && (#[trigger] items[j]).0 == k;
            assert(trim_main_key(items[j].0, items[j].1) == mk);
        }
    }
    assert(first_main_keys(items, n) =~= victim_main(s.range_idx, pivot));
}

proof fn lemma_greatest_unique(entries: Map<Seq<u8>, Seq<u8>>, a: Seq<u8>, b: Seq<u8>)
    requires
        is_greatest(entries, a),
        is_greatest(entries, b),
    ensures
        a == b,
{
    if a != b {
        lemma_lex_asymmetric(a, b);
    }
}

// ---------------------------------------------------------------------------
// The store
// ---------------------------------------------------------------------------

/// The five trees of one partition.
///
/// The store keeps its tree handles to itself: what is proved of it holds as
/// long as nothing else writes to the trees.
pub struct StorageActor {
    db: sled::Db,
    data: sled::Tree,
    range_idx: sled::Tree,
    day_idx: sled::Tree,
    main_idx: sled::Tree,
    nonce_idx: sled::Tree,
}

impl View for StorageActor {
    type V = StoreView;

    closed spec fn view(&self) -> StoreView {
        StoreView {
            data: tree_entries(self.data),
            main_idx: tree_entries(self.main_idx),
            range_idx: tree_entries(self.range_idx),
            day_idx: tree_entries(self.day_idx),
            nonce_idx: tree_entries(self.nonce_idx),
        }
    }
}

/// The status of a store with `count` records and `size` bytes on disk; a
/// size that could not be told counts as `0`.
pub fn status_of(count: usize, size: Option<u64>) -> (r: Status)
    ensures
        r.retain_messages == count,
        r.disk_size == (match size {
            Some(n) => n,
            None => 0,
        }),
        r.last_nonce == 0,
{
    Status {
        retain_messages: count,
        disk_size: match size {
            Some(n) => n,
            None => 0,
        },
        last_nonce: 0,
    }
}

/// The failure of a day that could not be told: one of the day index.
fn no_clock() -> (r: StoreError)
    ensures
        r.tree == TreeName::Day,
{
    StoreError { tree: TreeName::Day, detail: String::from_str("the clock cannot be read") }
}

fn failure(tree: TreeName, e: &sled::Error) -> (r: StoreError)
    ensures
        r.tree == tree,
{
    StoreError { tree, detail: error_text(e) }
}

impl StorageActor {
    /// Opens the five trees of database `db`: its default tree for the
    /// payloads, which is always there, and one named tree for each index; a
    /// failure names the index that could not be opened. No other store may
    /// stand on the same database: what is proved of a store holds only
    /// while it alone writes to its trees.
    pub fn open(db: sled::Db) -> (r: Result<StorageActor, StoreError>)
        ensures
            r matches Err(e) ==> e.tree != TreeName::Data,
    {
        let data = db_default_tree(&db);
        let range_idx = match db_open_tree(&db, "range_idx") {
            Ok(t) => t,
            Err(e) => {
                return Err(failure(TreeName::Range, &e));
            },
        };
        let day_idx = match db_open_tree(&db, "day_idx") {
            Ok(t) => t,
            Err(e) => {
                return Err(failure(TreeName::Day, &e));
            },
        };
        let main_idx = match db_open_tree(&db, "main_idx") {
            Ok(t) => t,
            Err(e) => {
                return Err(failure(TreeName::Main, &e));
            },
        };
        let nonce_idx = match db_open_tree(&db, "nonce_idx") {
            Ok(t) => t,
            Err(e) => {
                return Err(failure(TreeName::Nonce, &e));
            },
        };
        Ok(StorageActor { db, data, range_idx, day_idx, main_idx, nonce_idx })
    }

    /// Writes one sealed message as of day `day`: the day index, the range
    /// index, the payload, the nonce index and the main index, in this
    /// order. At the first failure of the engine the write stops; what was
    /// written before stays.
    pub fn write_on(&mut self, day: i64, cmd: &StorageCmd) -> (r: Result<(), StoreError>)
        ensures
            r is Ok ==> final(self)@ == write_spec(
                old(self)@,
                day,
                encode_utf8(cmd.st_key@),
                encode_utf8(cmd.message_topic@),
                cmd.nonce,
                encode_utf8(cmd.data@),
            ),
            r matches Err(e) ==> write_stopped(
                old(self)@,
                final(self)@,
                e.tree,
                write_spec(
                    old(self)@,
                    day,
                    encode_utf8(cmd.st_key@),
                    encode_utf8(cmd.message_topic@),
                    cmd.nonce,
                    encode_utf8(cmd.data@),
                ),
            ),
    {
        let key = cmd.st_key.as_str().as_bytes();
        let payload = cmd.data.as_str().as_bytes();
        let nonce_bytes = u64to_vec(cmd.nonce);
        let day_bytes = i64to_vec(day);
        let main_bytes = make_key(cmd.message_topic.as_str(), cmd.nonce);
        match tree_insert(&mut self.day_idx, day_bytes.as_slice(), nonce_bytes.as_slice()) {
            Ok(()) => {},
            Err(e) => {
                return Err(failure(TreeName::Day, &e));
            },
        }
        match tree_insert(&mut self.range_idx, nonce_bytes.as_slice(), key) {
            Ok(()) => {},
            Err(e) => {
                return Err(failure(TreeName::Range, &e));
            },
        }
        match tree_insert(&mut self.data, key, payload) {
            Ok(()) => {},
            Err(e) => {
                return Err(failure(TreeName::Data, &e));
            },
        }
        match tree_insert(&mut self.nonce_idx, key, nonce_bytes.as_slice()) {
            Ok(()) => {},
            Err(e) => {
                return Err(failure(TreeName::Nonce, &e));
            },
        }
        match tree_insert(&mut self.main_idx, main_bytes.as_slice(), key) {
            Ok(()) => {},
            Err(e) => {
                return Err(failure(TreeName::Main, &e));
            },
        }
        Ok(())
    }

    /// Writes one sealed message as of today, and returns the day it was
    /// written under. Where the clock cannot be read, nothing is written,
    /// as where the day index fails.
    pub fn write(&mut self, cmd: &StorageCmd) -> (r: Result<i64, StoreError>)
        ensures
            r matches Ok(day) ==> final(self)@ == write_spec(
                old(self)@,
                day,
                encode_utf8(cmd.st_key@),
                encode_utf8(cmd.message_topic@),
                cmd.nonce,
                encode_utf8(cmd.data@),
            ),
            r matches Err(e) ==> exists|day: i64|
                write_stopped(
                    old(self)@,
                    final(self)@,
                    e.tree,
                    #[trigger] write_spec(
                        old(self)@,
                        day,
                        encode_utf8(cmd.st_key@),
                        encode_utf8(cmd.message_topic@),
                        cmd.nonce,
                        encode_utf8(cmd.data@),
                    ),
                ),
    {
        let day = match today_ts() {
            Some(day) => day,
            None => {
                proof {
                    assert(write_stopped(
                        self@,
                        self@,
                        TreeName::Day,
                        write_spec(
                            self@,
                            0,
                            encode_utf8(cmd.st_key@),
                            encode_utf8(cmd.message_topic@),
                            cmd.nonce,
                            encode_utf8(cmd.data@),
                        ),
                    ));
                }
                return Err(no_clock());
            },
        };
        match self.write_on(day, cmd) {
            Ok(()) => Ok(day),
            Err(e) => Err(e),
        }
    }

    /// Scans `topic` from `from_offset`: the records of the topic under the
    /// main-index keys from `topic‖from_offset` up to `topic‖MAX`, in nonce
    /// order. A main-index entry without payload is passed over.
    pub fn range_scan(&self, topic: &str, from_offset: u64) -> (r: Result<
        Vec<ScanRecord>,
        StoreError,
    >)
        ensures
            r matches Ok(v) ==> records_view(v@) == scan_spec(
                self@,
                topic.spec_bytes(),
                from_offset,
            ),
            r matches Err(e) ==> e.tree == TreeName::Main || e.tree == TreeName::Data,
    {
        let lo = make_key(topic, from_offset);
        let mut hi = make_key(topic, u64::MAX);
        hi.push(0u8);
        let items = match tree_range(&self.main_idx, lo.as_slice(), hi.as_slice()) {
            Ok(items) => items,
            Err(e) => {
                return Err(failure(TreeName::Main, &e));
            },
        };
        let ghost listed = pairs_view(items@);
        proof {
            lemma_listing_is(self@.main_idx, lo@, hi@, listed);
        }
        let want: usize = lo.len();
        proof {
            crate::codec::lemma_be_bytes_len(from_offset as nat, 8);
        }
        let mut out: Vec<ScanRecord> = Vec::new();
        let mut i: usize = 0;
        while i < items.len()
            invariant
                i <= items.len(),
                listed == pairs_view(items@),
                want == main_key_len(topic.spec_bytes()),
                records_view(out@) == resolve(
                    listed.subrange(0, i as int),
                    self@.data,
                    main_key_len(topic.spec_bytes()),
                ),
            decreases items.len() - i,
        {
            proof {
                assert(listed.subrange(0, i + 1).drop_last() =~= listed.subrange(0, i as int));
                assert(listed.subrange(0, i + 1).last() == listed[i as int]);
            }
            let ghost before = records_view(out@);
            if items[i].0.len() == want {
                match tree_get(&self.data, items[i].1.as_slice()) {
                    Ok(Some(payload)) => {
                        let nonce = decode_key_nonce(items[i].0.as_slice());
                        let data_key = copy_bytes(items[i].1.as_slice());
                        out.push(ScanRecord { nonce, data_key, payload });
                        proof {
                            assert(records_view(out@) =~= before.push(
                                RecordView {
                                    nonce: key_nonce(listed[i as int].0),
                                    data_key: listed[i as int].1,
                                    payload: self@.data[listed[i as int].1],
                                },
                            ));
                        }
                    },
                    Ok(None) => {},
                    Err(e) => {
                        return Err(failure(TreeName::Data, &e));
                    },
                }
            }
            i = i + 1;
        }
        proof {
            assert(listed.subrange(0, items.len() as int) =~= listed);
        }
        Ok(out)
    }

    /// The nonce that the nonce index holds for `data_key`, if it holds one.
    pub fn lookup_nonce(&self, data_key: &[u8]) -> (r: Result<Option<u64>, StoreError>)
        ensures
            r matches Ok(n) ==> n == nonce_of(self@, data_key@),
            r matches Err(e) ==> e.tree == TreeName::Nonce,
    {
        match tree_get(&self.nonce_idx, data_key) {
            Ok(Some(v)) => {
                if v.len() == 8 {
                    proof {
                        assert(v@.subrange(0, 8) =~= v@);
                        crate::codec::lemma_be_value_bound(v@);
                        crate::codec::lemma_pow256_8();
                    }
                    Ok(Some(bytes_to_u64(v.as_slice(), 0, 8)))
                } else {
                    Ok(None)
                }
            },
            Ok(None) => Ok(None),
            Err(e) => Err(failure(TreeName::Nonce, &e)),
        }
    }

    /// Trims at day `cutoff`: if the day index holds a nonce for that day,
    /// the nonce of the day's last write, every record with a range-index
    /// key at or below it leaves the payload tree, the main index, the range
    /// index and the nonce index, in this order; else nothing changes.
    /// Returns the number of records removed.
    /// At the first failure of the engine the trim stops.
    pub fn trim_before(&mut self, cutoff: i64) -> (r: Result<usize, StoreError>)
        ensures
            r matches Ok(n) ==> final(self)@ == trim_spec(old(self)@, cutoff) && n == trim_count(
                old(self)@,
                cutoff,
            ),
            r matches Err(e) ==> trim_stopped(old(self)@, final(self)@, e.tree, cutoff),
    {
        let day_bytes = i64to_vec(cutoff);
        let pivot = match tree_get(&self.day_idx, day_bytes.as_slice()) {
            Ok(Some(p)) => p,
            Ok(None) => {
                return Ok(0);
            },
            Err(e) => {
                return Err(failure(TreeName::Day, &e));
            },
        };
        let none: Vec<u8> = Vec::new();
        let mut bound = copy_bytes(pivot.as_slice());
        bound.push(0u8);
        let items = match tree_range(&self.range_idx, none.as_slice(), bound.as_slice()) {
            Ok(items) => items,
            Err(e) => {
                return Err(failure(TreeName::Range, &e));
            },
        };
        let ghost listed = pairs_view(items@);
        proof {
            assert(none@ =~= Seq::<u8>::empty());
            lemma_listing_is(old(self)@.range_idx, Seq::empty(), trim_hi(pivot@), listed);
            lemma_trim_first_none(old(self)@, listed);
        }
        let mut i: usize = 0;
        while i < items.len()
            invariant
                i <= items.len(),
                listed == pairs_view(items@),
                old(self)@.day_idx.dom().contains(day_key(cutoff)),
                listed == listing(
                    old(self)@.range_idx,
                    Seq::empty(),
                    trim_hi(old(self)@.day_idx[day_key(cutoff)]),
                ),
                self@ == trim_first(old(self)@, listed, i as int),
            decreases items.len() - i,
        {
            let k = items[i].0.as_slice();
            let dk = items[i].1.as_slice();
            let mk = topic_key(k, dk);
            proof {
                lemma_trim_first_step(old(self)@, listed, i as int);
            }
            match tree_remove(&mut self.data, dk) {
                Ok(()) => {},
                Err(e) => {
                    proof {
                        assert(trim_stopped_at(
                            old(self)@,
                            self@,
                            TreeName::Data,
                            listed,
                            i as int,
                        ));
                    }
                    return Err(failure(TreeName::Data, &e));
                },
            }
            match tree_remove(&mut self.main_idx, mk.as_slice()) {
                Ok(()) => {},
                Err(e) => {
                    proof {
                        assert(trim_stopped_at(
                            old(self)@,
                            self@,
                            TreeName::Main,
                            listed,
                            i as int,
                        ));
                    }
                    return Err(failure(TreeName::Main, &e));
                },
            }
            match tree_remove(&mut self.range_idx, k) {
                Ok(()) => {},
                Err(e) => {
                    proof {
                        assert(trim_stopped_at(
                            old(self)@,
                            self@,
                            TreeName::Range,
                            listed,
                            i as int,
                        ));
                    }
                    return Err(failure(TreeName::Range, &e));
                },
            }
            match tree_remove(&mut self.nonce_idx, dk) {
                Ok(()) => {},
                Err(e) => {
                    proof {
                        assert(trim_stopped_at(
                            old(self)@,
                            self@,
                            TreeName::Nonce,
                            listed,
                            i as int,
                        ));
                    }
                    return Err(failure(TreeName::Nonce, &e));
                },
            }
            i = i + 1;
        }
        proof {
            lemma_trim_first_all(old(self)@, pivot@, listed);
        }
        Ok(items.len())
    }

    /// Trims what is older than `days` whole days, seen from day `today`:
    /// the pivot is the day index's entry for `today - 86400 * (days + 1)`.
    /// Where no day key can stand for that day, nothing is read and nothing
    /// changes. At the first failure of the engine the trim stops.
    pub fn trim_at(&mut self, today: i64, days: u16) -> (r: Result<usize, StoreError>)
        ensures
            r matches Ok(n) ==> final(self)@ == trim_at_spec(old(self)@, today, days) && n
                == trim_at_count(old(self)@, today, days),
            r matches Err(e) ==> trim_at_stopped(old(self)@, final(self)@, e.tree, today, days),
            cutoff_of(today, days) < i64::MIN ==> r is Ok,
    {
        let span: i64 = 86400 * (days as i64 + 1);
        match today.checked_sub(span) {
            Some(cutoff) => self.trim_before(cutoff),
            None => Ok(0),
        }
    }

    /// Trims what is older than `days` whole days, seen from today. Where
    /// the clock cannot be read, nothing is trimmed, as where the day index
    /// fails.
    pub fn trim(&mut self, cmd: &TrimCmd) -> (r: Result<TrimReport, StoreError>)
        ensures
            r matches Ok(report) ==> final(self)@ == trim_at_spec(
                old(self)@,
                report.today,
                cmd.days,
            ) && report.removed == trim_at_count(old(self)@, report.today, cmd.days),
            r matches Err(e) ==> trim_today_stopped(old(self)@, final(self)@, e.tree, cmd.days),
    {
        let today = match today_ts() {
            Some(today) => today,
            None => {
                proof {
                    assert(trim_at_stopped(self@, self@, TreeName::Day, 0, cmd.days));
                }
                return Err(no_clock());
            },
        };
        match self.trim_at(today, cmd.days) {
            Ok(removed) => Ok(TrimReport { today, removed }),
            Err(e) => Err(e),
        }
    }

    /// The number of records in the range index.
    pub fn count(&self) -> (r: Result<usize, StoreError>)
        ensures
            r matches Ok(n) ==> self@.range_idx.dom().finite() && n
                == self@.range_idx.dom().len(),
            r matches Err(e) ==> e.tree == TreeName::Range,
    {
        match tree_count(&self.range_idx) {
            Ok(n) => Ok(n),
            Err(e) => Err(failure(TreeName::Range, &e)),
        }
    }

    /// The number of records in the range index and the size of the store
    /// on disk. The size is `0` where the engine cannot tell it; where the
    /// records cannot be counted, the status fails.
    pub fn status(&self) -> (r: Result<Status, StoreError>)
        ensures
            r matches Ok(st) ==> self@.range_idx.dom().finite() && st.retain_messages
                == self@.range_idx.dom().len() && st.last_nonce == 0,
            r matches Err(e) ==> e.tree == TreeName::Range,
    {
        let size = match db_size_on_disk(&self.db) {
            Ok(sz) => Some(sz),
            Err(_) => None,
        };
        match self.count() {
            Ok(n) => Ok(status_of(n, size)),
            Err(e) => Err(e),
        }
    }

    /// The greatest nonce in the range index; `0` for an empty index.
    pub fn last_nonce(&self) -> (r: Result<u64, StoreError>)
        ensures
            r matches Ok(n) ==> n == last_nonce_spec(self@) && has_last(self@),
            r matches Err(e) ==> e.tree == TreeName::Range,
    {
        match tree_last(&self.range_idx) {
            Ok(Some(e)) => {
                proof {
                    let k = choose|k: Seq<u8>| is_greatest(self@.range_idx, k);
                    lemma_greatest_unique(self@.range_idx, k, e.0@);
                }
                if e.0.len() == 8 {
                    proof {
                        assert(e.0@.subrange(0, 8) =~= e.0@);
                        crate::codec::lemma_be_value_bound(e.0@);
                        crate::codec::lemma_pow256_8();
                    }
                    Ok(bytes_to_u64(e.0.as_slice(), 0, 8))
                } else {
                    Ok(0)
                }
            },
            Ok(None) => Ok(0),
            Err(e) => Err(failure(TreeName::Range, &e)),
        }
    }

    /// Flushes the five trees to disk.
    pub fn flush(&self) -> (r: Result<(), StoreError>) {
        match tree_flush(&self.data) {
            Ok(_) => {},
            Err(e) => {
                return Err(failure(TreeName::Data, &e));
            },
        }
        match tree_flush(&self.range_idx) {
            Ok(_) => {},
            Err(e) => {
                return Err(failure(TreeName::Range, &e));
            },
        }
        match tree_flush(&self.day_idx) {
            Ok(_) => {},
            Err(e) => {
                return Err(failure(TreeName::Day, &e));
            },
        }
        match tree_flush(&self.main_idx) {
            Ok(_) => {},
            Err(e) => {
                return Err(failure(TreeName::Main, &e));
            },
        }
        match tree_flush(&self.nonce_idx) {
            Ok(_) => {},
            Err(e) => {
                return Err(failure(TreeName::Nonce, &e));
            },
        }
        Ok(())
    }
}

} // verus!
