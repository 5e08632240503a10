//! Key encoding: big-endian integers, the byte order of the key space, and
//! the three kinds of key that the indices use.

use vstd::prelude::*;
use vstd::string::*;
use vstd::utf8::*;

verus! {

/// The byte `-`, which parts the topic from the uid in a data key.
pub const DASH: u8 = 45;

// ---------------------------------------------------------------------------
// Big-endian integers
// ---------------------------------------------------------------------------

/// `256` to the power `len`.
pub open spec fn pow256(len: nat) -> nat
    decreases len,
{
    if len == 0 {
        1
    } else {
        256 * pow256((len - 1) as nat)
    }
}

/// The `len` low-order base-256 digits of `n`, most significant first.
pub open spec fn be_bytes(n: nat, len: nat) -> Seq<u8>
    decreases len,
{
    if len == 0 {
        Seq::empty()
    } else {
        be_bytes(n / 256, (len - 1) as nat).push((n % 256) as u8)
    }
}

/// The number that a big-endian byte string denotes.
pub open spec fn be_value(s: Seq<u8>) -> nat
    decreases s.len(),
{
    if s.len() == 0 {
        0
    } else {
        be_value(s.drop_last()) * 256 + s.last() as nat
    }
}

/// A signed 64-bit integer read as unsigned (two's complement).
pub open spec fn twos_complement(n: i64) -> nat {
    if n >= 0 {
        n as nat
    } else {
        (n + 0x1_0000_0000_0000_0000) as nat
    }
}

/// The key under which nonce `n` stands in the range index, and the value
/// that stands for it in the day and nonce indices.
pub open spec fn nonce_key(n: u64) -> Seq<u8> {
    be_bytes(n as nat, 8)
}

/// The key of day `day` (seconds since the epoch at its midnight).
pub open spec fn day_key(day: i64) -> Seq<u8> {
    be_bytes(twos_complement(day), 8)
}

/// The main-index key of the record of `topic` with nonce `n`.
pub open spec fn main_key(topic: Seq<u8>, n: u64) -> Seq<u8> {
    topic + nonce_key(n)
}

/// The data key of the message `uid` on `topic`, as text.
pub open spec fn data_key_text(topic: Seq<char>, uid: Seq<char>) -> Seq<char> {
    topic + seq!['-'] + uid
}

/// The nonce that a main-index key ends in: its last eight bytes, read
/// big-endian (a shorter key is read whole).
pub open spec fn key_nonce(key: Seq<u8>) -> nat {
    if key.len() >= 8 {
        be_value(key.subrange(key.len() - 8, key.len() as int))
    } else {
        be_value(key)
    }
}

/// Eight digits hold the 64-bit numbers.
pub proof fn lemma_pow256_8()
    ensures
        pow256(8) == 0x1_0000_0000_0000_0000,
{
    reveal_with_fuel(pow256, 9);
}

/// An encoding of `len` digits is `len` bytes long.
pub proof fn lemma_be_bytes_len(n: nat, len: nat)
    ensures
        be_bytes(n, len).len() == len,
    decreases len,
{
    if len > 0 {
        lemma_be_bytes_len(n / 256, (len - 1) as nat);
    }
}

/// Decoding undoes encoding, for a number that fits in `len` digits.
pub proof fn lemma_be_value_of_bytes(n: nat, len: nat)
    requires
        n < pow256(len),
    ensures
        be_value(be_bytes(n, len)) == n,
    decreases len,
{
    if len > 0 {
        let rest = be_bytes(n / 256, (len - 1) as nat);
        lemma_be_value_of_bytes(n / 256, (len - 1) as nat);
        lemma_be_bytes_len(n / 256, (len - 1) as nat);
        assert(be_bytes(n, len).drop_last() =~= rest);
    }
}

/// What a byte string denotes fits in as many digits as it has bytes.
pub proof fn lemma_be_value_bound(s: Seq<u8>)
    ensures
        be_value(s) < pow256(s.len()),
    decreases s.len(),
{
    if s.len() > 0 {
        lemma_be_value_bound(s.drop_last());
    }
}

/// Encoding undoes decoding.
pub proof fn lemma_be_bytes_of_value(s: Seq<u8>)
    ensures
        be_bytes(be_value(s), s.len()) == s,
    decreases s.len(),
{
    if s.len() > 0 {
        lemma_be_bytes_of_value(s.drop_last());
        assert(be_bytes(be_value(s), s.len()) =~= s);
    }
}

/// Two nonces with the same key are the same nonce.
pub proof fn lemma_nonce_key_injective(a: u64, b: u64)
    requires
        nonce_key(a) == nonce_key(b),
    ensures
        a == b,
{
    lemma_pow256_8();
    lemma_be_value_of_bytes(a as nat, 8);
    lemma_be_value_of_bytes(b as nat, 8);
}

/// Two days with the same key are the same day.
pub proof fn lemma_day_key_injective(a: i64, b: i64)
    requires
        day_key(a) == day_key(b),
    ensures
        a == b,
{
    lemma_pow256_8();
    lemma_be_value_of_bytes(twos_complement(a), 8);
    lemma_be_value_of_bytes(twos_complement(b), 8);
}

// ---------------------------------------------------------------------------
// The order of the key space
// ---------------------------------------------------------------------------

/// The first index at or after `i` at which `a` and `b` differ, or at which
/// one of them ends.
pub open spec fn mismatch_from(a: Seq<u8>, b: Seq<u8>, i: int) -> int
    decreases a.len() - i,
{
    if 0 <= i < a.len() && i < b.len() && a[i] == b[i] {
        mismatch_from(a, b, i + 1)
    } else {
        i
    }
}

/// The length of the longest common prefix of `a` and `b`.
pub open spec fn mismatch(a: Seq<u8>, b: Seq<u8>) -> int {
    mismatch_from(a, b, 0)
}

/// `a` comes strictly before `b` in byte-wise lexicographic order, the order
/// in which a tree holds its keys.
pub open spec fn lex_lt(a: Seq<u8>, b: Seq<u8>) -> bool {
    let m = mismatch(a, b);
    m < b.len() && (m >= a.len() || a[m] < b[m])
}

/// `a` is `b` or comes before it.
pub open spec fn lex_le(a: Seq<u8>, b: Seq<u8>) -> bool {
    a == b || lex_lt(a, b)
}

proof fn lemma_mismatch_from(a: Seq<u8>, b: Seq<u8>, i: int)
    requires
        0 <= i <= a.len(),
        i <= b.len(),
    ensures
        ({
            let m = mismatch_from(a, b, i);
            &&& i <= m <= a.len()
            &&& m <= b.len()
            &&& forall|j: int| i <= j < m ==> a[j] == b[j]
            &&& m < a.len() && m < b.len() ==> a[m] != b[m]
        }),
    decreases a.len() - i,
{
    if i < a.len() && i < b.len() && a[i] == b[i] {
        lemma_mismatch_from(a, b, i + 1);
    }
}

/// What `mismatch` is: the two strings agree below it, and differ at it
/// unless one of them ends there.
pub proof fn lemma_mismatch(a: Seq<u8>, b: Seq<u8>)
    ensures
        ({
            let m = mismatch(a, b);
            &&& 0 <= m <= a.len()
            &&& m <= b.len()
            &&& forall|j: int| 0 <= j < m ==> a[j] == b[j]
            &&& m < a.len() && m < b.len() ==> a[m] != b[m]
        }),
{
    lemma_mismatch_from(a, b, 0);
}

/// Only one index is as `lemma_mismatch` says.
pub proof fn lemma_mismatch_is(a: Seq<u8>, b: Seq<u8>, p: int)
    requires
        0 <= p <= a.len(),
        p <= b.len(),
        forall|j: int| 0 <= j < p ==> a[j] == b[j],
        p < a.len() && p < b.len() ==> a[p] != b[p],
    ensures
        mismatch(a, b) == p,
{
    lemma_mismatch(a, b);
}

/// No key comes before itself.
pub proof fn lemma_lex_irreflexive(a: Seq<u8>)
    ensures
        !lex_lt(a, a),
{
    lemma_mismatch_is(a, a, a.len() as int);
}

/// Of two keys, at most one comes before the other.
pub proof fn lemma_lex_asymmetric(a: Seq<u8>, b: Seq<u8>)
    requires
        lex_lt(a, b),
    ensures
        !lex_lt(b, a),
        a != b,
{
    lemma_mismatch(a, b);
    lemma_mismatch_is(b, a, mismatch(a, b));
    lemma_lex_irreflexive(a);
}

/// Two keys are the same, or one comes before the other.
pub proof fn lemma_lex_trichotomy(a: Seq<u8>, b: Seq<u8>)
    ensures
        lex_lt(a, b) || a == b || lex_lt(b, a),
{
    lemma_mismatch(a, b);
    let m = mismatch(a, b);
    lemma_mismatch_is(b, a, m);
    if m == a.len() && m == b.len() {
        assert(a =~= b);
    }
}

/// The order of the keys is transitive.
pub proof fn lemma_lex_transitive(a: Seq<u8>, b: Seq<u8>, c: Seq<u8>)
    requires
        lex_lt(a, b),
        lex_lt(b, c),
    ensures
        lex_lt(a, c),
{
    lemma_mismatch(a, b);
    lemma_mismatch(b, c);
    let m1 = mismatch(a, b);
    let m2 = mismatch(b, c);
    let p = if m1 <= m2 { m1 } else { m2 };
    lemma_mismatch_is(a, c, p);
}

/// `lex_le` chains with `lex_lt` and with itself.
pub proof fn lemma_lex_le_lt(a: Seq<u8>, b: Seq<u8>, c: Seq<u8>)
    requires
        lex_le(a, b),
        lex_lt(b, c),
    ensures
        lex_lt(a, c),
{
    if a != b {
        lemma_lex_transitive(a, b, c);
    }
}

/// `lex_le` is transitive.
pub proof fn lemma_lex_le_transitive(a: Seq<u8>, b: Seq<u8>, c: Seq<u8>)
    requires
        lex_le(a, b),
        lex_le(b, c),
    ensures
        lex_le(a, c),
{
    if a != b && b != c {
        lemma_lex_transitive(a, b, c);
    }
}

/// A common prefix does not change the order of two keys.
pub proof fn lemma_lex_common_prefix(p: Seq<u8>, x: Seq<u8>, y: Seq<u8>)
    ensures
        lex_lt(p + x, p + y) == lex_lt(x, y),
{
    lemma_mismatch(x, y);
    lemma_mismatch_is(p + x, p + y, p.len() + mismatch(x, y));
}

/// The keys up to and including `h` are the keys strictly below `h` with a
/// zero byte appended.
pub proof fn lemma_lex_successor(k: Seq<u8>, h: Seq<u8>)
    ensures
        lex_lt(k, h.push(0u8)) == lex_le(k, h),
{
    let h0 = h.push(0u8);
    lemma_mismatch(k, h0);
    lemma_mismatch(k, h);
    let m = mismatch(k, h0);
    if k == h {
        lemma_mismatch_is(k, h0, h.len() as int);
    } else if m < h.len() {
        lemma_mismatch_is(k, h, m);
    } else {
        lemma_mismatch_is(k, h, h.len() as int);
        if m == h.len() && k.len() == h.len() {
            assert(k =~= h);
        }
    }
}

/// Every key is at or above the empty key.
pub proof fn lemma_lex_empty_least(k: Seq<u8>)
    ensures
        lex_le(Seq::<u8>::empty(), k),
{
    lemma_mismatch_is(Seq::<u8>::empty(), k, 0);
    if k.len() == 0 {
        assert(k =~= Seq::<u8>::empty());
    }
}

/// On strings of one length the byte order is the order of the numbers they
/// denote.
pub proof fn lemma_be_order(a: Seq<u8>, b: Seq<u8>)
    requires
        a.len() == b.len(),
    ensures
        lex_lt(a, b) == (be_value(a) < be_value(b)),
    decreases a.len(),
{
    if a.len() == 0 {
        lemma_lex_irreflexive(a);
        assert(a =~= b);
    } else {
        let a1 = a.drop_last();
        let b1 = b.drop_last();
        lemma_be_order(a1, b1);
        lemma_mismatch(a, b);
        lemma_mismatch(a1, b1);
        let m = mismatch(a, b);
        if m < a.len() - 1 {
            lemma_mismatch_is(a1, b1, m);
        } else {
            lemma_mismatch_is(a1, b1, a.len() - 1);
            assert(a1 =~= b1);
            lemma_lex_irreflexive(a1);
        }
        lemma_lex_trichotomy(a1, b1);
        if lex_lt(b1, a1) {
            lemma_be_order(b1, a1);
            lemma_lex_asymmetric(b1, a1);
        }
    }
}

/// Nonces compare as their keys do.
pub proof fn lemma_nonce_key_order(a: u64, b: u64)
    ensures
        lex_lt(nonce_key(a), nonce_key(b)) == (a < b),
        lex_le(nonce_key(a), nonce_key(b)) == (a <= b),
        nonce_key(a).len() == 8,
{
    lemma_pow256_8();
    lemma_be_bytes_len(a as nat, 8);
    lemma_be_bytes_len(b as nat, 8);
    lemma_be_value_of_bytes(a as nat, 8);
    lemma_be_value_of_bytes(b as nat, 8);
    lemma_be_order(nonce_key(a), nonce_key(b));
}

/// Main keys of one topic compare as their nonces do.
pub proof fn lemma_main_key_order(topic: Seq<u8>, a: u64, b: u64)
    ensures
        lex_lt(main_key(topic, a), main_key(topic, b)) == (a < b),
        lex_le(main_key(topic, a), main_key(topic, b)) == (a <= b),
{
    lemma_nonce_key_order(a, b);
    lemma_lex_common_prefix(topic, nonce_key(a), nonce_key(b));
    if main_key(topic, a) == main_key(topic, b) {
        assert(nonce_key(a) =~= main_key(topic, a).subrange(
            topic.len() as int,
            topic.len() as int + 8,
        ));
        assert(nonce_key(b) =~= main_key(topic, b).subrange(
            topic.len() as int,
            topic.len() as int + 8,
        ));
    }
}

/// The nonce can be read back from a main key.
pub proof fn lemma_key_nonce_of_main_key(topic: Seq<u8>, n: u64)
    ensures
        key_nonce(main_key(topic, n)) == n,
{
    lemma_pow256_8();
    lemma_be_bytes_len(n as nat, 8);
    lemma_be_value_of_bytes(n as nat, 8);
    let k = main_key(topic, n);
    assert(k.subrange(k.len() - 8, k.len() as int) =~= nonce_key(n));
}

// ---------------------------------------------------------------------------
// Data keys
// ---------------------------------------------------------------------------

/// The index of the first `-` in `key` at or after `i`, or the length of
/// `key` if there is none.
pub open spec fn dash_from(key: Seq<u8>, i: int) -> int
    decreases key.len() - i,
{
    if 0 <= i < key.len() && key[i] != DASH {
        dash_from(key, i + 1)
    } else {
        i
    }
}

/// The topic of a data key: what stands before its first `-` (all of it if
/// it holds none).
pub open spec fn key_topic(key: Seq<u8>) -> Seq<u8> {
    key.subrange(0, dash_from(key, 0))
}

/// Whether `topic` is free of `-`, so that it can be read back from a data
/// key.
pub open spec fn dash_free(topic: Seq<u8>) -> bool {
    forall|i: int| 0 <= i < topic.len() ==> topic[i] != DASH
}

proof fn lemma_dash_from(key: Seq<u8>, i: int)
    requires
        0 <= i <= key.len(),
    ensures
        ({
            let d = dash_from(key, i);
            &&& i <= d <= key.len()
            &&& forall|j: int| i <= j < d ==> key[j] != DASH
            &&& d < key.len() ==> key[d] == DASH
        }),
    decreases key.len() - i,
{
    if i < key.len() && key[i] != DASH {
        lemma_dash_from(key, i + 1);
    }
}

/// A topic without `-` is read back from any data key made of it.
pub proof fn lemma_key_topic_of_data_key(topic: Seq<u8>, uid: Seq<u8>)
    requires
        dash_free(topic),
    ensures
        key_topic(topic + seq![DASH] + uid) == topic,
{
    let key = topic + seq![DASH] + uid;
    lemma_dash_from(key, 0);
    let d = dash_from(key, 0);
    assert(key[topic.len() as int] == DASH);
    if d < topic.len() {
        assert(key[d] == topic[d]);
    }
    assert(key.subrange(0, d) =~= topic);
}

/// Encoding text as UTF-8 goes through concatenation.
pub proof fn lemma_encode_utf8_concat(a: Seq<char>, b: Seq<char>)
    ensures
        encode_utf8(a + b) == encode_utf8(a) + encode_utf8(b),
    decreases a.len(),
{
    if a.len() == 0 {
        assert(a + b =~= b);
        assert(encode_utf8(a) + encode_utf8(b) =~= encode_utf8(b));
    } else {
        lemma_encode_utf8_concat(a.drop_first(), b);
        assert((a + b).drop_first() =~= a.drop_first() + b);
        assert(encode_utf8(a + b) =~= encode_utf8(a) + encode_utf8(b));
    }
}

/// The bytes of a data key are the topic's, a `-`, and the uid's.
pub proof fn lemma_data_key_bytes(topic: Seq<char>, uid: Seq<char>)
    ensures
        encode_utf8(data_key_text(topic, uid)) == encode_utf8(topic) + seq![DASH] + encode_utf8(
            uid,
        ),
{
    let dash = seq!['-'];
    lemma_encode_utf8_concat(topic + dash, uid);
    lemma_encode_utf8_concat(topic, dash);
    assert(is_ascii_chars(dash));
    is_ascii_chars_encode_utf8(dash);
    assert(encode_utf8(dash) =~= seq![DASH]);
}

// ---------------------------------------------------------------------------
// Executable encoders
// ---------------------------------------------------------------------------

/// The eight big-endian bytes of `n`.
pub fn u64to_vec(n: u64) -> (r: Vec<u8>)
    ensures
        r@ == nonce_key(n),
        r@.len() == 8,
{
    let b7: u8 = (n % 256) as u8;
    let n1: u64 = n / 256;
    let b6: u8 = (n1 % 256) as u8;
    let n2: u64 = n1 / 256;
    let b5: u8 = (n2 % 256) as u8;
    let n3: u64 = n2 / 256;
    let b4: u8 = (n3 % 256) as u8;
    let n4: u64 = n3 / 256;
    let b3: u8 = (n4 % 256) as u8;
    let n5: u64 = n4 / 256;
    let b2: u8 = (n5 % 256) as u8;
    let n6: u64 = n5 / 256;
    let b1: u8 = (n6 % 256) as u8;
    let n7: u64 = n6 / 256;
    let b0: u8 = (n7 % 256) as u8;
    let mut r: Vec<u8> = Vec::new();
    r.push(b0);
    r.push(b1);
    r.push(b2);
    r.push(b3);
    r.push(b4);
    r.push(b5);
    r.push(b6);
    r.push(b7);
    proof {
        reveal_with_fuel(be_bytes, 9);
        assert(r@ =~= be_bytes(n as nat, 8));
    }
    r
}

/// The eight big-endian bytes of `n` in two's complement: the key of day `n`.
pub fn i64to_vec(n: i64) -> (r: Vec<u8>)
    ensures
        r@ == day_key(n),
        r@.len() == 8,
{
    let u: u64 = if n >= 0 {
        n as u64
    } else {
        ((n - i64::MIN) as u64) + 0x8000_0000_0000_0000u64
    };
    u64to_vec(u)
}

/// The number that eight big-endian bytes denote.
pub fn vectu64(vc: Vec<u8>) -> (r: u64)
    requires
        vc@.len() == 8,
    ensures
        r == be_value(vc@),
{
    proof {
        assert(vc@.subrange(0, 8) =~= vc@);
    }
    bytes_to_u64(vc.as_slice(), 0, 8)
}

/// The number that the bytes of `s` from index `from` up to `to`, at most
/// eight of them, denote.
pub fn bytes_to_u64(s: &[u8], from: usize, to: usize) -> (r: u64)
    requires
        from <= to <= s@.len(),
        to - from <= 8,
    ensures
        r == be_value(s@.subrange(from as int, to as int)),
{
    let ghost w = s@.subrange(from as int, to as int);
    let mut r: u64 = 0;
    let mut i: usize = from;
    while i < to
        invariant
            from <= i <= to <= s@.len(),
            to - from <= 8,
            w == s@.subrange(from as int, to as int),
            r == be_value(w.subrange(0, i - from)),
            r < pow256((i - from) as nat),
        decreases to - i,
    {
        proof {
            reveal_with_fuel(pow256, 9);
            assert(w.subrange(0, i - from + 1).drop_last() =~= w.subrange(0, i - from));
        }
        r = r * 256 + s[i] as u64;
        i = i + 1;
    }
    proof {
        assert(w.subrange(0, to - from) =~= w);
    }
    r
}

/// The nonce that a main-index key ends in.
pub fn decode_key_nonce(key: &[u8]) -> (r: u64)
    ensures
        r == key_nonce(key@),
{
    let n: usize = key.len();
    if n >= 8 {
        bytes_to_u64(key, n - 8, n)
    } else {
        proof {
            assert(key@.subrange(0, n as int) =~= key@);
        }
        bytes_to_u64(key, 0, n)
    }
}

/// The index of the first `-` in `key`, or its length if it holds none.
pub fn dash_position(key: &[u8]) -> (r: usize)
    ensures
        r == dash_from(key@, 0),
        r <= key@.len(),
{
    let mut i: usize = 0;
    while i < key.len() && key[i] != DASH
        invariant
            i <= key@.len(),
            dash_from(key@, 0) == dash_from(key@, i as int),
        decreases key@.len() - i,
    {
        i = i + 1;
    }
    proof {
        lemma_dash_from(key@, i as int);
    }
    i
}

/// Appends the bytes of `s` from index `from` up to `to` to `r`.
pub fn append_bytes(r: &mut Vec<u8>, s: &[u8], from: usize, to: usize)
    requires
        from <= to <= s@.len(),
    ensures
        final(r)@ == old(r)@ + s@.subrange(from as int, to as int),
{
    let mut i: usize = from;
    while i < to
        invariant
            from <= i <= to <= s@.len(),
            r@ == old(r)@ + s@.subrange(from as int, i as int),
        decreases to - i,
    {
        r.push(s[i]);
        i = i + 1;
        proof {
            assert(r@ =~= old(r)@ + s@.subrange(from as int, i as int));
        }
    }
}

/// A copy of `s`.
pub fn copy_bytes(s: &[u8]) -> (r: Vec<u8>)
    ensures
        r@ == s@,
{
    let mut r: Vec<u8> = Vec::new();
    append_bytes(&mut r, s, 0, s.len());
    proof {
        assert(s@.subrange(0, s@.len() as int) =~= s@);
        assert(r@ =~= s@);
    }
    r
}

/// The key `a‖b`.
pub fn concat_bytes(a: &[u8], b: &[u8]) -> (r: Vec<u8>)
    ensures
        r@ == a@ + b@,
{
    let mut r: Vec<u8> = Vec::new();
    append_bytes(&mut r, a, 0, a.len());
    append_bytes(&mut r, b, 0, b.len());
    proof {
        assert(a@.subrange(0, a@.len() as int) =~= a@);
        assert(b@.subrange(0, b@.len() as int) =~= b@);
        assert(r@ =~= a@ + b@);
    }
    r
}

/// The main-index key that stands for range-index entry `k -> dk`: the topic
/// read off the data key `dk`, then `k`.
pub fn topic_key(k: &[u8], dk: &[u8]) -> (r: Vec<u8>)
    ensures
        r@ == key_topic(dk@) + k@,
{
    let d: usize = dash_position(dk);
    let mut r: Vec<u8> = Vec::new();
    append_bytes(&mut r, dk, 0, d);
    append_bytes(&mut r, k, 0, k.len());
    proof {
        assert(k@.subrange(0, k@.len() as int) =~= k@);
        assert(r@ =~= key_topic(dk@) + k@);
    }
    r
}

/// The main-index key of the record of `topic` with nonce `nonce`: the
/// topic's bytes, then the nonce big-endian.
pub fn make_key(topic: &str, nonce: u64) -> (r: Vec<u8>)
    ensures
        r@ == main_key(topic.spec_bytes(), nonce),
{
    let mut r: Vec<u8> = topic.as_bytes_vec();
    let mut n: Vec<u8> = u64to_vec(nonce);
    r.append(&mut n);
    r
}

/// The data key of the message `uid` on `topic`: `topic`, a `-`, `uid`.
pub fn make_data_key(topic: &str, uid: &str) -> (r: String)
    ensures
        r@ == data_key_text(topic@, uid@),
        encode_utf8(r@) == encode_utf8(topic@) + seq![DASH] + encode_utf8(uid@),
{
    let mut r = String::from_str(topic);
    r.append("-");
    r.append(uid);
    proof {
        reveal_strlit("-");
        assert("-"@ =~= seq!['-']);
        lemma_data_key_bytes(topic@, uid@);
    }
    r
}

} // verus!
