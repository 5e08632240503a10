//! The shared nonce sequencer.

use vstd::prelude::*;

verus! {

/// Source of the broker's nonces: a counter that only moves forward.
///
/// The value held is the high-water mark, the last nonce handed out (or the
/// mark the counter was raised to on recovery).
#[derive(Debug)]
pub struct IdGenerator {
    max_id: u64,
}

/// The nonce that follows high-water mark `mark`.
pub open spec fn next_id(mark: u64) -> int {
    mark + 1
}

/// The nonce handed out by the `k`-th draw (counted from 1) of a sequencer
/// that started at `init`; `nth_id(init, 0)` is `init` itself.
pub open spec fn nth_id(init: u64, k: nat) -> int
    decreases k,
{
    if k == 0 {
        init as int
    } else {
        nth_id(init, (k - 1) as nat) + 1
    }
}

impl IdGenerator {
    /// The high-water mark.
    pub closed spec fn mark(&self) -> u64 {
        self.max_id
    }

    /// A sequencer whose first nonce will be `init_id + 1`.
    pub fn new(init_id: u64) -> (r: IdGenerator)
        ensures
            r.mark() == init_id,
    {
        IdGenerator { max_id: init_id }
    }

    /// Raises the high-water mark to `init_id` if it is below it.
    pub fn init_with(&mut self, init_id: u64)
        ensures
            final(self).mark() == if old(self).mark() >= init_id {
                old(self).mark()
            } else {
                init_id
            },
    {
        if init_id > self.max_id {
            self.max_id = init_id;
        }
    }

    /// Hands out the next nonce.
    pub fn gen_id(&mut self) -> (id: u64)
        requires
            old(self).mark() < u64::MAX,
        ensures
            id == next_id(old(self).mark()),
            final(self).mark() == id,
    {
        self.max_id = self.max_id + 1;
        self.max_id
    }

    /// Hands out the next nonce, or `None` once the counter is exhausted.
    pub fn try_gen_id(&mut self) -> (id: Option<u64>)
        ensures
            old(self).mark() < u64::MAX ==> id == Some(next_id(old(self).mark()) as u64)
                && final(self).mark() == next_id(old(self).mark()),
            old(self).mark() == u64::MAX ==> id.is_none() && final(self).mark() == u64::MAX,
    {
        if self.max_id < u64::MAX {
            Some(self.gen_id())
        } else {
            None
        }
    }

    /// The high-water mark: the last nonce handed out.
    pub fn get_max_id(&self) -> (m: u64)
        ensures
            m == self.mark(),
    {
        self.max_id
    }
}

/// Whether `v` is among the first `n` draws of a sequencer started at `init`.
pub open spec fn is_draw(init: u64, n: nat, v: int) -> bool {
    exists|i: nat| 1 <= i <= n && #[trigger] nth_id(init, i) == v
}

/// The `k`-th draw from a sequencer started at `init` is `init + k`.
pub proof fn lemma_nth_id_closed_form(init: u64, k: nat)
    ensures
        nth_id(init, k) == init + k,
    decreases k,
{
    if k > 0 {
        lemma_nth_id_closed_form(init, (k - 1) as nat);
    }
}

/// Each draw is one application of `next_id` to the mark left by the draw
/// before it.
pub proof fn lemma_nth_id_steps(init: u64, k: nat)
    requires
        k >= 1,
        init + k <= u64::MAX,
    ensures
        nth_id(init, k) == next_id(nth_id(init, (k - 1) as nat) as u64),
{
    lemma_nth_id_closed_form(init, (k - 1) as nat);
}

/// `n` draws from a sequencer started at `init` give pairwise distinct
/// nonces, in ascending order, which are exactly `init + 1 ..= init + n`.
pub proof fn lemma_draws_distinct_contiguous(init: u64, n: nat)
    requires
        init + n <= u64::MAX,
    ensures
        forall|i: nat, j: nat| 1 <= i < j <= n ==> #[trigger] nth_id(init, i) < #[trigger] nth_id(init, j),
        forall|i: nat| 1 <= i <= n ==> init + 1 <= #[trigger] nth_id(init, i) <= init + n,
        forall|v: int| init + 1 <= v <= init + n ==> #[trigger] is_draw(init, n, v),
{
    assert forall|i: nat, j: nat| 1 <= i < j <= n implies #[trigger] nth_id(init, i) < #[trigger] nth_id(init, j) by {
        lemma_nth_id_closed_form(init, i);
        lemma_nth_id_closed_form(init, j);
    }
    assert forall|i: nat| 1 <= i <= n implies init + 1 <= #[trigger] nth_id(init, i) <= init + n by {
        lemma_nth_id_closed_form(init, i);
    }
    assert forall|v: int| init + 1 <= v <= init + n implies #[trigger] is_draw(init, n, v) by {
        let i = (v - init) as nat;
        lemma_nth_id_closed_form(init, i);
        assert(1 <= i <= n && nth_id(init, i) == v);
    }
}

} // verus!
