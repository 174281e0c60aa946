//! Ghost model of the raw bit stream: the register, the read cursor, refills,
//! and the self-shrinking extraction of derived bits.

use vstd::prelude::*;

verus! {

/// The generator's mutable state, as specifications see it: the 80-bit
/// register (most significant bit first) and the read cursor, counting how
/// many bits of the current window have been consumed.
#[verifier::ext_equal]
pub ghost struct StreamState {
    pub reg: Seq<bool>,
    pub cur: nat,
}

/// The register always holds exactly 80 bits and the cursor stays in [0, 80].
pub open spec fn state_wf(s: StreamState) -> bool {
    &&& s.reg.len() == 80
    &&& s.cur <= 80
}

/// One feedback bit: the XOR of the six taps at offsets 0, 13, 23, 38, 51
/// and 62 from position `i` of the current window.
pub open spec fn feedback_bit(r: Seq<bool>, i: int) -> bool {
    r[i] ^ r[i + 13] ^ r[i + 23] ^ r[i + 38] ^ r[i + 51] ^ r[i + 62]
}

/// A refill: the oldest 8 bits leave the register and the 8 feedback bits,
/// in generation order, enter at the back.
pub open spec fn refill(r: Seq<bool>) -> Seq<bool> {
    r.subrange(8, 80) + Seq::new(8, |i: int| feedback_bit(r, i))
}

/// The register after `n` refills.
pub open spec fn iter_refill(r: Seq<bool>, n: nat) -> Seq<bool>
    decreases n,
{
    if n == 0 {
        r
    } else {
        refill(iter_refill(r, (n - 1) as nat))
    }
}

/// Reading one raw bit: a refill happens first whenever the window is spent,
/// and the cursor then points just past the bit that was read.
pub open spec fn step(s: StreamState) -> StreamState {
    if s.cur == 80 {
        StreamState { reg: refill(s.reg), cur: 73 }
    } else {
        StreamState { reg: s.reg, cur: s.cur + 1 }
    }
}

/// The state after `n` raw bits have been read.
pub open spec fn advance(s: StreamState, n: nat) -> StreamState
    decreases n,
{
    if n == 0 {
        s
    } else {
        step(advance(s, (n - 1) as nat))
    }
}

/// The `k`-th raw bit that will be produced from state `s` (counting from 0).
/// Refilled bits appear at positions 72..80 of each refilled register.
pub open spec fn raw_bit(s: StreamState, k: nat) -> bool {
    if s.cur + k < 80 {
        s.reg[(s.cur + k) as int]
    } else {
        let m = (s.cur + k - 80) as nat;
        iter_refill(s.reg, m / 8 + 1)[72 + (m % 8) as int]
    }
}

pub proof fn lemma_refill_len(r: Seq<bool>)
    requires
        r.len() == 80,
    ensures
        refill(r).len() == 80,
{
}

/// Refilling once and then `n` times is refilling `n + 1` times.
pub proof fn lemma_iter_refill_shift(r: Seq<bool>, n: nat)
    ensures
        iter_refill(refill(r), n) == iter_refill(r, n + 1),
    decreases n,
{
    if n == 0 {
        assert(iter_refill(r, 0) == r);
        assert(iter_refill(refill(r), 0) == refill(r));
        assert(iter_refill(r, 1) == refill(iter_refill(r, 0)));
    } else {
        lemma_iter_refill_shift(r, (n - 1) as nat);
        assert(iter_refill(refill(r), n) == refill(iter_refill(refill(r), (n - 1) as nat)));
        assert(iter_refill(r, n + 1) == refill(iter_refill(r, n)));
    }
}

pub proof fn lemma_step_wf(s: StreamState)
    requires
        state_wf(s),
    ensures
        state_wf(step(s)),
{
    if s.cur == 80 {
        lemma_refill_len(s.reg);
    }
}

pub proof fn lemma_advance_wf(s: StreamState, n: nat)
    requires
        state_wf(s),
    ensures
        state_wf(advance(s, n)),
    decreases n,
{
    if n > 0 {
        lemma_advance_wf(s, (n - 1) as nat);
        lemma_step_wf(advance(s, (n - 1) as nat));
    }
}

/// Reading one bit shifts the upcoming raw stream by one.
pub proof fn lemma_step_raw(s: StreamState, k: nat)
    requires
        state_wf(s),
    ensures
        raw_bit(step(s), k) == raw_bit(s, k + 1),
{
    if s.cur == 80 {
        assert(iter_refill(s.reg, 0) == s.reg);
        assert(iter_refill(s.reg, 1) == refill(s.reg));
        if 73 + k < 80 {
            assert((k + 1) / 8 == 0 && (k + 1) % 8 == k + 1);
        } else {
            let m = (k - 7) as nat;
            lemma_iter_refill_shift(s.reg, m / 8 + 1);
            assert((m + 8) / 8 == m / 8 + 1 && (m + 8) % 8 == m % 8);
        }
    }
}

/// Reading `n` bits shifts the upcoming raw stream by `n`.
pub proof fn lemma_advance_raw(s: StreamState, n: nat, k: nat)
    requires
        state_wf(s),
    ensures
        raw_bit(advance(s, n), k) == raw_bit(s, n + k),
    decreases n,
{
    if n > 0 {
        lemma_advance_wf(s, (n - 1) as nat);
        lemma_step_raw(advance(s, (n - 1) as nat), k);
        lemma_advance_raw(s, (n - 1) as nat, k + 1);
    }
}

pub proof fn lemma_advance_add(s: StreamState, m: nat, n: nat)
    ensures
        advance(advance(s, m), n) == advance(s, m + n),
    decreases n,
{
    if n > 0 {
        lemma_advance_add(s, m, (n - 1) as nat);
    }
}

/// Reading 8·n raw bits from a spent window performs exactly n refills,
/// leaves the window spent again, and throws every bit read away.
pub proof fn lemma_advance_refills(r: Seq<bool>, n: nat)
    ensures
        advance((StreamState { reg: r, cur: 80 }), 8 * n) == (StreamState {
            reg: iter_refill(r, n),
            cur: 80,
        }),
    decreases n,
{
    let s = StreamState { reg: r, cur: 80 };
    if n == 0 {
        assert(advance(s, 0) == s);
        assert(iter_refill(r, 0) == r);
    } else {
        lemma_advance_refills(r, (n - 1) as nat);
        let s1 = StreamState { reg: iter_refill(r, (n - 1) as nat), cur: 80 };
        assert(advance(s1, 0) == s1);
        assert(advance(s1, 1) == step(advance(s1, 0)));
        assert(advance(s1, 1) == StreamState { reg: refill(s1.reg), cur: 73 });
        assert(advance(s1, 2) == step(advance(s1, 1)));
        assert(advance(s1, 3) == step(advance(s1, 2)));
        assert(advance(s1, 4) == step(advance(s1, 3)));
        assert(advance(s1, 5) == step(advance(s1, 4)));
        assert(advance(s1, 6) == step(advance(s1, 5)));
        assert(advance(s1, 7) == step(advance(s1, 6)));
        assert(advance(s1, 8) == step(advance(s1, 7)));
        assert(advance(s1, 8) == StreamState { reg: refill(s1.reg), cur: 80 });
        lemma_advance_add(s, (8 * n - 8) as nat, 8);
        assert(iter_refill(r, n) == refill(iter_refill(r, (n - 1) as nat)));
    }
}

/// Pair `j` of the raw stream is live when its first bit — the control bit —
/// is 1; the pair's second bit is then emitted as a derived bit.
pub open spec fn live_pair(s: StreamState, j: nat) -> bool {
    raw_bit(s, 2 * j)
}

/// Somewhere ahead in the raw stream lies a live pair. Extraction of the next
/// derived bit halts exactly on states with this property.
pub open spec fn has_live_pair(s: StreamState) -> bool {
    exists|j: nat| #[trigger] live_pair(s, j)
}

/// The index of the first live pair ahead of `s`.
pub open spec fn first_live_pair(s: StreamState) -> nat {
    choose|j: nat| live_pair(s, j) && forall|i: nat| i < j ==> !(#[trigger] live_pair(s, i))
}

/// From any live pair, a least live pair exists, and `first_live_pair`
/// denotes it.
pub proof fn lemma_first_live_pair(s: StreamState, n: nat)
    requires
        live_pair(s, n),
    ensures
        has_live_pair(s),
        live_pair(s, first_live_pair(s)),
        forall|i: nat| i < first_live_pair(s) ==> !(#[trigger] live_pair(s, i)),
        first_live_pair(s) <= n,
    decreases n,
{
    if forall|i: nat| i < n ==> !(#[trigger] live_pair(s, i)) {
        assert(live_pair(s, n) && forall|i: nat| i < n ==> !(#[trigger] live_pair(s, i)));
        let j = first_live_pair(s);
        assert(live_pair(s, j) && forall|i: nat| i < j ==> !(#[trigger] live_pair(s, i)));
        if j > n {
            assert(!live_pair(s, n));
        }
    } else {
        let i0 = choose|i: nat| i < n && #[trigger] live_pair(s, i);
        lemma_first_live_pair(s, i0);
    }
}

/// The derived bit extracted next from state `s`: the candidate bit of the
/// first live pair.
pub open spec fn derived_bit(s: StreamState) -> bool {
    raw_bit(s, 2 * first_live_pair(s) + 1)
}

/// The state after one derived bit has been extracted: both bits of every
/// dead pair and both bits of the first live pair have been consumed.
pub open spec fn after_derived(s: StreamState) -> StreamState {
    advance(s, 2 * first_live_pair(s) + 2)
}

/// The state after `n` derived bits have been extracted.
pub open spec fn after_derived_n(s: StreamState, n: nat) -> StreamState
    decreases n,
{
    if n == 0 {
        s
    } else {
        after_derived_n(after_derived(s), (n - 1) as nat)
    }
}

/// The first `n` derived-bit extractions from `s` all halt.
pub open spec fn derived_ok(s: StreamState, n: nat) -> bool
    decreases n,
{
    n == 0 || (has_live_pair(s) && derived_ok(after_derived(s), (n - 1) as nat))
}

/// The first `n` derived bits extracted from `s`.
pub open spec fn derived_seq(s: StreamState, n: nat) -> Seq<bool>
    decreases n,
{
    if n == 0 {
        Seq::empty()
    } else {
        seq![derived_bit(s)] + derived_seq(after_derived(s), (n - 1) as nat)
    }
}

/// Unrolling the derived stream from the right: extracting `n + 1` bits is
/// extracting `n` bits and then one more.
pub proof fn lemma_derived_unroll(s: StreamState, n: nat)
    ensures
        after_derived_n(s, n + 1) == after_derived(after_derived_n(s, n)),
        derived_ok(s, n + 1) == (derived_ok(s, n) && has_live_pair(after_derived_n(s, n))),
        derived_seq(s, n + 1) =~= derived_seq(s, n).push(derived_bit(after_derived_n(s, n))),
    decreases n,
{
    if n == 0 {
        assert(after_derived_n(s, 0) == s);
        assert(after_derived_n(after_derived(s), 0) == after_derived(s));
        assert(after_derived_n(s, 1) == after_derived_n(after_derived(s), 0));
        assert(derived_ok(after_derived(s), 0));
        assert(derived_ok(s, 1) == (has_live_pair(s) && derived_ok(after_derived(s), 0)));
        assert(derived_seq(after_derived(s), 0) =~= Seq::<bool>::empty());
        assert(derived_seq(s, 1) =~= seq![derived_bit(s)] + derived_seq(after_derived(s), 0));
        assert(derived_seq(s, 1) =~= derived_seq(s, 0).push(derived_bit(s)));
    } else {
        lemma_derived_unroll(after_derived(s), (n - 1) as nat);
        assert(after_derived_n(s, n + 1) == after_derived_n(after_derived(s), n));
        assert(after_derived_n(s, n) == after_derived_n(after_derived(s), (n - 1) as nat));
        assert(derived_ok(s, n + 1) == (has_live_pair(s) && derived_ok(after_derived(s), n)));
        assert(derived_ok(s, n) == (has_live_pair(s) && derived_ok(after_derived(s), (
        n - 1) as nat)));
        assert(derived_seq(s, n + 1) =~= seq![derived_bit(s)] + derived_seq(after_derived(s), n));
        assert(derived_seq(s, n) =~= seq![derived_bit(s)] + derived_seq(
            after_derived(s),
            (n - 1) as nat,
        ));
        assert(derived_seq(s, n + 1) =~= derived_seq(s, n).push(
            derived_bit(after_derived_n(s, n)),
        ));
    }
}

/// A state from which `n` derived bits can be extracted yields a live pair at
/// every intermediate state.
pub proof fn lemma_derived_ok_live(s: StreamState, n: nat, m: nat)
    requires
        derived_ok(s, n),
        m < n,
    ensures
        has_live_pair(after_derived_n(s, m)),
    decreases m,
{
    assert(derived_ok(s, n) == (has_live_pair(s) && derived_ok(after_derived(s), (n - 1) as nat)));
    if m == 0 {
        assert(after_derived_n(s, 0) == s);
    } else {
        lemma_derived_ok_live(after_derived(s), (n - 1) as nat, (m - 1) as nat);
        assert(after_derived_n(s, m) == after_derived_n(after_derived(s), (m - 1) as nat));
    }
}

} // verus!

