//! The generator itself: seed encoding, the 80-bit register with its
//! feedback refills, self-shrinking extraction of derived bits, and
//! rejection sampling of field elements.

use vstd::prelude::*;

use crate::field::le_val;
use crate::field::from_repr;
use crate::field::pack;
use crate::field::pack_spec;
use crate::field::Field;
use crate::field::FieldElement;
use crate::stream::advance;
use crate::stream::after_derived;
use crate::stream::after_derived_n;
use crate::stream::derived_bit;
use crate::stream::derived_ok;
use crate::stream::derived_seq;
use crate::stream::first_live_pair;
use crate::stream::has_live_pair;
use crate::stream::iter_refill;
use crate::stream::lemma_advance_raw;
use crate::stream::lemma_advance_refills;
use crate::stream::lemma_derived_ok_live;
use crate::stream::lemma_derived_unroll;
use crate::stream::lemma_first_live_pair;
use crate::stream::live_pair;
use crate::stream::raw_bit;
use crate::stream::refill;
use crate::stream::state_wf;
use crate::stream::step;
use crate::stream::StreamState;

verus! {

/// The kind of field the generator derives constants for.
#[derive(Debug, Clone, Copy)]
pub enum FieldType {
    /// A binary field.
    Binary,
    /// A prime-order field.
    PrimeOrder,
}

impl FieldType {
    /// The 2-bit tag this kind encodes into the seed.
    pub open spec fn tag_spec(&self) -> u8 {
        match self {
            FieldType::Binary => 0,
            FieldType::PrimeOrder => 1,
        }
    }

    pub fn tag(&self) -> (t: u8)
        ensures
            t == self.tag_spec(),
    {
        match self {
            FieldType::Binary => 0,
            FieldType::PrimeOrder => 1,
        }
    }
}

/// The kind of S-box the surrounding permutation applies.
#[derive(Debug, Clone, Copy)]
pub enum SboxType {
    /// A power map.
    Pow,
    /// An inverse map.
    Inv,
}

impl SboxType {
    /// The 4-bit tag this kind encodes into the seed.
    pub open spec fn tag_spec(&self) -> u8 {
        match self {
            SboxType::Pow => 0,
            SboxType::Inv => 1,
        }
    }

    pub fn tag(&self) -> (t: u8)
        ensures
            t == self.tag_spec(),
    {
        match self {
            SboxType::Pow => 0,
            SboxType::Inv => 1,
        }
    }
}

/// Bit `i` of a seed parameter value, bit 0 being least significant.
pub open spec fn bit_of(v: u16, i: int) -> bool {
    (v >> (i as u16)) & 1 == 1
}

/// Bit `k` of the freshly seeded register. The six parameter fields occupy
/// the first 50 bits, each written most significant bit first into its slot;
/// every remaining bit is 1.
pub open spec fn seed_bit(n_bits: u16, sbox: SboxType, t: u16, r_f: u16, r_p: u16, k: int) -> bool {
    if 0 <= k < 2 {
        bit_of(FieldType::PrimeOrder.tag_spec() as u16, 1 - k)
    } else if k < 6 {
        bit_of(sbox.tag_spec() as u16, 5 - k)
    } else if k < 18 {
        bit_of(n_bits, 17 - k)
    } else if k < 30 {
        bit_of(t, 29 - k)
    } else if k < 40 {
        bit_of(r_f, 39 - k)
    } else if k < 50 {
        bit_of(r_p, 49 - k)
    } else {
        true
    }
}

/// The register as the seed encoder leaves it.
pub open spec fn seed_register(n_bits: u16, sbox: SboxType, t: u16, r_f: u16, r_p: u16) -> Seq<
    bool,
> {
    Seq::new(80, |k: int| seed_bit(n_bits, sbox, t, r_f, r_p, k))
}

/// The state a fresh generator is in after seeding and warm-up: the seeded
/// register refilled 20 times with all 160 raw bits discarded, and the
/// cursor at the refill boundary.
pub open spec fn init_state(n_bits: u16, sbox: SboxType, t: u16, r_f: u16, r_p: u16) -> StreamState {
    StreamState { reg: iter_refill(seed_register(n_bits, sbox, t, r_f, r_p), 20), cur: 80 }
}

/// The generator: an 80-bit register run as a linear-feedback shift
/// register, read through a cursor, feeding self-shrinking extraction and
/// rejection sampling for the target field.
pub struct Grain {
    state: Vec<bool>,
    next_bit: usize,
    field: Field,
}

impl View for Grain {
    type V = StreamState;

    closed spec fn view(&self) -> StreamState {
        StreamState { reg: self.state@, cur: self.next_bit as nat }
    }
}

impl Grain {
    /// The target field this generator samples for.
    pub closed spec fn field_params(&self) -> Field {
        self.field
    }

    /// The register always holds exactly 80 bits, the cursor stays in
    /// [0, 80], and the target field is well formed.
    pub open spec fn wf(&self) -> bool {
        &&& state_wf(self@)
        &&& self.field_params().wf()
    }
}

/// Writes the lowest `len` bits of `value` into `state[offset..offset + len]`,
/// most significant bit first.
fn set_bits(state: &mut Vec<bool>, offset: usize, len: usize, value: u16)
    requires
        old(state)@.len() == 80,
        1 <= len <= 16,
        offset + len <= 80,
    ensures
        final(state)@.len() == 80,
        forall|x: int|
            offset <= x < offset + len ==> #[trigger] final(state)@[x] == bit_of(
                value,
                offset + len - 1 - x,
            ),
        forall|x: int|
            0 <= x < 80 && !(offset <= x < offset + len) ==> #[trigger] final(state)@[x] == old(
                state,
            )@[x],
{
    let ghost s0 = state@;
    let mut idx: usize = 0;
    while idx < len
        invariant
            state@.len() == 80,
            idx <= len,
            1 <= len <= 16,
            offset + len <= 80,
            forall|x: int|
                offset <= x < offset + idx ==> #[trigger] state@[x] == bit_of(
                    value,
                    offset + len - 1 - x,
                ),
            forall|x: int|
                0 <= x < 80 && !(offset <= x < offset + idx) ==> #[trigger] state@[x] == s0[x],
        decreases len - idx,
    {
        let sh: u16 = (len - 1 - idx) as u16;
        proof {
            assert(((value >> sh) & 1) < 2) by (bit_vector);
        }
        let b = (value >> sh) & 1 != 0;
        state.set(offset + idx, b);
        idx += 1;
    }
}

impl Grain {
    /// Builds a generator for the given target field, seeds the register
    /// from the parameters — prime-order field kind, the S-box kind, the
    /// field's bit length, the state width `t` and the two round counts —
    /// and warms it up by discarding 160 raw bits. The parameter bounds are
    /// the widths of the seed slots.
    pub fn new(field: Field, sbox: SboxType, t: u16, r_f: u16, r_p: u16) -> (g: Grain)
        requires
            field.wf(),
            t < 4096,
            r_f < 1024,
            r_p < 1024,
        ensures
            g.wf(),
            g.field_params() == field,
            g@ == init_state(field.num_bits, sbox, t, r_f, r_p),
    {
        let mut state: Vec<bool> = Vec::new();
        let mut i: usize = 0;
        while i < 80
            invariant
                i <= 80,
                state@.len() == i,
                forall|x: int| 0 <= x < i ==> state@[x] == true,
            decreases 80 - i,
        {
            state.push(true);
            i += 1;
        }
        let ft = FieldType::PrimeOrder.tag();
        let st = sbox.tag();
        set_bits(&mut state, 0, 2, ft as u16);
        set_bits(&mut state, 2, 4, st as u16);
        set_bits(&mut state, 6, 12, field.num_bits);
        set_bits(&mut state, 18, 12, t);
        set_bits(&mut state, 30, 10, r_f);
        set_bits(&mut state, 40, 10, r_p);
        proof {
            assert(state@ =~= seed_register(field.num_bits, sbox, t, r_f, r_p));
        }
        let ghost seed0 = state@;
        let ghost f0 = field;
        let mut g = Grain { state, next_bit: 80, field };
        let mut w: usize = 0;
        while w < 20
            invariant
                w <= 20,
                g.wf(),
                g.field_params() == f0,
                g@.cur == 80,
                seed0.len() == 80,
                g@.reg == iter_refill(seed0, w as nat),
            decreases 20 - w,
        {
            g.load_next_8_bits();
            g.next_bit = 80;
            proof {
                assert(iter_refill(seed0, w as nat + 1) == refill(iter_refill(seed0, w as nat)));
            }
            w += 1;
        }
        proof {
            assert(g@ =~= init_state(f0.num_bits, sbox, t, r_f, r_p));
        }
        g
    }

    /// A refill: computes the 8 feedback bits from the current window,
    /// shifts the oldest 8 bits out, appends the new bits at the back, and
    /// rests the cursor on the first of them.
    fn load_next_8_bits(&mut self)
        requires
            old(self).wf(),
            old(self)@.cur == 80,
        ensures
            final(self).wf(),
            final(self).field_params() == old(self).field_params(),
            final(self)@.reg == refill(old(self)@.reg),
            final(self)@.cur == 72,
    {
        let ghost r0 = self.state@;
        let ghost f0 = self.field_params();
        let mut fresh: Vec<bool> = Vec::new();
        let mut i: usize = 0;
        while i < 8
            invariant
                i <= 8,
                fresh@.len() == i,
                self.state@ == r0,
                r0.len() == 80,
                self.field_params() == f0,
                forall|x: int| 0 <= x < i ==> fresh@[x] == crate::stream::feedback_bit(r0, x),
            decreases 8 - i,
        {
            let b = self.state[i + 62] ^ self.state[i + 51] ^ self.state[i + 38] ^ self.state[i
                + 23] ^ self.state[i + 13] ^ self.state[i];
            fresh.push(b);
            i += 1;
        }
        let mut j: usize = 0;
        while j < 72
            invariant
                j <= 72,
                self.state@.len() == 80,
                r0.len() == 80,
                self.field_params() == f0,
                fresh@.len() == 8,
                forall|x: int| 0 <= x < 8 ==> fresh@[x] == crate::stream::feedback_bit(r0, x),
                forall|x: int| 0 <= x < j ==> self.state@[x] == r0[x + 8],
                forall|x: int| j <= x < 80 ==> self.state@[x] == r0[x],
            decreases 72 - j,
        {
            let v = self.state[j + 8];
            self.state.set(j, v);
            j += 1;
        }
        let mut m: usize = 0;
        while m < 8
            invariant
                m <= 8,
                self.state@.len() == 80,
                r0.len() == 80,
                self.field_params() == f0,
                fresh@.len() == 8,
                forall|x: int| 0 <= x < 8 ==> fresh@[x] == crate::stream::feedback_bit(r0, x),
                forall|x: int| 0 <= x < 72 ==> self.state@[x] == r0[x + 8],
                forall|x: int| 72 <= x < 72 + m ==> self.state@[x] == crate::stream::feedback_bit(
                    r0,
                    x - 72,
                ),
            decreases 8 - m,
        {
            let v = fresh[m];
            self.state.set(72 + m, v);
            m += 1;
        }
        self.next_bit = 72;
        proof {
            assert(self.state@ =~= refill(r0));
        }
    }

    /// Reads one raw bit: refills first when the window is spent, returns
    /// the bit under the cursor, and advances the cursor past it.
    pub fn get_next_bit(&mut self) -> (b: bool)
        requires
            old(self).wf(),
        ensures
            final(self).wf(),
            final(self).field_params() == old(self).field_params(),
            final(self)@ == step(old(self)@),
            b == raw_bit(old(self)@, 0),
    {
        if self.next_bit == 80 {
            self.load_next_8_bits();
            proof {
                assert(iter_refill(old(self)@.reg, 0) == old(self)@.reg);
                assert(iter_refill(old(self)@.reg, 1) == refill(iter_refill(old(self)@.reg, 0)));
            }
        }
        let b = self.state[self.next_bit];
        self.next_bit = self.next_bit + 1;
        b
    }

    /// One self-shrinking step: reads raw pairs (control, candidate) until a
    /// control bit of 1 appears and returns that pair's candidate bit as the
    /// next derived bit. The caller owns the assumption that a live pair
    /// lies ahead; on a raw stream without one the search would not end.
    pub fn next(&mut self) -> (r: Option<bool>)
        requires
            old(self).wf(),
            has_live_pair(old(self)@),
        ensures
            final(self).wf(),
            final(self).field_params() == old(self).field_params(),
            r == Some(derived_bit(old(self)@)),
            final(self)@ == after_derived(old(self)@),
    {
        let ghost s0 = self@;
        let ghost f0 = self.field_params();
        proof {
            let wl = choose|jj: nat| live_pair(s0, jj);
            lemma_first_live_pair(s0, wl);
        }
        let ghost fl = first_live_pair(s0);
        let ghost mut j: nat = 0;
        loop
            invariant
                s0 == old(self)@,
                f0 == old(self).field_params(),
                self.wf(),
                self.field_params() == f0,
                state_wf(s0),
                live_pair(s0, fl),
                fl == first_live_pair(s0),
                forall|i: nat| i < fl ==> !(#[trigger] live_pair(s0, i)),
                j <= fl,
                self@ == advance(s0, 2 * j),
            decreases fl - j,
        {
            proof {
                lemma_advance_raw(s0, 2 * j, 0);
                lemma_advance_raw(s0, 2 * j + 1, 0);
                assert(advance(s0, 2 * j + 1) == step(advance(s0, 2 * j)));
                assert(advance(s0, 2 * j + 2) == step(advance(s0, 2 * j + 1)));
            }
            let control = self.get_next_bit();
            if control {
                proof {
                    assert(live_pair(s0, j));
                    assert(j == fl);
                }
                let candidate = self.get_next_bit();
                proof {
                    assert(candidate == raw_bit(s0, 2 * j + 1));
                    assert(self@ == after_derived(s0));
                }
                return Some(candidate);
            }
            let _ = self.get_next_bit();
            proof {
                assert(!live_pair(s0, j));
                j = j + 1;
            }
        }
    }
}

/// The stream state after `k` complete sampling attempts, each drawing `nb`
/// derived bits.
pub open spec fn attempt_state(s: StreamState, nb: nat, k: nat) -> StreamState
    decreases k,
{
    if k == 0 {
        s
    } else {
        after_derived_n(attempt_state(s, nb, (k - 1) as nat), nb)
    }
}

/// The bits drawn by sampling attempt `k`.
pub open spec fn attempt_bits(s: StreamState, nb: nat, k: nat) -> Seq<bool> {
    derived_seq(attempt_state(s, nb, k), nb)
}

/// Attempts 0 through `k` each draw their full `nb` derived bits.
pub open spec fn attempts_ok(s: StreamState, nb: nat, k: nat) -> bool {
    forall|i: nat| i <= k ==> derived_ok(#[trigger] attempt_state(s, nb, i), nb)
}

/// Attempt `k` draws a buffer whose value lies below the modulus, so
/// rejection sampling accepts it.
pub open spec fn attempt_accepted(f: Field, s: StreamState, k: nat) -> bool {
    le_val(pack_spec(attempt_bits(s, f.num_bits as nat, k))) < le_val(f.modulus@)
}

/// Somewhere ahead lies an accepted attempt, so rejection sampling halts.
/// Real target fields sit close under a power of two, which keeps the
/// accepted attempt near; nothing here enforces that, and a pathological
/// modulus could stall the sampler — callers own this assumption.
pub open spec fn sampling_halts(f: Field, s: StreamState) -> bool {
    exists|k: nat|
        attempts_ok(s, f.num_bits as nat, k) && #[trigger] attempt_accepted(f, s, k)
}

/// From any accepted attempt, a first accepted attempt exists; returns its
/// index.
proof fn lemma_first_accepted(f: Field, s: StreamState, n: nat) -> (k: nat)
    requires
        attempts_ok(s, f.num_bits as nat, n),
        attempt_accepted(f, s, n),
    ensures
        k <= n,
        attempts_ok(s, f.num_bits as nat, k),
        attempt_accepted(f, s, k),
        forall|i: nat| i < k ==> !(#[trigger] attempt_accepted(f, s, i)),
    decreases n,
{
    if exists|i: nat| i < n && #[trigger] attempt_accepted(f, s, i) {
        let i0 = choose|i: nat| i < n && #[trigger] attempt_accepted(f, s, i);
        lemma_first_accepted(f, s, i0)
    } else {
        n
    }
}

impl Grain {
    /// Samples the next element of the target field: repeatedly draws
    /// `num_bits` derived bits, packs them little-endian into a byte buffer,
    /// and returns the first buffer whose value lies below the modulus.
    /// Rejected buffers are discarded and drawing starts over; the retry
    /// loop has no iteration cap, so the caller owns the assumption that
    /// some attempt is accepted.
    #[verifier::rlimit(100)]
    pub fn next_field_element(&mut self) -> (e: FieldElement)
        requires
            old(self).wf(),
            sampling_halts(old(self).field_params(), old(self)@),
        ensures
            final(self).wf(),
            final(self).field_params() == old(self).field_params(),
            e.wf(&old(self).field_params()),
            exists|k: nat|
                {
                    &&& attempts_ok(old(self)@, old(self).field_params().num_bits as nat, k)
                    &&& #[trigger] attempt_accepted(old(self).field_params(), old(self)@, k)
                    &&& forall|i: nat|
                        i < k ==> !(#[trigger] attempt_accepted(
                            old(self).field_params(),
                            old(self)@,
                            i,
                        ))
                    &&& e.bytes@ == pack_spec(
                        attempt_bits(old(self)@, old(self).field_params().num_bits as nat, k),
                    )
                    &&& final(self)@ == attempt_state(
                        old(self)@,
                        old(self).field_params().num_bits as nat,
                        k + 1,
                    )
                },
    {
        let ghost s0 = self@;
        let ghost f0 = self.field_params();
        let ghost nb = f0.num_bits as nat;
        let ghost mut kacc: nat = 0;
        proof {
            let w = choose|k: nat|
                attempts_ok(s0, f0.num_bits as nat, k) && #[trigger] attempt_accepted(f0, s0, k);
            kacc = lemma_first_accepted(f0, s0, w);
        }
        let ghost mut j: nat = 0;
        loop
            invariant
                s0 == old(self)@,
                f0 == old(self).field_params(),
                nb == f0.num_bits as nat,
                self.wf(),
                self.field_params() == f0,
                f0.wf(),
                j <= kacc,
                self@ == attempt_state(s0, nb, j),
                attempts_ok(s0, nb, kacc),
                attempt_accepted(f0, s0, kacc),
                forall|i: nat| i < kacc ==> !(#[trigger] attempt_accepted(f0, s0, i)),
            decreases kacc - j,
        {
            let ghost sj = self@;
            let nbits: u16 = self.field.num_bits;
            let mut bits: Vec<bool> = Vec::new();
            proof {
                assert(derived_ok(sj, nb));
                assert(derived_seq(sj, 0) =~= Seq::<bool>::empty());
                assert(after_derived_n(sj, 0) == sj);
            }
            while bits.len() < nbits as usize
                invariant
                    self.wf(),
                    self.field_params() == f0,
                    nb == f0.num_bits as nat,
                    nbits == f0.num_bits,
                    bits@.len() <= nb,
                    derived_ok(sj, nb),
                    bits@ == derived_seq(sj, bits@.len() as nat),
                    self@ == after_derived_n(sj, bits@.len() as nat),
                decreases nb - bits@.len(),
            {
                let ghost m = bits@.len() as nat;
                proof {
                    lemma_derived_ok_live(sj, nb, m);
                    lemma_derived_unroll(sj, m);
                }
                let ob = self.next();
                match ob {
                    Some(x) => {
                        bits.push(x);
                    },
                    None => {
                        proof {
                            assert(false);
                        }
                    },
                }
            }
            proof {
                assert(bits@.len() as nat == nb);
                assert(attempt_state(s0, nb, j + 1) == after_derived_n(
                    attempt_state(s0, nb, j),
                    nb,
                ));
            }
            let buf = pack(&bits);
            let r = from_repr(&self.field, buf);
            match r {
                Some(e) => {
                    proof {
                        assert(attempt_accepted(f0, s0, j));
                    }
                    return e;
                },
                None => {
                    proof {
                        assert(!attempt_accepted(f0, s0, j));
                        assert(j < kacc);
                        j = j + 1;
                    }
                },
            }
        }
    }
}

/// Determinism: the seed parameters alone fix a fresh generator's state, so
/// two generators built from identical parameters share every future raw
/// bit, every derived bit, and every sampling attempt.
pub proof fn lemma_determinism(
    g1: Grain,
    g2: Grain,
    n_bits: u16,
    sbox: SboxType,
    t: u16,
    r_f: u16,
    r_p: u16,
    n: nat,
)
    requires
        g1@ == init_state(n_bits, sbox, t, r_f, r_p),
        g2@ == init_state(n_bits, sbox, t, r_f, r_p),
    ensures
        g1@ == g2@,
        forall|k: nat| raw_bit(g1@, k) == raw_bit(g2@, k),
        derived_seq(g1@, n) == derived_seq(g2@, n),
        forall|nb: nat, k: nat| attempt_state(g1@, nb, k) == attempt_state(g2@, nb, k),
        forall|nb: nat, k: nat| attempt_bits(g1@, nb, k) == attempt_bits(g2@, nb, k),
{
}

/// Warm-up discard count: the state a fresh generator starts from is the
/// seeded register with exactly 160 raw bits produced and thrown away.
pub proof fn lemma_warm_up_discards(n_bits: u16, sbox: SboxType, t: u16, r_f: u16, r_p: u16)
    ensures
        init_state(n_bits, sbox, t, r_f, r_p) == advance(
            (StreamState { reg: seed_register(n_bits, sbox, t, r_f, r_p), cur: 80 }),
            160,
        ),
{
    lemma_advance_refills(seed_register(n_bits, sbox, t, r_f, r_p), 20);
}

} // verus!
