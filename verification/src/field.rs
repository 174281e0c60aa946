//! The target field as the sampler sees it: a canonical bit length, a
//! modulus in little-endian bytes, and parsing of candidate byte buffers by
//! comparison against the modulus.

use vstd::prelude::*;
use vstd::arithmetic::mul::lemma_mul_inequality;
use vstd::arithmetic::mul::lemma_mul_is_associative;
use vstd::arithmetic::mul::lemma_mul_is_distributive_add;

verus! {

/// The little-endian value of a byte string: byte 0 is least significant.
pub open spec fn le_val(b: Seq<u8>) -> nat
    decreases b.len(),
{
    if b.len() == 0 {
        0
    } else {
        b[0] as nat + 256 * le_val(b.skip(1))
    }
}

/// 256 to the `n`-th power: the weight of byte `n` of a little-endian
/// byte string.
pub open spec fn pow256(n: nat) -> nat
    decreases n,
{
    if n == 0 {
        1
    } else {
        256 * pow256((n - 1) as nat)
    }
}

/// A byte string's value lies below the weight of its one-past-the-end byte.
pub proof fn lemma_le_val_bound(b: Seq<u8>)
    ensures
        le_val(b) < pow256(b.len()),
    decreases b.len(),
{
    if b.len() > 0 {
        lemma_le_val_bound(b.skip(1));
    }
}

/// Appending a byte at the most significant end adds its scaled value.
pub proof fn lemma_le_val_snoc(b: Seq<u8>, v: u8)
    ensures
        le_val(b.push(v)) == le_val(b) + pow256(b.len()) * (v as nat),
    decreases b.len(),
{
    vstd::arithmetic::mul::lemma_mul_nonnegative(pow256(b.len()) as int, v as int);
    vstd::arithmetic::mul::lemma_mul_nonnegative(pow256(b.skip(1).len()) as int, v as int);
    vstd::arithmetic::mul::lemma_mul_nonnegative(256 * pow256(b.skip(1).len()) as int, v as int);
    if b.len() == 0 {
        assert(b.push(v) =~= seq![v]);
        assert(seq![v].skip(1) =~= Seq::<u8>::empty());
        assert(le_val(Seq::<u8>::empty()) == 0);
        assert(le_val(seq![v]) == v as nat + 256 * le_val(seq![v].skip(1)));
        assert(le_val(b) == 0);
        assert(pow256(0) == 1);
    } else {
        assert(b.push(v).skip(1) =~= b.skip(1).push(v));
        lemma_le_val_snoc(b.skip(1), v);
        assert(le_val(b.push(v)) == b.push(v)[0] as nat + 256 * le_val(b.push(v).skip(1)));
        assert(b.push(v)[0] == b[0]);
        assert(le_val(b) == b[0] as nat + 256 * le_val(b.skip(1)));
        assert(b.skip(1).len() == b.len() - 1);
        assert(pow256(b.len()) == 256 * pow256((b.len() - 1) as nat));
        lemma_mul_is_associative(256, pow256(b.skip(1).len()) as int, v as int);
        assert(le_val(b.push(v)) == b[0] as nat + 256 * (le_val(b.skip(1)) + pow256(
            b.skip(1).len(),
        ) * (v as nat)));
        assert(256 * (le_val(b.skip(1)) + pow256(b.skip(1).len()) * (v as nat)) == 256 * le_val(
            b.skip(1),
        ) + 256 * (pow256(b.skip(1).len()) * (v as nat)));
        assert(256 * (pow256(b.skip(1).len()) * (v as nat)) == (256 * pow256(b.skip(1).len())) * (
        v as nat));
    }
}

/// The generator's target field: `num_bits` derived bits are drawn per
/// sampling attempt, and a drawn buffer is a field element exactly when its
/// value lies strictly below the modulus.
pub struct Field {
    /// The field's canonical bit length. It must fit the 12-bit slot of the
    /// seed encoding.
    pub num_bits: u16,
    /// The field's modulus, in little-endian bytes, sized to the canonical
    /// byte representation of an element.
    pub modulus: Vec<u8>,
}

impl Field {
    /// The bit length fits its 12-bit seed slot, the modulus buffer is
    /// sized to that bit length, and the modulus is not zero.
    pub open spec fn wf(&self) -> bool {
        &&& 1 <= self.num_bits <= 4095
        &&& self.modulus@.len() == (self.num_bits + 7) / 8
        &&& le_val(self.modulus@) >= 1
    }
}

/// An element of the target field, held in its canonical little-endian byte
/// encoding; every well-formed element's value lies below the modulus.
#[derive(Clone, Debug, PartialEq, Eq)]
pub struct FieldElement {
    pub bytes: Vec<u8>,
}

impl FieldElement {
    pub open spec fn wf(&self, f: &Field) -> bool {
        &&& self.bytes@.len() == f.modulus@.len()
        &&& le_val(self.bytes@) < le_val(f.modulus@)
    }
}

/// What parsing a canonical byte buffer yields: the buffer itself when its
/// value is below the modulus, and nothing when it falls in the rejection gap.
pub open spec fn from_repr_spec(f: &Field, bytes: Seq<u8>) -> Option<Seq<u8>> {
    if le_val(bytes) < le_val(f.modulus@) {
        Some(bytes)
    } else {
        None
    }
}

/// Bit `k` of a drawn bit sequence as the unit it contributes to its byte;
/// bits past the end of the sequence contribute 0.
pub open spec fn bit_u8(bits: Seq<bool>, k: int) -> u8 {
    if 0 <= k < bits.len() && bits[k] {
        1
    } else {
        0
    }
}

/// Byte `i` of the packed buffer: bit `k` of the drawn sequence sets bit
/// `k % 8` of byte `k / 8`.
pub open spec fn packed_byte(bits: Seq<bool>, i: int) -> u8 {
    bit_u8(bits, 8 * i) | (bit_u8(bits, 8 * i + 1) << 1u8) | (bit_u8(bits, 8 * i + 2) << 2u8) | (
    bit_u8(bits, 8 * i + 3) << 3u8) | (bit_u8(bits, 8 * i + 4) << 4u8) | (bit_u8(bits, 8 * i + 5)
        << 5u8) | (bit_u8(bits, 8 * i + 6) << 6u8) | (bit_u8(bits, 8 * i + 7) << 7u8)
}

/// The little-endian packing of a drawn bit sequence into a byte buffer
/// sized to hold it.
pub open spec fn pack_spec(bits: Seq<bool>) -> Seq<u8> {
    Seq::new(((bits.len() + 7) / 8) as nat, |i: int| packed_byte(bits, i))
}

fn packed_byte_at(bits: &Vec<bool>, i: usize) -> (b: u8)
    requires
        8 * i <= bits@.len() + 6,
        bits@.len() + 7 <= usize::MAX,
    ensures
        b == packed_byte(bits@, i as int),
{
    let base = 8 * i;
    let b0: u8 = if base < bits.len() && bits[base] {
        1
    } else {
        0
    };
    let b1: u8 = if base + 1 < bits.len() && bits[base + 1] {
        1
    } else {
        0
    };
    let b2: u8 = if base + 2 < bits.len() && bits[base + 2] {
        1
    } else {
        0
    };
    let b3: u8 = if base + 3 < bits.len() && bits[base + 3] {
        1
    } else {
        0
    };
    let b4: u8 = if base + 4 < bits.len() && bits[base + 4] {
        1
    } else {
        0
    };
    let b5: u8 = if base + 5 < bits.len() && bits[base + 5] {
        1
    } else {
        0
    };
    let b6: u8 = if base + 6 < bits.len() && bits[base + 6] {
        1
    } else {
        0
    };
    let b7: u8 = if base + 7 < bits.len() && bits[base + 7] {
        1
    } else {
        0
    };
    b0 | (b1 << 1u8) | (b2 << 2u8) | (b3 << 3u8) | (b4 << 4u8) | (b5 << 5u8) | (b6 << 6u8) | (b7
        << 7u8)
}

/// Packs a drawn bit sequence little-endian into a byte buffer: bit `k`
/// sets bit `k % 8` of byte `k / 8`.
pub fn pack(bits: &Vec<bool>) -> (out: Vec<u8>)
    requires
        bits@.len() + 7 <= usize::MAX,
    ensures
        out@ == pack_spec(bits@),
{
    let n = (bits.len() + 7) / 8;
    let mut out: Vec<u8> = Vec::new();
    let mut i: usize = 0;
    while i < n
        invariant
            n == (bits@.len() + 7) / 8,
            bits@.len() + 7 <= usize::MAX,
            i <= n,
            out@.len() == i,
            forall|x: int| 0 <= x < i ==> out@[x] == packed_byte(bits@, x),
        decreases n - i,
    {
        let b = packed_byte_at(bits, i);
        out.push(b);
        i += 1;
    }
    proof {
        assert(out@ =~= pack_spec(bits@));
    }
    out
}

/// Compares two equally long little-endian byte strings by value.
pub fn lt_bytes(a: &Vec<u8>, b: &Vec<u8>) -> (r: bool)
    requires
        a@.len() == b@.len(),
    ensures
        r == (le_val(a@) < le_val(b@)),
{
    let mut lt: bool = false;
    let mut i: usize = 0;
    while i < a.len()
        invariant
            a@.len() == b@.len(),
            i <= a@.len(),
            lt == (le_val(a@.take(i as int)) < le_val(b@.take(i as int))),
        decreases a@.len() - i,
    {
        let x = a[i];
        let y = b[i];
        proof {
            let ta = a@.take(i as int);
            let tb = b@.take(i as int);
            assert(a@.take(i as int + 1) =~= ta.push(a@[i as int]));
            assert(b@.take(i as int + 1) =~= tb.push(b@[i as int]));
            lemma_le_val_snoc(ta, a@[i as int]);
            lemma_le_val_snoc(tb, b@[i as int]);
            lemma_le_val_bound(ta);
            lemma_le_val_bound(tb);
            let p = pow256(i as nat) as int;
            if x < y {
                lemma_mul_is_distributive_add(p, x as int, 1);
                lemma_mul_inequality(x as int + 1, y as int, p);
                assert(le_val(ta) + p * (x as int) < p * (x as int + 1));
                assert(p * (x as int + 1) == (x as int + 1) * p) by {
                    vstd::arithmetic::mul::lemma_mul_is_commutative(p, x as int + 1);
                }
                assert((y as int) * p == p * (y as int)) by {
                    vstd::arithmetic::mul::lemma_mul_is_commutative(p, y as int);
                }
                assert(le_val(a@.take(i as int + 1)) < le_val(b@.take(i as int + 1)));
            } else if x > y {
                lemma_mul_is_distributive_add(p, y as int, 1);
                lemma_mul_inequality(y as int + 1, x as int, p);
                assert(le_val(tb) + p * (y as int) < p * (y as int + 1));
                assert(p * (y as int + 1) == (y as int + 1) * p) by {
                    vstd::arithmetic::mul::lemma_mul_is_commutative(p, y as int + 1);
                }
                assert((x as int) * p == p * (x as int)) by {
                    vstd::arithmetic::mul::lemma_mul_is_commutative(p, x as int);
                }
                assert(le_val(b@.take(i as int + 1)) < le_val(a@.take(i as int + 1)));
            }
        }
        if x < y {
            lt = true;
        } else if x > y {
            lt = false;
        }
        i += 1;
    }
    proof {
        assert(a@.take(a@.len() as int) =~= a@);
        assert(b@.take(b@.len() as int) =~= b@);
    }
    lt
}

/// Parses a canonical byte buffer as a field element, rejecting any buffer
/// whose value does not lie strictly below the modulus.
pub fn from_repr(f: &Field, bytes: Vec<u8>) -> (r: Option<FieldElement>)
    requires
        bytes@.len() == f.modulus@.len(),
    ensures
        match r {
            Some(e) => {
                &&& from_repr_spec(f, bytes@) == Some(bytes@)
                &&& e.bytes@ == bytes@
                &&& e.wf(f)
            },
            None => from_repr_spec(f, bytes@) is None,
        },
{
    if lt_bytes(&bytes, &f.modulus) {
        Some(FieldElement { bytes })
    } else {
        None
    }
}

/// Sampling validity: a well-formed element re-encoded to its canonical byte
/// buffer parses back to the same element, and its value never falls in the
/// rejection gap.
pub proof fn lemma_repr_round_trip(f: &Field, e: &FieldElement)
    requires
        e.wf(f),
    ensures
        from_repr_spec(f, e.bytes@) == Some(e.bytes@),
        le_val(e.bytes@) < le_val(f.modulus@),
{
}

} // verus!
