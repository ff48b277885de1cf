//! The bit-level model of a byte buffer and the read/write primitive.
//!
//! Bit numbering convention: bit 0 is the least significant bit of byte 0,
//! numbering increases through each byte from least to most significant and
//! then continues into the next byte. A field occupies a contiguous range of
//! bit positions `[off, off + w)`; the bit at `off` holds the *most*
//! significant bit of the field's value.

use vstd::arithmetic::div_mod::{lemma_div_denominator, lemma_fundamental_div_mod};
use vstd::arithmetic::power2::{
    lemma2_to64, lemma_pow2_adds, lemma_pow2_pos, lemma_pow2_strictly_increases,
    lemma_pow2_unfold, pow2,
};
use vstd::prelude::*;

verus! {

/// True when bit `i` (counting from the least significant end) of `b` is set.
pub open spec fn u8_bit(b: u8, i: u8) -> bool {
    (b >> i) & 1u8 == 1u8
}

/// Bit `j` of a byte buffer under the fixed numbering convention.
pub open spec fn buf_bit(b: Seq<u8>, j: int) -> bool
    recommends
        0 <= j < b.len() * 8,
{
    u8_bit(b[j / 8], (j % 8) as u8)
}

/// The unsigned value of the `w` bits starting at bit offset `off`; the bit
/// at `off` is the value's most significant bit.
pub open spec fn field_value(b: Seq<u8>, off: int, w: nat) -> nat
    recommends
        0 <= off,
        off + w <= b.len() * 8,
    decreases w,
{
    if w == 0 {
        0
    } else {
        2 * field_value(b, off, (w - 1) as nat) + (if buf_bit(b, off + w - 1) {
            1nat
        } else {
            0nat
        })
    }
}

/// Bit `k` (counting from the least significant end) of the unsigned value `v`.
pub open spec fn nat_bit(v: nat, k: nat) -> bool {
    v / pow2(k) % 2 == 1
}

/// The value of the bits `2^128`: one above the largest `u128`.
pub proof fn lemma_pow2_128()
    ensures
        pow2(128) == 0x1_0000_0000_0000_0000_0000_0000_0000_0000,
{
    lemma_pow2_adds(64, 64);
    lemma2_to64();
}

/// `2^k` stays within `u128` range for `k` up to 127.
proof fn lemma_pow2_le_u128_max(k: nat)
    requires
        k <= 127,
    ensures
        2 * pow2(k) <= 0x1_0000_0000_0000_0000_0000_0000_0000_0000,
{
    lemma_pow2_128();
    lemma_pow2_unfold(128);
    if k < 127 {
        lemma_pow2_strictly_increases(k, 127);
    }
}

/// A field of width `w` holds a value below `2^w`.
pub proof fn lemma_field_value_bound(b: Seq<u8>, off: int, w: nat)
    ensures
        field_value(b, off, w) < pow2(w),
    decreases w,
{
    if w == 0 {
        lemma2_to64();
    } else {
        lemma_field_value_bound(b, off, (w - 1) as nat);
        lemma_pow2_unfold(w);
    }
}

/// Two buffers that agree on the bits of a field agree on its value.
pub proof fn lemma_field_value_congruence(b1: Seq<u8>, b2: Seq<u8>, off: int, w: nat)
    requires
        forall|j: int| off <= j < off + w ==> buf_bit(b1, j) == buf_bit(b2, j),
    ensures
        field_value(b1, off, w) == field_value(b2, off, w),
    decreases w,
{
    if w > 0 {
        lemma_field_value_congruence(b1, b2, off, (w - 1) as nat);
    }
}

/// A field reads as zero exactly when each of its bits is clear.
pub proof fn lemma_field_value_zero_iff(b: Seq<u8>, off: int, w: nat)
    ensures
        (field_value(b, off, w) == 0) <==> (forall|j: int| off <= j < off + w ==> !buf_bit(b, j)),
    decreases w,
{
    if w > 0 {
        lemma_field_value_zero_iff(b, off, (w - 1) as nat);
    }
}

/// A field whose bit at `off + j` equals bit `w - 1 - j` of `v`, for every
/// `j` below `w`, holds exactly the value `v`.
pub proof fn lemma_field_value_of_bits(b: Seq<u8>, off: int, w: nat, v: nat)
    requires
        v < pow2(w),
        forall|j: int| off <= j < off + w ==> buf_bit(b, j) == nat_bit(v, (off + w - 1 - j) as nat),
    ensures
        field_value(b, off, w) == v,
    decreases w,
{
    lemma2_to64();
    if w == 0 {
    } else {
        let v2 = v / 2;
        lemma_pow2_unfold(w);
        assert forall|j: int| off <= j < off + (w - 1) implies buf_bit(b, j) == nat_bit(
            v2,
            (off + (w - 1) - 1 - j) as nat,
        ) by {
            let k = (off + w - 1 - j) as nat;
            assert(buf_bit(b, j) == nat_bit(v, k));
            lemma_pow2_pos((k - 1) as nat);
            lemma_pow2_unfold(k);
            lemma_div_denominator(v as int, 2, pow2((k - 1) as nat) as int);
            assert(v / pow2(k) == v2 / pow2((k - 1) as nat));
        }
        lemma_field_value_of_bits(b, off, (w - 1) as nat, v2);
        assert(buf_bit(b, off + w - 1) == nat_bit(v, 0));
        assert(v / pow2(0) == v) by {
            assert(pow2(0) == 1);
        }
        lemma_fundamental_div_mod(v as int, 2);
    }
}

/// Reads the bit at position `j` of the buffer.
fn get_bit(bytes: &Vec<u8>, j: usize) -> (r: bool)
    requires
        j < bytes.len() * 8,
    ensures
        r == buf_bit(bytes@, j as int),
{
    let idx: usize = j / 8;
    let s: u8 = (j % 8) as u8;
    ((bytes[idx] >> s) & 1u8) == 1u8
}

/// Sets the bit at position `j` of the buffer, leaving every other bit
/// unchanged.
fn set_bit(bytes: &mut Vec<u8>, j: usize, val: bool)
    requires
        j < old(bytes).len() * 8,
    ensures
        final(bytes)@.len() == old(bytes)@.len(),
        forall|t: int|
            0 <= t < final(bytes)@.len() * 8 ==> buf_bit(final(bytes)@, t) == (if t == j as int {
                val
            } else {
                buf_bit(old(bytes)@, t)
            }),
{
    let idx: usize = j / 8;
    let s: u8 = (j % 8) as u8;
    let prev: u8 = bytes[idx];
    let next: u8 = if val {
        prev | (1u8 << s)
    } else {
        prev & !(1u8 << s)
    };
    bytes.set(idx, next);
    proof {
        assert forall|t: int| 0 <= t < bytes@.len() * 8 implies buf_bit(bytes@, t) == (if t
            == j as int {
            val
        } else {
            buf_bit(old(bytes)@, t)
        }) by {
            if t / 8 == idx as int {
                let ts = (t % 8) as u8;
                if val {
                    assert(u8_bit(prev | (1u8 << s), ts) == (ts == s || u8_bit(prev, ts)))
                        by (bit_vector)
                        requires
                            s < 8,
                            ts < 8,
                    ;
                } else {
                    assert(u8_bit(prev & !(1u8 << s), ts) == (ts != s && u8_bit(prev, ts)))
                        by (bit_vector)
                        requires
                            s < 8,
                            ts < 8,
                    ;
                }
            }
        }
    }
}

/// Reads the `w`-bit unsigned value stored at bit offset `off`.
pub fn read_bits(bytes: &Vec<u8>, off: usize, w: usize) -> (r: u128)
    requires
        w <= 128,
        off + w <= usize::MAX,
        off + w <= bytes.len() * 8,
    ensures
        r as nat == field_value(bytes@, off as int, w as nat),
{
    let mut r: u128 = 0;
    let mut k: usize = 0;
    while k < w
        invariant
            k <= w,
            w <= 128,
            off + w <= usize::MAX,
            off + w <= bytes.len() * 8,
            r as nat == field_value(bytes@, off as int, k as nat),
        decreases w - k,
    {
        proof {
            lemma_field_value_bound(bytes@, off as int, k as nat);
            lemma_pow2_le_u128_max(k as nat);
            lemma_pow2_128();
        }
        let b = get_bit(bytes, off + k);
        r = 2 * r + (if b {
            1u128
        } else {
            0u128
        });
        k = k + 1;
    }
    r
}

/// Writes the `w`-bit unsigned value `v` at bit offset `off`, leaving every
/// bit outside `[off, off + w)` unchanged. The bit at `off` receives the
/// value's most significant bit.
pub fn write_bits(bytes: &mut Vec<u8>, off: usize, w: usize, v: u128)
    requires
        w <= 128,
        off + w <= usize::MAX,
        off + w <= old(bytes).len() * 8,
        (v as nat) < pow2(w as nat),
    ensures
        final(bytes)@.len() == old(bytes)@.len(),
        forall|t: int|
            0 <= t < final(bytes)@.len() * 8 && !(off <= t < off + w) ==> buf_bit(final(bytes)@, t)
                == buf_bit(old(bytes)@, t),
        field_value(final(bytes)@, off as int, w as nat) == v as nat,
{
    proof {
        lemma2_to64();
    }
    // Bits of `v`, least significant first.
    let mut low_bits: Vec<bool> = Vec::new();
    let mut x: u128 = v;
    let mut k: usize = 0;
    while k < w
        invariant
            k <= w,
            w <= 128,
            low_bits@.len() == k,
            x as nat == (v as nat) / pow2(k as nat),
            forall|i: int| 0 <= i < k ==> low_bits@[i] == nat_bit(v as nat, i as nat),
        decreases w - k,
    {
        low_bits.push(x % 2 == 1);
        proof {
            lemma_pow2_pos(k as nat);
            lemma_pow2_unfold((k + 1) as nat);
            lemma_div_denominator(v as int, pow2(k as nat) as int, 2);
        }
        x = x / 2;
        k = k + 1;
    }
    let mut t: usize = 0;
    while t < w
        invariant
            t <= w,
            w <= 128,
            off + w <= usize::MAX,
            low_bits@.len() == w,
            off + w <= bytes@.len() * 8,
            bytes@.len() == old(bytes)@.len(),
            forall|i: int| 0 <= i < w ==> low_bits@[i] == nat_bit(v as nat, i as nat),
            forall|j: int|
                0 <= j < bytes@.len() * 8 && !(off <= j < off + t) ==> buf_bit(bytes@, j)
                    == buf_bit(old(bytes)@, j),
            forall|j: int|
                off <= j < off + t ==> buf_bit(bytes@, j) == nat_bit(
                    v as nat,
                    (off + w - 1 - j) as nat,
                ),
        decreases w - t,
    {
        set_bit(bytes, off + t, low_bits[w - 1 - t]);
        t = t + 1;
    }
    proof {
        lemma_field_value_of_bits(bytes@, off as int, w as nat, v as nat);
    }
}

/// `2^k` as a machine value.
pub fn pow2_exec(k: usize) -> (r: u128)
    requires
        k <= 127,
    ensures
        r as nat == pow2(k as nat),
{
    proof {
        lemma2_to64();
    }
    let mut r: u128 = 1;
    let mut i: usize = 0;
    while i < k
        invariant
            i <= k,
            k <= 127,
            r as nat == pow2(i as nat),
        decreases k - i,
    {
        proof {
            lemma_pow2_unfold((i + 1) as nat);
            lemma_pow2_strictly_increases((i + 1) as nat, 128);
            lemma_pow2_128();
        }
        r = r * 2;
        i = i + 1;
    }
    r
}

} // verus!
