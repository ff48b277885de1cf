//! The packed byte buffer and its per-field accessors.
//!
//! A `PackedBuffer` is plain value data: a byte sequence of the length its
//! layout prescribes. All positional knowledge lives in the [`Layout`]
//! consulted by each accessor; the buffer itself knows nothing of field
//! boundaries.

use crate::bits::{
    buf_bit, field_value, lemma_field_value_bound, lemma_field_value_congruence,
    lemma_field_value_zero_iff, lemma_pow2_128, pow2_exec, read_bits, u8_bit, write_bits,
};
use crate::error::{InvalidBitPattern, OutOfBounds};
use crate::layout::Layout;
use vstd::arithmetic::div_mod::{
    lemma_basic_div, lemma_div_denominator, lemma_fundamental_div_mod,
    lemma_fundamental_div_mod_converse,
};
use vstd::arithmetic::mul::{lemma_mul_is_associative, lemma_mul_is_distributive_add};
use vstd::arithmetic::power2::{
    lemma2_to64, lemma_pow2_adds, lemma_pow2_pos, lemma_pow2_strictly_increases, pow2,
};
use vstd::prelude::*;

verus! {

/// A fixed-length byte buffer holding the packed fields of one layout.
#[derive(Clone, Debug)]
pub struct PackedBuffer {
    /// The underlying bytes.
    pub bytes: Vec<u8>,
}

impl View for PackedBuffer {
    type V = Seq<u8>;

    open spec fn view(&self) -> Seq<u8> {
        self.bytes@
    }
}

/// The result a checked read of field `i` must return: the field's raw bits
/// when the codec accepts them, and otherwise the invalid pattern.
pub open spec fn spec_get(l: Layout, b: Seq<u8>, i: int) -> Result<u128, InvalidBitPattern> {
    let raw = field_value(b, l.field_offset(i) as int, l.field_width(i)) as u128;
    if l.fields@[i].codec.accepts(raw) {
        Result::Ok(raw)
    } else {
        Result::Err(InvalidBitPattern { invalid_bits: raw })
    }
}

/// When a checked write of `v` to field `i` succeeds: exactly when the
/// field's codec accepts `v`.
pub open spec fn spec_set_ok(l: Layout, i: int, v: u128) -> bool {
    l.fields@[i].codec.accepts(v)
}

impl PackedBuffer {
    /// The buffer has the byte length its layout prescribes.
    pub open spec fn matches(self, l: Layout) -> bool {
        self@.len() == l.byte_length
    }

    /// A zero-initialized buffer for the given layout: every field reads 0.
    pub fn new(l: &Layout) -> (r: PackedBuffer)
        requires
            l.wf(),
        ensures
            r.matches(*l),
            forall|j: int| 0 <= j < r@.len() * 8 ==> !buf_bit(r@, j),
    {
        let mut bytes: Vec<u8> = Vec::new();
        let mut i: usize = 0;
        while i < l.byte_length
            invariant
                i <= l.byte_length,
                bytes@.len() == i,
                forall|k: int| 0 <= k < i ==> bytes@[k] == 0u8,
            decreases l.byte_length - i,
        {
            bytes.push(0u8);
            i = i + 1;
        }
        proof {
            assert(forall|s: u8| s < 8 ==> !u8_bit(0u8, s)) by (bit_vector);
            assert forall|j: int| 0 <= j < bytes@.len() * 8 implies !buf_bit(bytes@, j) by {
                assert(bytes@[j / 8] == 0u8);
            }
        }
        PackedBuffer { bytes }
    }

    /// Reads field `i` and decodes it: the raw bits when the codec accepts
    /// them, and otherwise `InvalidBitPattern` carrying those bits.
    pub fn get_checked(&self, l: &Layout, i: usize) -> (r: Result<u128, InvalidBitPattern>)
        requires
            l.wf(),
            self.matches(*l),
            i < l.nfields(),
            !l.fields@[i as int].skip_getter,
        ensures
            r == spec_get(*l, self@, i as int),
    {
        proof {
            l.lemma_field_in_bounds(i as int);
            assert(l.fields@[i as int].wf());
        }
        let off: usize = l.offsets[i];
        let w: u64 = l.fields[i].codec.width;
        let raw: u128 = read_bits(&self.bytes, off, w as usize);
        proof {
            lemma_field_value_bound(self@, off as int, w as nat);
        }
        match l.fields[i].codec.valid_count {
            Option::Some(n) => {
                if raw < n {
                    Result::Ok(raw)
                } else {
                    Result::Err(InvalidBitPattern { invalid_bits: raw })
                }
            },
            Option::None => Result::Ok(raw),
        }
    }

    /// Reads field `i`, whose stored pattern must decode; a buffer content
    /// that does not satisfy the field's codec is a contract violation of
    /// the caller, not routine control flow.
    pub fn get(&self, l: &Layout, i: usize) -> (r: u128)
        requires
            l.wf(),
            self.matches(*l),
            i < l.nfields(),
            !l.fields@[i as int].skip_getter,
            spec_get(*l, self@, i as int) is Ok,
        ensures
            Result::<u128, InvalidBitPattern>::Ok(r) == spec_get(*l, self@, i as int),
    {
        match self.get_checked(l, i) {
            Result::Ok(v) => v,
            Result::Err(_) => {
                proof {
                    assert(false);
                }
                0
            },
        }
    }

    /// Writes `v` into field `i` when the field's codec accepts it, leaving
    /// every bit outside the field unchanged; otherwise changes nothing and
    /// reports `OutOfBounds`.
    pub fn set_checked(&mut self, l: &Layout, i: usize, v: u128) -> (r: Result<(), OutOfBounds>)
        requires
            l.wf(),
            old(self).matches(*l),
            i < l.nfields(),
            !l.fields@[i as int].skip_setter,
        ensures
            final(self)@.len() == old(self)@.len(),
            r is Ok <==> spec_set_ok(*l, i as int, v),
            spec_set_ok(*l, i as int, v) ==> {
                &&& field_value(
                    final(self)@,
                    l.field_offset(i as int) as int,
                    l.field_width(i as int),
                ) == v as nat
                &&& forall|t: int|
                    0 <= t < final(self)@.len() * 8 && !(l.field_offset(i as int) <= t
                        < l.field_offset(i as int) + l.field_width(i as int)) ==> buf_bit(
                        final(self)@,
                        t,
                    ) == buf_bit(old(self)@, t)
            },
            !spec_set_ok(*l, i as int, v) ==> final(self)@ == old(self)@,
    {
        proof {
            l.lemma_field_in_bounds(i as int);
            assert(l.fields@[i as int].wf());
        }
        let off: usize = l.offsets[i];
        let w: u64 = l.fields[i].codec.width;
        match l.fields[i].codec.valid_count {
            Option::Some(n) => {
                if v >= n {
                    return Result::Err(OutOfBounds);
                }
            },
            Option::None => {},
        }
        if w < 128 {
            let bound: u128 = pow2_exec(w as usize);
            if v >= bound {
                return Result::Err(OutOfBounds);
            }
        }
        proof {
            if w == 128 {
                lemma_pow2_128();
            }
        }
        write_bits(&mut self.bytes, off, w as usize, v);
        Result::Ok(())
    }

    /// Writes `v` into field `i`; the value must be one the field's codec
    /// accepts — a value the field cannot represent is a contract violation
    /// of the caller.
    pub fn set(&mut self, l: &Layout, i: usize, v: u128)
        requires
            l.wf(),
            old(self).matches(*l),
            i < l.nfields(),
            !l.fields@[i as int].skip_setter,
            spec_set_ok(*l, i as int, v),
        ensures
            final(self)@.len() == old(self)@.len(),
            field_value(final(self)@, l.field_offset(i as int) as int, l.field_width(i as int))
                == v as nat,
            forall|t: int|
                0 <= t < final(self)@.len() * 8 && !(l.field_offset(i as int) <= t
                    < l.field_offset(i as int) + l.field_width(i as int)) ==> buf_bit(
                    final(self)@,
                    t,
                ) == buf_bit(old(self)@, t),
    {
        let r = self.set_checked(l, i, v);
        proof {
            assert(r is Ok);
        }
    }

    /// Copy-then-set: a new buffer with field `i` holding `v` when the
    /// field's codec accepts `v`, and otherwise `OutOfBounds`.
    pub fn with_checked(self, l: &Layout, i: usize, v: u128) -> (r: Result<
        PackedBuffer,
        OutOfBounds,
    >)
        requires
            l.wf(),
            self.matches(*l),
            i < l.nfields(),
            !l.fields@[i as int].skip_setter,
        ensures
            r is Ok <==> spec_set_ok(*l, i as int, v),
            r matches Ok(b) ==> {
                &&& b@.len() == self@.len()
                &&& field_value(b@, l.field_offset(i as int) as int, l.field_width(i as int))
                    == v as nat
                &&& forall|t: int|
                    0 <= t < b@.len() * 8 && !(l.field_offset(i as int) <= t < l.field_offset(
                        i as int,
                    ) + l.field_width(i as int)) ==> buf_bit(b@, t) == buf_bit(self@, t)
            },
    {
        let mut b = self;
        match b.set_checked(l, i, v) {
            Result::Ok(()) => Result::Ok(b),
            Result::Err(e) => Result::Err(e),
        }
    }

    /// Copy-then-set with a value the field's codec must accept.
    pub fn with(self, l: &Layout, i: usize, v: u128) -> (r: PackedBuffer)
        requires
            l.wf(),
            self.matches(*l),
            i < l.nfields(),
            !l.fields@[i as int].skip_setter,
            spec_set_ok(*l, i as int, v),
        ensures
            r@.len() == self@.len(),
            field_value(r@, l.field_offset(i as int) as int, l.field_width(i as int)) == v as nat,
            forall|t: int|
                0 <= t < r@.len() * 8 && !(l.field_offset(i as int) <= t < l.field_offset(i as int)
                    + l.field_width(i as int)) ==> buf_bit(r@, t) == buf_bit(self@, t),
    {
        let mut b = self;
        b.set(l, i, v);
        b
    }

    /// The underlying bytes.
    pub fn into_bytes(self) -> (r: Vec<u8>)
        ensures
            r@ == self@,
    {
        self.bytes
    }

    /// Adopts an externally supplied byte sequence. Accepted exactly when
    /// every bit above the layout's total width is clear; for a filled
    /// layout (total width a byte multiple) there are no such bits and any
    /// byte pattern is accepted.
    pub fn from_bytes(l: &Layout, bytes: Vec<u8>) -> (r: Result<PackedBuffer, OutOfBounds>)
        requires
            l.wf(),
            bytes@.len() == l.byte_length,
        ensures
            r is Ok <==> (forall|j: int|
                l.total_bits <= j < 8 * l.byte_length ==> !buf_bit(bytes@, j)),
            r matches Ok(b) ==> b@ == bytes@,
    {
        proof {
            assert(8 * l.byte_length <= l.total_bits + 7);
        }
        let cap: usize = 8 * l.byte_length;
        let extra: usize = cap - l.total_bits;
        if extra == 0 {
            return Result::Ok(PackedBuffer { bytes });
        }
        let tail: u128 = read_bits(&bytes, l.total_bits, extra);
        proof {
            lemma_field_value_zero_iff(bytes@, l.total_bits as int, extra as nat);
        }
        if tail == 0 {
            Result::Ok(PackedBuffer { bytes })
        } else {
            Result::Err(OutOfBounds)
        }
    }

    /// The whole buffer read as one little-endian unsigned integer, for a
    /// layout validated against a primitive representation.
    pub fn into_primitive(&self, l: &Layout) -> (r: u128)
        requires
            l.wf(),
            self.matches(*l),
            l.primitive_repr is Some,
        ensures
            r as nat == le_value(self@),
    {
        proof {
            l.lemma_repr_exact();
        }
        let len: usize = self.bytes.len();
        let mut acc: u128 = 0;
        let mut i: usize = len;
        while i > 0
            invariant
                i <= len,
                len <= 16,
                len == self@.len(),
                acc as nat == le_value(self@.subrange(i as int, len as int)),
            decreases i,
        {
            i = i - 1;
            proof {
                assert(self@.subrange(i as int, len as int).drop_first() =~= self@.subrange(
                    i as int + 1,
                    len as int,
                ));
                lemma_le_value_bound(self@.subrange(i as int + 1, len as int));
                lemma_pow2_adds(8, (8 * (len - i - 1)) as nat);
                lemma2_to64();
                if 8 * (len - i) < 128 {
                    lemma_pow2_strictly_increases((8 * (len - i)) as nat, 128);
                }
                lemma_pow2_128();
            }
            acc = acc * 256 + (self.bytes[i] as u128);
        }
        proof {
            assert(self@.subrange(0, len as int) =~= self@);
        }
        acc
    }

    /// A packed buffer holding the little-endian bytes of `x`, for a layout
    /// validated against a primitive representation; `x` must be a value of
    /// that primitive.
    pub fn from_primitive(l: &Layout, x: u128) -> (r: PackedBuffer)
        requires
            l.wf(),
            l.primitive_repr is Some,
            (x as nat) < pow2(l.total_bits as nat),
        ensures
            r.matches(*l),
            le_value(r@) == x as nat,
    {
        proof {
            l.lemma_repr_exact();
            lemma2_to64();
        }
        let mut bytes: Vec<u8> = Vec::new();
        let mut cur: u128 = x;
        let mut k: usize = 0;
        while k < l.byte_length
            invariant
                k <= l.byte_length,
                l.byte_length <= 16,
                bytes@.len() == k,
                cur as nat == (x as nat) / pow2((8 * k) as nat),
                le_value(bytes@) + pow2((8 * k) as nat) * (cur as nat) == x as nat,
            decreases l.byte_length - k,
        {
            let b: u8 = (cur % 256) as u8;
            proof {
                lemma_le_value_push(bytes@, b);
                lemma_pow2_pos((8 * k) as nat);
                lemma_pow2_adds((8 * k) as nat, 8);
                lemma2_to64();
                lemma_div_denominator(x as int, pow2((8 * k) as nat) as int, 256);
                lemma_fundamental_div_mod(cur as int, 256);
                lemma_mul_is_associative(
                    pow2((8 * k) as nat) as int,
                    256,
                    ((cur as nat) / 256) as int,
                );
                lemma_mul_is_distributive_add(
                    pow2((8 * k) as nat) as int,
                    b as int,
                    256 * (((cur as nat) / 256) as int),
                );
            }
            bytes.push(b);
            cur = cur / 256;
            k = k + 1;
        }
        proof {
            assert(bytes@.len() == l.byte_length);
            lemma_pow2_pos((8 * l.byte_length) as nat);
            assert((8 * l.byte_length) as nat == l.total_bits as nat);
            lemma_basic_div(x as int, pow2((8 * l.byte_length) as nat) as int);
            assert(cur as nat == 0);
            assert(le_value(bytes@) == x as nat);
        }
        PackedBuffer { bytes }
    }

    /// One entry per field, in order: `Some` of the checked read where the
    /// field exposes a getter and its stored pattern decodes, and `None` —
    /// the diagnostic placeholder of a renderer — where the getter is
    /// suppressed or the pattern is invalid.
    pub fn snapshot(&self, l: &Layout) -> (r: Vec<Option<u128>>)
        requires
            l.wf(),
            self.matches(*l),
        ensures
            r@.len() == l.nfields(),
            forall|i: int| 0 <= i < l.nfields() ==> r@[i] == spec_rendered(*l, self@, i),
    {
        let n: usize = self.bytes.len();
        let nf: usize = l.fields.len();
        let mut out: Vec<Option<u128>> = Vec::new();
        let mut i: usize = 0;
        while i < nf
            invariant
                i <= nf,
                nf == l.nfields(),
                l.wf(),
                self.matches(*l),
                out@.len() == i,
                forall|k: int| 0 <= k < i ==> out@[k] == spec_rendered(*l, self@, k),
            decreases nf - i,
        {
            if l.fields[i].skip_getter {
                out.push(Option::None);
            } else {
                match self.get_checked(l, i) {
                    Result::Ok(v) => out.push(Option::Some(v)),
                    Result::Err(_) => out.push(Option::None),
                }
            }
            i = i + 1;
        }
        out
    }
}

/// What a renderer shows for field `i`: the decoded raw bits, or `None` for
/// a suppressed getter or an invalid stored pattern.
pub open spec fn spec_rendered(l: Layout, b: Seq<u8>, i: int) -> Option<u128> {
    if l.fields@[i].skip_getter {
        Option::None
    } else {
        match spec_get(l, b, i) {
            Result::Ok(v) => Option::Some(v),
            Result::Err(_) => Option::None,
        }
    }
}

/// The whole buffer as one little-endian unsigned integer: byte 0 is the
/// least significant.
pub open spec fn le_value(b: Seq<u8>) -> nat
    decreases b.len(),
{
    if b.len() == 0 {
        0
    } else {
        b[0] as nat + 256 * le_value(b.drop_first())
    }
}

/// A buffer of `n` bytes holds a value below `2^(8n)`.
pub proof fn lemma_le_value_bound(b: Seq<u8>)
    ensures
        le_value(b) < pow2(8 * b.len()),
    decreases b.len(),
{
    lemma2_to64();
    if b.len() > 0 {
        lemma_le_value_bound(b.drop_first());
        lemma_pow2_adds(8, 8 * (b.len() - 1) as nat);
    }
}

/// Appending a byte adds it at the most significant position.
pub proof fn lemma_le_value_push(b: Seq<u8>, v: u8)
    ensures
        le_value(b.push(v)) == le_value(b) + pow2(8 * b.len()) * v,
    decreases b.len(),
{
    lemma2_to64();
    if b.len() == 0 {
        assert(b.push(v).drop_first() =~= Seq::<u8>::empty());
        assert(b.push(v)[0] == v);
        assert(le_value(b.push(v)) == v as nat + 256 * le_value(b.push(v).drop_first()));
        assert(le_value(b.push(v).drop_first()) == 0);
        assert(pow2(8 * b.len()) == 1);
        assert(le_value(b.push(v)) == le_value(b) + pow2(8 * b.len()) * v);
    } else {
        let p = pow2(8 * (b.len() - 1) as nat);
        assert(b.push(v).drop_first() =~= b.drop_first().push(v));
        assert(b.push(v)[0] == b[0]);
        lemma_le_value_push(b.drop_first(), v);
        lemma_pow2_adds(8, 8 * (b.len() - 1) as nat);
        assert(pow2(8 * b.len()) == 256 * p);
        lemma_mul_is_associative(256, p as int, v as int);
        assert(le_value(b.push(v)) == b[0] as nat + 256 * (le_value(b.drop_first()) + p * v));
        assert(256 * (le_value(b.drop_first()) + p * v) == 256 * le_value(b.drop_first()) + 256 * (
        p * v));
        assert(256 * (p * v) == (256 * p) * v);
        assert(le_value(b) == b[0] as nat + 256 * le_value(b.drop_first()));
        assert(le_value(b.push(v)) == le_value(b) + (256 * p) * v);
        assert(le_value(b.push(v)) == le_value(b) + pow2(8 * b.len()) * v);
    }
}

/// Law — primitive round trip. The little-endian value determines the
/// bytes: two buffers of one length holding the same value are equal.
/// Together with the contracts of `from_primitive` (its result holds
/// `le_value == x`) and `into_primitive` (it returns `le_value`), this
/// gives both directions: a buffer built from `x` reads back as exactly
/// `x`, and rebuilding a buffer from what it reads returns the same bytes.
pub proof fn lemma_le_value_injective(b1: Seq<u8>, b2: Seq<u8>)
    requires
        b1.len() == b2.len(),
        le_value(b1) == le_value(b2),
    ensures
        b1 == b2,
    decreases b1.len(),
{
    if b1.len() == 0 {
        assert(b1 =~= b2);
    } else {
        let x = le_value(b1) as int;
        lemma_fundamental_div_mod_converse(
            x,
            256,
            le_value(b1.drop_first()) as int,
            b1[0] as int,
        );
        lemma_fundamental_div_mod_converse(
            x,
            256,
            le_value(b2.drop_first()) as int,
            b2[0] as int,
        );
        lemma_le_value_injective(b1.drop_first(), b2.drop_first());
        assert forall|j: int| 0 <= j < b1.len() implies b1[j] == b2[j] by {
            if j > 0 {
                assert(b1[j] == b1.drop_first()[j - 1]);
                assert(b2[j] == b2.drop_first()[j - 1]);
            }
        }
        assert(b1 =~= b2);
    }
}

/// A buffer with every bit clear — as `PackedBuffer::new` returns — reads
/// zero in every field.
pub proof fn lemma_zero_buffer_reads_zero(l: Layout, b: Seq<u8>)
    requires
        l.wf(),
        b.len() == l.byte_length,
        forall|j: int| 0 <= j < b.len() * 8 ==> !buf_bit(b, j),
    ensures
        forall|k: int|
            0 <= k < l.nfields() ==> field_value(b, l.field_offset(k) as int, l.field_width(k))
                == 0,
{
    assert forall|k: int|
        0 <= k < l.nfields() implies field_value(b, l.field_offset(k) as int, l.field_width(k))
        == 0 by {
        l.lemma_field_in_bounds(k);
        lemma_field_value_zero_iff(b, l.field_offset(k) as int, l.field_width(k));
    }
}

/// Law — write/read round trip. After a successful checked write of `v` to
/// field `i` — a buffer `after` related to `before` exactly as
/// `set_checked`'s contract states — the checked read of field `i` returns
/// `Ok(v)`, and every other field holds precisely the value it held in
/// `before`.
pub proof fn lemma_set_then_get(l: Layout, before: Seq<u8>, after: Seq<u8>, i: int, v: u128)
    requires
        l.wf(),
        0 <= i < l.nfields(),
        before.len() == l.byte_length,
        after.len() == before.len(),
        spec_set_ok(l, i, v),
        field_value(after, l.field_offset(i) as int, l.field_width(i)) == v as nat,
        forall|t: int|
            0 <= t < after.len() * 8 && !(l.field_offset(i) <= t < l.field_offset(i)
                + l.field_width(i)) ==> buf_bit(after, t) == buf_bit(before, t),
    ensures
        spec_get(l, after, i) == Result::<u128, InvalidBitPattern>::Ok(v),
        forall|k: int|
            0 <= k < l.nfields() && k != i ==> spec_get(l, after, k) == spec_get(l, before, k),
{
    assert forall|k: int| 0 <= k < l.nfields() && k != i implies spec_get(l, after, k) == spec_get(
        l,
        before,
        k,
    ) by {
        l.lemma_field_in_bounds(k);
        l.lemma_field_in_bounds(i);
        if k < i {
            l.lemma_fields_disjoint(k, i);
        } else {
            l.lemma_fields_disjoint(i, k);
        }
        assert forall|t: int|
            l.field_offset(k) <= t < l.field_offset(k) + l.field_width(k) implies buf_bit(
            after,
            t,
        ) == buf_bit(before, t) by {
            assert(t < after.len() * 8);
            assert(!(l.field_offset(i) <= t < l.field_offset(i) + l.field_width(i)));
        }
        lemma_field_value_congruence(after, before, l.field_offset(k) as int, l.field_width(k));
    }
}

} // verus!
