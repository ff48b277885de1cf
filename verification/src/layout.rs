//! Field schemas, layout arithmetic and construction-time validation.
//!
//! An ordered list of field specifications determines the layout: the field
//! at index `i` occupies the bits `[offset_of(i), offset_of(i) + width)`
//! where its offset is the sum of the widths of the fields before it. A
//! layout is built once by [`Layout::new`], which runs every structural
//! check and reports the aggregate of all violations, never only the first.

use crate::error::LayoutError;
use vstd::arithmetic::power2::pow2;
use vstd::prelude::*;

verus! {

/// How raw `width`-bit patterns of one field map to values: when
/// `valid_count` is `Some(n)`, exactly the patterns below `n` are valid
/// (an enumerated codec with gaps); when it is `None`, every pattern of
/// `width` bits is valid.
#[derive(Clone, Copy, Debug, PartialEq, Eq)]
pub struct Codec {
    /// Number of bits of the raw pattern, between 1 and 128.
    pub width: u64,
    /// When `Some(n)`: exactly the raw patterns below `n` are valid.
    pub valid_count: Option<u128>,
}

impl Codec {
    /// The width fits the largest raw value and every valid pattern fits
    /// the width.
    pub open spec fn wf(self) -> bool {
        &&& 1 <= self.width <= 128
        &&& match self.valid_count {
            Option::Some(n) => n as nat <= pow2(self.width as nat),
            Option::None => true,
        }
    }

    /// The raw patterns this codec converts to and from values.
    pub open spec fn accepts(self, raw: u128) -> bool {
        &&& (raw as nat) < pow2(self.width as nat)
        &&& match self.valid_count {
            Option::Some(n) => raw < n,
            Option::None => true,
        }
    }
}

/// One packed field: its codec, an optional redundant width declaration
/// (checked against the codec), and the flags that suppress its accessors.
#[derive(Clone, Copy, Debug, PartialEq, Eq)]
pub struct FieldSpec {
    /// How raw bit patterns of this field map to values.
    pub codec: Codec,
    /// Optional width declaration, validated against `codec.width`.
    pub declared_width: Option<u64>,
    /// Suppress the read accessors of this field.
    pub skip_getter: bool,
    /// Suppress the write accessors of this field.
    pub skip_setter: bool,
}

impl FieldSpec {
    /// The field's bit width.
    pub open spec fn width(self) -> nat {
        self.codec.width as nat
    }

    pub open spec fn wf(self) -> bool {
        self.codec.wf()
    }
}

/// The struct-level constraint on the total bit width.
#[derive(Clone, Copy, Debug, PartialEq, Eq, Structural)]
pub enum FilledPolicy {
    /// The total width must be a multiple of 8: no unused trailing bits.
    MustBeByteMultiple,
    /// The total width must not be a multiple of 8.
    MustNotBeByteMultiple,
    /// No constraint on the total width.
    Unconstrained,
}

/// The bit width of a standard unsigned integer type, for whole-buffer
/// conversions to and from that primitive.
#[derive(Clone, Copy, Debug, PartialEq, Eq, Structural)]
pub enum ReprWidth {
    U8,
    U16,
    U32,
    U64,
    U128,
}

impl ReprWidth {
    /// The number of bits of the primitive.
    pub open spec fn bits(self) -> u64 {
        match self {
            ReprWidth::U8 => 8,
            ReprWidth::U16 => 16,
            ReprWidth::U32 => 32,
            ReprWidth::U64 => 64,
            ReprWidth::U128 => 128,
        }
    }

    /// The number of bits of the primitive.
    pub fn bit_count(&self) -> (r: u64)
        ensures
            r == self.bits(),
    {
        match self {
            ReprWidth::U8 => 8,
            ReprWidth::U16 => 16,
            ReprWidth::U32 => 32,
            ReprWidth::U64 => 64,
            ReprWidth::U128 => 128,
        }
    }
}

/// The sum of all field widths.
pub open spec fn total_bits_of(fields: Seq<FieldSpec>) -> nat
    decreases fields.len(),
{
    if fields.len() == 0 {
        0
    } else {
        total_bits_of(fields.drop_last()) + fields.last().width()
    }
}

/// The bit offset of field `i`: the sum of the widths of the fields before it.
pub open spec fn offset_of(fields: Seq<FieldSpec>, i: int) -> nat
    recommends
        0 <= i <= fields.len(),
{
    total_bits_of(fields.take(i))
}

/// Bytes needed to store `total_bits` bits.
pub open spec fn byte_len_of(total_bits: nat) -> nat {
    (total_bits + 7) / 8
}

/// Extending a prefix by one field adds that field's width to the prefix sum.
pub proof fn lemma_total_bits_take_step(fields: Seq<FieldSpec>, i: int)
    requires
        0 <= i < fields.len(),
    ensures
        total_bits_of(fields.take(i + 1)) == total_bits_of(fields.take(i)) + fields[i].width(),
{
    assert(fields.take(i + 1).drop_last() =~= fields.take(i));
    assert(fields.take(i + 1).last() == fields[i]);
}

/// A prefix sum of widths never exceeds the total.
pub proof fn lemma_total_bits_prefix_le(fields: Seq<FieldSpec>, i: int)
    requires
        0 <= i <= fields.len(),
    ensures
        total_bits_of(fields.take(i)) <= total_bits_of(fields),
    decreases fields.len() - i,
{
    if i == fields.len() {
        assert(fields.take(i) =~= fields);
    } else {
        lemma_total_bits_take_step(fields, i);
        lemma_total_bits_prefix_le(fields, i + 1);
    }
}

/// Offsets grow with the field index.
pub proof fn lemma_offset_monotonic(fields: Seq<FieldSpec>, a: int, b: int)
    requires
        0 <= a <= b <= fields.len(),
    ensures
        offset_of(fields, a) <= offset_of(fields, b),
    decreases b - a,
{
    if a < b {
        lemma_total_bits_take_step(fields, a);
        lemma_offset_monotonic(fields, a + 1, b);
    }
}

/// A field's bits end at or before the next field's offset, and within the
/// total width.
pub proof fn lemma_field_span(fields: Seq<FieldSpec>, i: int)
    requires
        0 <= i < fields.len(),
    ensures
        offset_of(fields, i) + fields[i].width() == offset_of(fields, i + 1),
        offset_of(fields, i) + fields[i].width() <= total_bits_of(fields),
    decreases fields.len() - i,
{
    lemma_total_bits_take_step(fields, i);
    lemma_total_bits_prefix_le(fields, i + 1);
}

/// The violation (at most one) of a field's declared width against its codec.
pub open spec fn field_width_violation(f: FieldSpec, i: int) -> Seq<LayoutError> {
    match f.declared_width {
        Option::Some(d) => if d == f.codec.width {
            Seq::empty()
        } else {
            seq![
                LayoutError::DeclaredWidthMismatch {
                    field: i as usize,
                    declared: d,
                    actual: f.codec.width,
                },
            ]
        },
        Option::None => Seq::empty(),
    }
}

/// Every declared-width violation, in field order.
pub open spec fn width_violations(fields: Seq<FieldSpec>) -> Seq<LayoutError>
    decreases fields.len(),
{
    if fields.len() == 0 {
        Seq::empty()
    } else {
        width_violations(fields.drop_last()) + field_width_violation(
            fields.last(),
            fields.len() - 1,
        )
    }
}

/// Checking one more field appends exactly its violation, if any.
pub proof fn lemma_width_violations_take_step(fields: Seq<FieldSpec>, i: int)
    requires
        0 <= i < fields.len(),
    ensures
        width_violations(fields.take(i + 1)) == width_violations(fields.take(i))
            + field_width_violation(fields[i], i),
{
    assert(fields.take(i + 1).drop_last() =~= fields.take(i));
    assert(fields.take(i + 1).last() == fields[i]);
}

/// The violation (at most one) of the filled policy.
pub open spec fn filled_violation(policy: FilledPolicy, total_bits: nat) -> Seq<LayoutError> {
    match policy {
        FilledPolicy::MustBeByteMultiple => if total_bits % 8 == 0 {
            Seq::empty()
        } else {
            seq![LayoutError::NotByteMultiple { total_bits: total_bits as usize }]
        },
        FilledPolicy::MustNotBeByteMultiple => if total_bits % 8 != 0 {
            Seq::empty()
        } else {
            seq![LayoutError::ByteMultiple { total_bits: total_bits as usize }]
        },
        FilledPolicy::Unconstrained => Seq::empty(),
    }
}

/// The violation (at most one) of the explicit byte-count assertion.
pub open spec fn byte_count_violation(expected: Option<usize>, total_bits: nat) -> Seq<
    LayoutError,
> {
    match expected {
        Option::Some(n) => if n as nat == byte_len_of(total_bits) {
            Seq::empty()
        } else {
            seq![
                LayoutError::ByteCountMismatch {
                    expected: n,
                    computed: byte_len_of(total_bits) as usize,
                },
            ]
        },
        Option::None => Seq::empty(),
    }
}

/// The violation (at most one) of the primitive-representation constraint.
pub open spec fn repr_violation(repr: Option<ReprWidth>, total_bits: nat) -> Seq<LayoutError> {
    match repr {
        Option::Some(rw) => if total_bits == rw.bits() as nat {
            Seq::empty()
        } else {
            seq![
                LayoutError::ReprMismatch { repr_bits: rw.bits(), total_bits: total_bits as usize },
            ]
        },
        Option::None => Seq::empty(),
    }
}

/// Every violation a schema has, in checking order: the declared widths in
/// field order, then the filled policy, the byte-count assertion, and the
/// primitive representation.
pub open spec fn layout_violations(
    fields: Seq<FieldSpec>,
    policy: FilledPolicy,
    explicit_byte_count: Option<usize>,
    repr: Option<ReprWidth>,
) -> Seq<LayoutError> {
    width_violations(fields) + filled_violation(policy, total_bits_of(fields))
        + byte_count_violation(explicit_byte_count, total_bits_of(fields)) + repr_violation(
        repr,
        total_bits_of(fields),
    )
}

/// The validated, immutable result of running the layout arithmetic over a
/// field schema: per-field offsets, the total bit width and the byte length,
/// together with the struct-level constraints it was checked against.
/// Built once by [`Layout::new`] and never mutated.
#[derive(Clone, Debug)]
pub struct Layout {
    /// The fields, in bit order: the first field occupies the lowest bits.
    pub fields: Vec<FieldSpec>,
    /// The cached bit offset of each field, consistent with `fields`.
    pub offsets: Vec<usize>,
    /// The sum of all field widths.
    pub total_bits: usize,
    /// `total_bits` rounded up to whole bytes.
    pub byte_length: usize,
    /// The constraint on `total_bits` against byte multiples.
    pub filled_policy: FilledPolicy,
    /// Optional assertion on the byte length.
    pub explicit_byte_count: Option<usize>,
    /// Optional primitive type the whole buffer converts to and from.
    pub primitive_repr: Option<ReprWidth>,
}

impl Layout {
    /// A validated layout: well-formed fields, consistent derived sizes and
    /// offsets, and not one structural violation.
    pub open spec fn wf(self) -> bool {
        &&& forall|i: int| 0 <= i < self.fields@.len() ==> (#[trigger] self.fields@[i]).wf()
        &&& self.total_bits + 7 <= usize::MAX
        &&& self.total_bits as nat == total_bits_of(self.fields@)
        &&& self.byte_length as nat == byte_len_of(self.total_bits as nat)
        &&& self.offsets@.len() == self.fields@.len()
        &&& forall|i: int|
            0 <= i < self.fields@.len() ==> (#[trigger] self.offsets@[i]) as nat == offset_of(
                self.fields@,
                i,
            )
        &&& layout_violations(
            self.fields@,
            self.filled_policy,
            self.explicit_byte_count,
            self.primitive_repr,
        ).len() == 0
    }

    /// Number of fields.
    pub open spec fn nfields(self) -> nat {
        self.fields@.len()
    }

    /// Bit offset of field `i`.
    pub open spec fn field_offset(self, i: int) -> nat {
        offset_of(self.fields@, i)
    }

    /// Bit width of field `i`.
    pub open spec fn field_width(self, i: int) -> nat {
        self.fields@[i].width()
    }

    /// Every field's bits lie inside the buffer, and the buffer's bit count
    /// stays within machine range.
    pub proof fn lemma_field_in_bounds(self, i: int)
        requires
            self.wf(),
            0 <= i < self.nfields(),
        ensures
            self.field_offset(i) + self.field_width(i) <= self.total_bits,
            8 * self.byte_length >= self.total_bits,
            self.field_width(i) == self.fields@[i].codec.width,
    {
        lemma_field_span(self.fields@, i);
    }

    /// Distinct fields occupy disjoint bit ranges: the earlier field ends at
    /// or before the later one begins.
    pub proof fn lemma_fields_disjoint(self, i: int, k: int)
        requires
            self.wf(),
            0 <= i < k < self.nfields(),
        ensures
            self.field_offset(i) + self.field_width(i) <= self.field_offset(k),
    {
        lemma_field_span(self.fields@, i);
        lemma_offset_monotonic(self.fields@, i + 1, k);
    }

    /// With a validated primitive representation, the total width equals the
    /// primitive's bit width: a whole number of bytes, at most 16 of them.
    pub proof fn lemma_repr_exact(self)
        requires
            self.wf(),
            self.primitive_repr is Some,
        ensures
            self.total_bits == self.primitive_repr.unwrap().bits(),
            8 * self.byte_length == self.total_bits,
            self.byte_length <= 16,
    {
        assert(repr_violation(self.primitive_repr, total_bits_of(self.fields@)).len() == 0);
    }

    /// Runs the layout arithmetic and, in order, all structural checks:
    /// each declared width against its codec, the filled policy, the
    /// explicit byte count, and the primitive representation. Returns the
    /// layout when no check fails, and otherwise the aggregate of every
    /// violation found.
    pub fn new(
        fields: Vec<FieldSpec>,
        filled_policy: FilledPolicy,
        explicit_byte_count: Option<usize>,
        primitive_repr: Option<ReprWidth>,
    ) -> (r: Result<Layout, Vec<LayoutError>>)
        requires
            forall|i: int| 0 <= i < fields@.len() ==> (#[trigger] fields@[i]).wf(),
            total_bits_of(fields@) + 7 <= usize::MAX,
        ensures
            match r {
                Result::Ok(l) => {
                    &&& layout_violations(
                        fields@,
                        filled_policy,
                        explicit_byte_count,
                        primitive_repr,
                    ).len() == 0
                    &&& l.wf()
                    &&& l.fields@ == fields@
                    &&& l.filled_policy == filled_policy
                    &&& l.explicit_byte_count == explicit_byte_count
                    &&& l.primitive_repr == primitive_repr
                    &&& l.total_bits as nat == total_bits_of(fields@)
                    &&& l.byte_length as nat == byte_len_of(total_bits_of(fields@))
                },
                Result::Err(errs) => {
                    &&& errs@ == layout_violations(
                        fields@,
                        filled_policy,
                        explicit_byte_count,
                        primitive_repr,
                    )
                    &&& errs@.len() > 0
                },
            },
    {
        let ghost fseq = fields@;
        let mut errs: Vec<LayoutError> = Vec::new();
        let mut offsets: Vec<usize> = Vec::new();
        let mut total: usize = 0;
        let n: usize = fields.len();
        let mut i: usize = 0;
        while i < n
            invariant
                i <= n,
                n == fields@.len(),
                fields@ == fseq,
                forall|k: int| 0 <= k < fields@.len() ==> (#[trigger] fields@[k]).wf(),
                total_bits_of(fields@) + 7 <= usize::MAX,
                offsets@.len() == i,
                forall|k: int|
                    0 <= k < i ==> (#[trigger] offsets@[k]) as nat == offset_of(fields@, k),
                total as nat == total_bits_of(fields@.take(i as int)),
                errs@ == width_violations(fields@.take(i as int)),
            decreases n - i,
        {
            proof {
                lemma_total_bits_take_step(fseq, i as int);
                lemma_total_bits_prefix_le(fseq, i as int + 1);
                lemma_width_violations_take_step(fseq, i as int);
                assert(fseq[i as int].wf());
            }
            offsets.push(total);
            let f = fields[i];
            match f.declared_width {
                Option::Some(d) => {
                    if d != f.codec.width {
                        errs.push(
                            LayoutError::DeclaredWidthMismatch {
                                field: i,
                                declared: d,
                                actual: f.codec.width,
                            },
                        );
                    } else {
                        proof {
                            assert(errs@ + field_width_violation(fseq[i as int], i as int)
                                =~= errs@);
                        }
                    }
                },
                Option::None => {
                    proof {
                        assert(errs@ + field_width_violation(fseq[i as int], i as int) =~= errs@);
                    }
                },
            }
            total = total + (f.codec.width as usize);
            i = i + 1;
        }
        proof {
            assert(fseq.take(n as int) =~= fseq);
        }
        let ghost wv = width_violations(fseq);
        let byte_length: usize = (total + 7) / 8;
        match filled_policy {
            FilledPolicy::MustBeByteMultiple => {
                if total % 8 != 0 {
                    errs.push(LayoutError::NotByteMultiple { total_bits: total });
                }
            },
            FilledPolicy::MustNotBeByteMultiple => {
                if total % 8 == 0 {
                    errs.push(LayoutError::ByteMultiple { total_bits: total });
                }
            },
            FilledPolicy::Unconstrained => {},
        }
        proof {
            assert(errs@ =~= wv + filled_violation(filled_policy, total as nat));
        }
        let ghost after_filled = errs@;
        match explicit_byte_count {
            Option::Some(expected) => {
                if expected != byte_length {
                    errs.push(
                        LayoutError::ByteCountMismatch { expected, computed: byte_length },
                    );
                }
            },
            Option::None => {},
        }
        proof {
            assert(errs@ =~= after_filled + byte_count_violation(explicit_byte_count, total as nat));
        }
        let ghost after_bytes = errs@;
        match primitive_repr {
            Option::Some(rw) => {
                let rb: u64 = rw.bit_count();
                if (total as u64) != rb {
                    errs.push(LayoutError::ReprMismatch { repr_bits: rb, total_bits: total });
                }
            },
            Option::None => {},
        }
        proof {
            assert(errs@ =~= after_bytes + repr_violation(primitive_repr, total as nat));
            assert(errs@ == layout_violations(
                fseq,
                filled_policy,
                explicit_byte_count,
                primitive_repr,
            ));
        }
        if errs.len() == 0 {
            Result::Ok(
                Layout {
                    fields,
                    offsets,
                    total_bits: total,
                    byte_length,
                    filled_policy,
                    explicit_byte_count,
                    primitive_repr,
                },
            )
        } else {
            Result::Err(errs)
        }
    }
}

} // verus!
