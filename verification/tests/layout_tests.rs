use bitpack::error::LayoutError;
use bitpack::layout::{Codec, FieldSpec, FilledPolicy, Layout, ReprWidth};

fn field(width: u64) -> FieldSpec {
    FieldSpec {
        codec: Codec { width, valid_count: None },
        declared_width: None,
        skip_getter: false,
        skip_setter: false,
    }
}

#[test]
fn offsets_and_sizes_for_three_fields() {
    let l = Layout::new(
        vec![field(3), field(5), field(8)],
        FilledPolicy::MustBeByteMultiple,
        None,
        None,
    )
    .unwrap();
    assert_eq!(l.offsets, vec![0, 3, 8]);
    assert_eq!(l.total_bits, 16);
    assert_eq!(l.byte_length, 2);
}

#[test]
fn byte_length_rounds_up() {
    let l = Layout::new(
        vec![field(3), field(5), field(5)],
        FilledPolicy::MustNotBeByteMultiple,
        None,
        None,
    )
    .unwrap();
    assert_eq!(l.total_bits, 13);
    assert_eq!(l.byte_length, 2);
}

#[test]
fn must_be_byte_multiple_rejects_13_bits() {
    let r = Layout::new(
        vec![field(13)],
        FilledPolicy::MustBeByteMultiple,
        None,
        None,
    );
    assert_eq!(
        r.unwrap_err(),
        vec![LayoutError::NotByteMultiple { total_bits: 13 }]
    );
}

#[test]
fn must_not_be_byte_multiple_rejects_16_bits() {
    let r = Layout::new(
        vec![field(3), field(5), field(8)],
        FilledPolicy::MustNotBeByteMultiple,
        None,
        None,
    );
    assert_eq!(
        r.unwrap_err(),
        vec![LayoutError::ByteMultiple { total_bits: 16 }]
    );
}

#[test]
fn unconstrained_accepts_either_total() {
    assert!(Layout::new(vec![field(13)], FilledPolicy::Unconstrained, None, None).is_ok());
    assert!(Layout::new(vec![field(16)], FilledPolicy::Unconstrained, None, None).is_ok());
}

#[test]
fn aggregated_validation_reports_both_violations() {
    let r = Layout::new(
        vec![field(13)],
        FilledPolicy::MustBeByteMultiple,
        Some(3),
        None,
    );
    assert_eq!(
        r.unwrap_err(),
        vec![
            LayoutError::NotByteMultiple { total_bits: 13 },
            LayoutError::ByteCountMismatch { expected: 3, computed: 2 },
        ]
    );
}

#[test]
fn declared_width_mismatch_is_reported_per_field() {
    let mut bad = field(3);
    bad.declared_width = Some(4);
    let mut good = field(5);
    good.declared_width = Some(5);
    let r = Layout::new(
        vec![good, bad],
        FilledPolicy::MustBeByteMultiple,
        None,
        None,
    );
    assert_eq!(
        r.unwrap_err(),
        vec![LayoutError::DeclaredWidthMismatch { field: 1, declared: 4, actual: 3 }]
    );
}

#[test]
fn matching_declared_width_passes() {
    let mut f = field(8);
    f.declared_width = Some(8);
    assert!(Layout::new(vec![f], FilledPolicy::MustBeByteMultiple, None, None).is_ok());
}

#[test]
fn explicit_byte_count_checked_against_byte_length() {
    let ok = Layout::new(
        vec![field(16)],
        FilledPolicy::MustBeByteMultiple,
        Some(2),
        None,
    );
    assert!(ok.is_ok());
    let r = Layout::new(
        vec![field(16)],
        FilledPolicy::MustBeByteMultiple,
        Some(4),
        None,
    );
    assert_eq!(
        r.unwrap_err(),
        vec![LayoutError::ByteCountMismatch { expected: 4, computed: 2 }]
    );
}

#[test]
fn repr_must_match_total_bits() {
    let r = Layout::new(
        vec![field(8)],
        FilledPolicy::MustBeByteMultiple,
        None,
        Some(ReprWidth::U16),
    );
    assert_eq!(
        r.unwrap_err(),
        vec![LayoutError::ReprMismatch { repr_bits: 16, total_bits: 8 }]
    );
    let ok = Layout::new(
        vec![field(8), field(8)],
        FilledPolicy::MustBeByteMultiple,
        None,
        Some(ReprWidth::U16),
    );
    assert!(ok.is_ok());
}

#[test]
fn every_check_can_fail_at_once() {
    let mut bad = field(5);
    bad.declared_width = Some(6);
    let r = Layout::new(
        vec![bad],
        FilledPolicy::MustBeByteMultiple,
        Some(9),
        Some(ReprWidth::U8),
    );
    assert_eq!(
        r.unwrap_err(),
        vec![
            LayoutError::DeclaredWidthMismatch { field: 0, declared: 6, actual: 5 },
            LayoutError::NotByteMultiple { total_bits: 5 },
            LayoutError::ByteCountMismatch { expected: 9, computed: 1 },
            LayoutError::ReprMismatch { repr_bits: 8, total_bits: 5 },
        ]
    );
}

#[test]
fn empty_schema_builds_an_empty_layout() {
    let l = Layout::new(vec![], FilledPolicy::MustBeByteMultiple, Some(0), None).unwrap();
    assert_eq!(l.total_bits, 0);
    assert_eq!(l.byte_length, 0);
    assert!(l.offsets.is_empty());
}
