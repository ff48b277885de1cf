use bitpack::buffer::PackedBuffer;
use bitpack::error::{InvalidBitPattern, OutOfBounds};
use bitpack::layout::{Codec, FieldSpec, FilledPolicy, Layout};

fn field(width: u64) -> FieldSpec {
    FieldSpec {
        codec: Codec { width, valid_count: None },
        declared_width: None,
        skip_getter: false,
        skip_setter: false,
    }
}

fn three_field_layout() -> Layout {
    Layout::new(
        vec![field(3), field(5), field(8)],
        FilledPolicy::MustBeByteMultiple,
        None,
        None,
    )
    .unwrap()
}

#[test]
fn new_buffer_is_zeroed() {
    let l = three_field_layout();
    let b = PackedBuffer::new(&l);
    assert_eq!(b.get(&l, 0), 0);
    assert_eq!(b.get(&l, 1), 0);
    assert_eq!(b.get(&l, 2), 0);
    assert_eq!(b.into_bytes(), vec![0u8, 0u8]);
}

#[test]
fn field_one_of_widths_3_5_8_lands_in_bits_3_to_8() {
    let l = three_field_layout();
    let mut b = PackedBuffer::new(&l);
    b.set(&l, 1, 5);
    assert_eq!(b.into_bytes(), vec![0b1010_0000u8, 0x00]);
}

#[test]
fn set_checked_then_get_checked_round_trips() {
    let l = three_field_layout();
    let mut b = PackedBuffer::new(&l);
    assert_eq!(b.set_checked(&l, 0, 6), Ok(()));
    assert_eq!(b.set_checked(&l, 1, 21), Ok(()));
    assert_eq!(b.set_checked(&l, 2, 0xC3), Ok(()));
    assert_eq!(b.get_checked(&l, 0), Ok(6));
    assert_eq!(b.get_checked(&l, 1), Ok(21));
    assert_eq!(b.get_checked(&l, 2), Ok(0xC3));
}

#[test]
fn setting_one_field_leaves_the_others_unchanged() {
    let l = three_field_layout();
    let mut b = PackedBuffer::new(&l);
    b.set(&l, 0, 7);
    b.set(&l, 2, 0xAA);
    b.set(&l, 1, 19);
    assert_eq!(b.get(&l, 0), 7);
    assert_eq!(b.get(&l, 2), 0xAA);
    b.set(&l, 1, 2);
    assert_eq!(b.get(&l, 0), 7);
    assert_eq!(b.get(&l, 1), 2);
    assert_eq!(b.get(&l, 2), 0xAA);
}

#[test]
fn width_12_field_spans_the_byte_boundary_cleanly() {
    let l = Layout::new(
        vec![field(4), field(12), field(8)],
        FilledPolicy::MustBeByteMultiple,
        Some(3),
        None,
    )
    .unwrap();
    let mut b = PackedBuffer::new(&l);
    b.set(&l, 0, 0xF);
    b.set(&l, 2, 0x5A);
    b.set(&l, 1, 0xABC);
    assert_eq!(b.get(&l, 0), 0xF);
    assert_eq!(b.get(&l, 1), 0xABC);
    assert_eq!(b.get(&l, 2), 0x5A);
    b.set(&l, 1, 0x123);
    assert_eq!(b.get(&l, 0), 0xF);
    assert_eq!(b.get(&l, 1), 0x123);
    assert_eq!(b.get(&l, 2), 0x5A);
}

#[test]
fn set_checked_rejects_16_in_a_width_4_field() {
    let l = Layout::new(
        vec![field(4), field(4)],
        FilledPolicy::MustBeByteMultiple,
        None,
        None,
    )
    .unwrap();
    let mut b = PackedBuffer::new(&l);
    assert_eq!(b.set_checked(&l, 0, 16), Err(OutOfBounds));
    assert_eq!(b.get(&l, 0), 0);
    assert_eq!(b.set_checked(&l, 0, 15), Ok(()));
    assert_eq!(b.get(&l, 0), 15);
}

#[test]
fn enumerated_codec_rejects_values_past_its_count() {
    let gapped = FieldSpec {
        codec: Codec { width: 3, valid_count: Some(5) },
        declared_width: None,
        skip_getter: false,
        skip_setter: false,
    };
    let l = Layout::new(
        vec![gapped, field(5)],
        FilledPolicy::MustBeByteMultiple,
        None,
        None,
    )
    .unwrap();
    let mut b = PackedBuffer::new(&l);
    assert_eq!(b.set_checked(&l, 0, 5), Err(OutOfBounds));
    assert_eq!(b.set_checked(&l, 0, 4), Ok(()));
    assert_eq!(b.get_checked(&l, 0), Ok(4));
}

#[test]
fn invalid_stored_pattern_is_reported_with_its_bits() {
    let gapped = FieldSpec {
        codec: Codec { width: 3, valid_count: Some(5) },
        declared_width: None,
        skip_getter: false,
        skip_setter: false,
    };
    let l = Layout::new(vec![gapped], FilledPolicy::MustNotBeByteMultiple, None, None).unwrap();
    // Raw pattern 6 (0b110) under the fixed convention: the value's most
    // significant bit sits at bit 0, so the byte reads 0b011.
    let b = PackedBuffer::from_bytes(&l, vec![0b011u8]).unwrap();
    assert_eq!(
        b.get_checked(&l, 0),
        Err(InvalidBitPattern { invalid_bits: 6 })
    );
}

#[test]
fn with_checked_builds_fluently_and_reports_out_of_bounds() {
    let l = three_field_layout();
    let b = PackedBuffer::new(&l)
        .with(&l, 0, 3)
        .with(&l, 1, 30)
        .with(&l, 2, 0x11);
    assert_eq!(b.get(&l, 0), 3);
    assert_eq!(b.get(&l, 1), 30);
    assert_eq!(b.get(&l, 2), 0x11);
    let r = b.with_checked(&l, 1, 32);
    assert_eq!(r.unwrap_err(), OutOfBounds);
    let b2 = PackedBuffer::new(&l).with_checked(&l, 1, 31).unwrap();
    assert_eq!(b2.get(&l, 1), 31);
}

#[test]
fn full_width_128_bit_field_round_trips() {
    let l = Layout::new(vec![field(128)], FilledPolicy::MustBeByteMultiple, None, None).unwrap();
    let mut b = PackedBuffer::new(&l);
    assert_eq!(b.set_checked(&l, 0, u128::MAX), Ok(()));
    assert_eq!(b.get_checked(&l, 0), Ok(u128::MAX));
    b.set(&l, 0, 0x0123_4567_89AB_CDEF_0123_4567_89AB_CDEF);
    assert_eq!(b.get(&l, 0), 0x0123_4567_89AB_CDEF_0123_4567_89AB_CDEF);
}

#[test]
fn snapshot_renders_fields_and_placeholders() {
    let hidden = FieldSpec {
        codec: Codec { width: 5, valid_count: None },
        declared_width: None,
        skip_getter: true,
        skip_setter: false,
    };
    let gapped = FieldSpec {
        codec: Codec { width: 8, valid_count: Some(10) },
        declared_width: None,
        skip_getter: false,
        skip_setter: false,
    };
    let l = Layout::new(
        vec![field(3), hidden, gapped],
        FilledPolicy::MustBeByteMultiple,
        None,
        None,
    )
    .unwrap();
    let mut b = PackedBuffer::new(&l);
    b.set(&l, 0, 5);
    b.set(&l, 1, 9);
    b.set(&l, 2, 7);
    assert_eq!(b.snapshot(&l), vec![Some(5), None, Some(7)]);
    // An undecodable pattern renders as the placeholder too: write raw 12
    // into the gapped field through the bytes.
    let mut bytes = b.into_bytes();
    // Field 2 occupies bits [8, 16): raw 12 = 0b00001100, most significant
    // bit first from bit 8 upward, gives byte 1 = 0b00110000.
    bytes[1] = 0b0011_0000;
    let b2 = PackedBuffer::from_bytes(&l, bytes).unwrap();
    assert_eq!(b2.get_checked(&l, 2), Err(InvalidBitPattern { invalid_bits: 12 }));
    assert_eq!(b2.snapshot(&l), vec![Some(5), None, None]);
}

#[test]
fn skip_setter_field_keeps_its_initial_bits() {
    let reserved = FieldSpec {
        codec: Codec { width: 4, valid_count: None },
        declared_width: None,
        skip_getter: false,
        skip_setter: true,
    };
    let l = Layout::new(
        vec![field(4), reserved],
        FilledPolicy::MustBeByteMultiple,
        None,
        None,
    )
    .unwrap();
    let mut b = PackedBuffer::new(&l);
    b.set(&l, 0, 0xA);
    assert_eq!(b.get(&l, 1), 0);
}
