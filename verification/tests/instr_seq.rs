use re_compiler::hir::{ByteRange, ClassBytes, HexByte};
use re_compiler::instr::{
    literal_code_length, InstrSeq, ANY_BYTE, CLASS_BITMAP, JUMP, MASKED_BYTE, MATCH,
    OPCODE_PREFIX, SPLIT_A, SPLIT_N,
};

#[test]
fn new_sequence_is_empty_and_keeps_its_id() {
    let seq = InstrSeq::new(7);
    assert_eq!(seq.seq_id(), 7);
    assert_eq!(seq.location(), 0);
    assert_eq!(seq.into_bytes(), Vec::<u8>::new());
}

#[test]
fn emit_instr_appends_prefix_and_opcode() {
    let mut seq = InstrSeq::new(0);
    assert_eq!(seq.emit_instr(MATCH), 0);
    assert_eq!(seq.emit_instr(ANY_BYTE), 2);
    assert_eq!(seq.location(), 4);
    assert_eq!(seq.into_bytes(), vec![OPCODE_PREFIX, MATCH, OPCODE_PREFIX, ANY_BYTE]);
}

#[test]
fn emit_instr_leaves_room_for_an_offset() {
    let mut seq = InstrSeq::new(0);
    assert_eq!(seq.emit_instr(JUMP), 0);
    assert_eq!(seq.emit_instr(SPLIT_A), 4);
    assert_eq!(
        seq.into_bytes(),
        vec![OPCODE_PREFIX, JUMP, 0, 0, OPCODE_PREFIX, SPLIT_A, 0, 0]
    );
}

#[test]
fn emit_split_n_leaves_room_for_each_offset() {
    let mut seq = InstrSeq::new(0);
    seq.emit_instr(MATCH);
    assert_eq!(seq.emit_split_n(2), 2);
    assert_eq!(
        seq.into_bytes(),
        vec![OPCODE_PREFIX, MATCH, OPCODE_PREFIX, SPLIT_N, 2, 0, 0, 0, 0]
    );
}

#[test]
fn emit_literal_forward_doubles_the_prefix() {
    let mut seq = InstrSeq::new(0);
    assert_eq!(seq.emit_literal(&[b'a', OPCODE_PREFIX, b'b'], false), 0);
    assert_eq!(seq.into_bytes(), vec![b'a', OPCODE_PREFIX, OPCODE_PREFIX, b'b']);
}

#[test]
fn emit_literal_backward_reverses_the_bytes() {
    let mut seq = InstrSeq::new(0);
    seq.emit_literal(b"x", false);
    assert_eq!(seq.emit_literal(&[b'a', OPCODE_PREFIX, b'b'], true), 1);
    assert_eq!(seq.into_bytes(), vec![b'x', b'b', OPCODE_PREFIX, OPCODE_PREFIX, b'a']);
}

#[test]
fn emit_masked_byte_writes_value_and_mask() {
    let mut seq = InstrSeq::new(0);
    assert_eq!(seq.emit_masked_byte(HexByte { value: 0x40, mask: 0xF0 }), 0);
    assert_eq!(seq.into_bytes(), vec![OPCODE_PREFIX, MASKED_BYTE, 0x40, 0xF0]);
}

#[test]
fn emit_class_writes_a_bitmap() {
    let mut seq = InstrSeq::new(0);
    let class = ClassBytes { ranges: vec![ByteRange { start: 0x30, end: 0x39 }] };
    assert_eq!(seq.emit_class(&class), 0);
    let mut expected = vec![OPCODE_PREFIX, CLASS_BITMAP];
    let mut bitmap = vec![0u8; 32];
    bitmap[6] = 0xFF;
    bitmap[7] = 0x03;
    expected.extend_from_slice(&bitmap);
    assert_eq!(seq.into_bytes(), expected);
}

#[test]
fn emit_class_sets_the_first_and_the_last_bit() {
    let mut seq = InstrSeq::new(0);
    let class = ClassBytes {
        ranges: vec![ByteRange { start: 0, end: 0 }, ByteRange { start: 255, end: 255 }],
    };
    seq.emit_class(&class);
    let bytes = seq.into_bytes();
    assert_eq!(bytes.len(), 34);
    assert_eq!(bytes[2], 0x01);
    assert_eq!(bytes[33], 0x80);
    assert!(bytes[3..33].iter().all(|b| *b == 0));
}

#[test]
fn patch_instr_writes_the_offset_least_significant_byte_first() {
    let mut seq = InstrSeq::new(0);
    seq.emit_instr(JUMP);
    seq.emit_instr(SPLIT_A);
    seq.patch_instr(0, 300);
    seq.patch_instr(4, -2);
    assert_eq!(
        seq.into_bytes(),
        vec![OPCODE_PREFIX, JUMP, 0x2C, 0x01, OPCODE_PREFIX, SPLIT_A, 0xFE, 0xFF]
    );
}

#[test]
fn patch_instr_takes_the_extremes() {
    let mut seq = InstrSeq::new(0);
    seq.emit_instr(JUMP);
    seq.emit_instr(JUMP);
    seq.patch_instr(0, i16::MAX);
    seq.patch_instr(4, i16::MIN);
    assert_eq!(
        seq.into_bytes(),
        vec![OPCODE_PREFIX, JUMP, 0xFF, 0x7F, OPCODE_PREFIX, JUMP, 0x00, 0x80]
    );
}

#[test]
fn patch_split_n_writes_every_offset() {
    let mut seq = InstrSeq::new(0);
    seq.emit_literal(b"q", false);
    let at = seq.emit_split_n(2);
    seq.emit_instr(MATCH);
    seq.patch_split_n(at, &vec![7, -1]);
    assert_eq!(
        seq.into_bytes(),
        vec![b'q', OPCODE_PREFIX, SPLIT_N, 2, 7, 0, 0xFF, 0xFF, OPCODE_PREFIX, MATCH]
    );
}

#[test]
fn emit_clone_copies_the_range_with_its_jump() {
    let mut seq = InstrSeq::new(0);
    seq.emit_literal(b"a", false);
    let start = seq.location();
    let jump = seq.emit_instr(JUMP);
    seq.emit_literal(b"bc", false);
    seq.patch_instr(jump, 5);
    let end = seq.location();
    assert_eq!(seq.emit_clone(start, end), 7);
    let bytes = seq.into_bytes();
    assert_eq!(
        bytes,
        vec![
            b'a', OPCODE_PREFIX, JUMP, 5, 0, b'b', b'c', OPCODE_PREFIX, JUMP, 5, 0, b'b', b'c',
        ]
    );
    // The jump of the copy has the offset of the jump that was copied.
    assert_eq!(&bytes[start..end], &bytes[end..]);
}

#[test]
fn emit_clone_of_nothing_adds_nothing() {
    let mut seq = InstrSeq::new(0);
    seq.emit_literal(b"ab", false);
    assert_eq!(seq.emit_clone(1, 1), 2);
    assert_eq!(seq.into_bytes(), b"ab".to_vec());
}

#[test]
fn append_adds_the_other_sequence() {
    let mut seq = InstrSeq::new(0);
    seq.emit_literal(b"ab", false);
    let mut other = InstrSeq::new(1);
    other.emit_instr(MATCH);
    seq.append(&other);
    assert_eq!(seq.seq_id(), 0);
    assert_eq!(seq.byte_at(2), OPCODE_PREFIX);
    assert_eq!(seq.into_bytes(), vec![b'a', b'b', OPCODE_PREFIX, MATCH]);
}

#[test]
fn literal_code_length_counts_the_prefix_twice() {
    assert_eq!(literal_code_length(b""), 0);
    assert_eq!(literal_code_length(b"abc"), 3);
    assert_eq!(literal_code_length(&[b'a', OPCODE_PREFIX, OPCODE_PREFIX]), 5);
}
