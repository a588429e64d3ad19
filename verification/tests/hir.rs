use re_compiler::hir::{ByteRange, ClassBytes, Expr, HexByte, Look, Repetition};

fn class(ranges: &[(u8, u8)]) -> ClassBytes {
    ClassBytes { ranges: ranges.iter().map(|r| ByteRange { start: r.0, end: r.1 }).collect() }
}

fn lit(s: &str) -> Expr {
    Expr::Literal(s.as_bytes().to_vec())
}

#[test]
fn class_contains_the_bytes_of_its_ranges() {
    let c = class(&[(0x30, 0x39), (0x61, 0x61)]);
    assert!(c.contains(0x30));
    assert!(c.contains(0x39));
    assert!(c.contains(0x61));
    assert!(!c.contains(0x2F));
    assert!(!c.contains(0x3A));
    assert!(!c.contains(0x62));
    assert!(!class(&[]).contains(0));
}

#[test]
fn class_of_all_bytes() {
    assert!(class(&[(0, 255)]).is_any_byte());
    assert!(class(&[(0, 100), (101, 255)]).is_any_byte());
    assert!(!class(&[(0, 254)]).is_any_byte());
    assert!(!class(&[(1, 255)]).is_any_byte());
    assert!(!class(&[]).is_any_byte());
}

#[test]
fn smallest_and_largest() {
    let c = class(&[(0x30, 0x39), (0x10, 0x12)]);
    assert_eq!(c.smallest(), Some(0x10));
    assert_eq!(c.largest(), Some(0x39));
    assert_eq!(class(&[]).smallest(), None);
    assert_eq!(class(&[]).largest(), None);
    assert_eq!(class(&[(0, 255)]).smallest(), Some(0));
    assert_eq!(class(&[(0, 255)]).largest(), Some(255));
}

#[test]
fn class_of_a_masked_byte() {
    assert_eq!(class(&[(0x40, 0x4F)]).to_hex_byte(), Some(HexByte { value: 0x40, mask: 0xF0 }));
    assert_eq!(
        class(&[(0x41, 0x41), (0x61, 0x61)]).to_hex_byte(),
        Some(HexByte { value: 0x41, mask: 0xDF })
    );
    assert_eq!(class(&[(0x41, 0x41)]).to_hex_byte(), Some(HexByte { value: 0x41, mask: 0xFF }));
    assert_eq!(class(&[(0, 255)]).to_hex_byte(), Some(HexByte { value: 0, mask: 0 }));
    let low_nibble_four: Vec<(u8, u8)> = (0..16u8).map(|h| (h * 16 + 4, h * 16 + 4)).collect();
    assert_eq!(class(&low_nibble_four).to_hex_byte(), Some(HexByte { value: 0x04, mask: 0x0F }));
}

#[test]
fn class_that_is_no_masked_byte() {
    assert_eq!(class(&[]).to_hex_byte(), None);
    assert_eq!(class(&[(0x41, 0x43)]).to_hex_byte(), None);
    assert_eq!(class(&[(0x20, 0x7E)]).to_hex_byte(), None);
    assert_eq!(class(&[(1, 1), (2, 2)]).to_hex_byte(), None);
    assert_eq!(class(&[(0x40, 0x4E)]).to_hex_byte(), None);
}

#[test]
fn matches_mask_tests_every_byte() {
    assert!(class(&[(0x40, 0x4F)]).matches_mask(0x40, 0xF0));
    assert!(!class(&[(0x40, 0x4E)]).matches_mask(0x40, 0xF0));
    assert!(!class(&[(0x40, 0x50)]).matches_mask(0x40, 0xF0));
    assert!(class(&[]).matches_mask(0x01, 0x00));
}

#[test]
fn class_ranges_must_be_ordered() {
    assert!(class(&[(1, 1), (5, 9)]).is_well_formed());
    assert!(!class(&[(1, 1), (9, 5)]).is_well_formed());
}

#[test]
fn look_is_found_anywhere_in_the_tree() {
    assert!(!lit("ab").contains_look());
    assert!(!Expr::Empty.contains_look());
    assert!(Expr::Look(Look::WordAscii).contains_look());
    let deep = Expr::Concat(vec![
        lit("a"),
        Expr::Alternation(vec![
            lit("b"),
            Expr::Capture(Box::new(Expr::Repetition(Repetition {
                min: 0,
                max: None,
                greedy: true,
                sub: Box::new(Expr::Look(Look::End)),
            }))),
        ]),
    ]);
    assert!(deep.contains_look());
    assert!(!Expr::Concat(vec![lit("a"), Expr::Capture(Box::new(lit("b")))]).contains_look());
}

#[test]
fn node_count_counts_every_node() {
    let h = Expr::Concat(vec![lit("a"), Expr::Capture(Box::new(lit("b"))), Expr::Empty]);
    assert_eq!(h.node_count(100), Some(5));
    assert_eq!(h.node_count(5), Some(5));
    assert_eq!(h.node_count(4), None);
    assert_eq!(Expr::Empty.node_count(0), None);
    assert_eq!(Expr::Concat(vec![]).node_count(1), Some(1));
}

#[test]
fn valid_expressions() {
    assert!(Expr::Empty.is_valid());
    assert!(lit("").is_valid());
    assert!(Expr::Concat(vec![]).is_valid());
    assert!(Expr::Alternation(vec![lit("a")]).is_valid());
    assert!(Expr::Alternation((0..255).map(|_| Expr::Empty).collect()).is_valid());
    assert!(Expr::Repetition(Repetition { min: 2, max: Some(2), greedy: true, sub: Box::new(lit("a")) })
        .is_valid());
    assert!(Expr::Repetition(Repetition { min: 0, max: Some(0), greedy: true, sub: Box::new(lit("a")) })
        .is_valid());
}

#[test]
fn invalid_expressions() {
    assert!(!Expr::Alternation(vec![]).is_valid());
    assert!(!Expr::Alternation((0..256).map(|_| Expr::Empty).collect()).is_valid());
    assert!(!Expr::Repetition(Repetition { min: 3, max: Some(2), greedy: true, sub: Box::new(lit("a")) })
        .is_valid());
    assert!(!Expr::Class(ClassBytes { ranges: vec![ByteRange { start: 9, end: 1 }] }).is_valid());
    assert!(!Expr::Capture(Box::new(Expr::Alternation(vec![]))).is_well_formed());
    assert!(!Expr::Concat(vec![lit("a"), Expr::Alternation(vec![])]).is_well_formed());
}
