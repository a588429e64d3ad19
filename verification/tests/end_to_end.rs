use re_compiler::compiler::{Compiler, Location, RegexpAtom};
use re_compiler::hir::{ByteRange, ClassBytes, Expr, Look, Repetition};
use re_compiler::instr::{JUMP, MATCH, OPCODE_PREFIX, SPLIT_A, SPLIT_B, SPLIT_N};

fn lit(s: &str) -> Expr {
    Expr::Literal(s.as_bytes().to_vec())
}

fn compile(h: &Expr) -> (Vec<u8>, Vec<u8>, Vec<RegexpAtom>) {
    assert!(h.is_valid());
    match Compiler::new().compile(h) {
        Ok((fwd, bck, atoms)) => (fwd.into_bytes(), bck.into_bytes(), atoms),
        Err(_) => panic!("the expression does not compile"),
    }
}

#[test]
fn literal_abcd() {
    let (fwd, bck, atoms) = compile(&lit("abcd"));
    assert_eq!(fwd, vec![b'a', b'b', b'c', b'd', OPCODE_PREFIX, MATCH]);
    assert_eq!(bck, vec![b'd', b'c', b'b', b'a', OPCODE_PREFIX, MATCH]);
    assert_eq!(atoms.len(), 1);
    assert_eq!(atoms[0].atom.bytes, b"abcd".to_vec());
    assert!(atoms[0].atom.exact);
    assert_eq!(atoms[0].atom.backtrack, 0);
    assert_eq!(atoms[0].code_loc, Location { fwd: 0, bck_seq_id: 0, bck: 4 });
}

#[test]
fn concat_literal_class_literal() {
    let class = Expr::Class(ClassBytes { ranges: vec![ByteRange { start: 0x20, end: 0x7e }] });
    let h = Expr::Concat(vec![lit("a"), class, lit("z")]);
    let (fwd, bck, atoms) = compile(&h);
    assert_eq!(fwd[0], b'a');
    assert_eq!(fwd[fwd.len() - 3], b'z');
    assert_eq!(bck[0], b'z');
    assert_eq!(bck[bck.len() - 3], b'a');
    assert_eq!(fwd.len(), 1 + 34 + 1 + 2);
    assert_eq!(bck.len(), fwd.len());
    assert!(!atoms.is_empty());
    for a in atoms.iter() {
        assert!(a.atom.quality() > 0);
    }
}

#[test]
fn alternation_of_three_literals() {
    let h = Expr::Alternation(vec![lit("foo"), lit("bar"), lit("baz")]);
    let (fwd, _bck, atoms) = compile(&h);
    assert_eq!(&fwd[0..3], &[OPCODE_PREFIX, SPLIT_N, 3]);
    let found: Vec<Vec<u8>> = atoms.iter().map(|a| a.atom.bytes.clone()).collect();
    assert_eq!(found, vec![b"foo".to_vec(), b"bar".to_vec(), b"baz".to_vec()]);
    assert_eq!(atoms.iter().filter(|a| a.atom.exact).count(), 3);
}

#[test]
fn repetition_at_least_three() {
    let h = Expr::Repetition(Repetition {
        min: 3,
        max: None,
        greedy: true,
        sub: Box::new(lit("xy")),
    });
    let (fwd, bck, atoms) = compile(&h);
    let expected = vec![
        b'x', b'y', b'x', b'y', OPCODE_PREFIX, SPLIT_B, 0xFE, 0xFF, b'x', b'y', OPCODE_PREFIX, MATCH,
    ];
    assert_eq!(fwd, expected);
    assert_eq!(
        bck,
        vec![b'y', b'x', b'y', b'x', OPCODE_PREFIX, SPLIT_B, 0xFE, 0xFF, b'y', b'x', OPCODE_PREFIX, MATCH]
    );
    assert_eq!(atoms.len(), 1);
    assert_eq!(atoms[0].atom.bytes, b"xy".to_vec());
    assert!(!atoms[0].atom.exact);
    assert_eq!(atoms[0].code_loc, Location { fwd: 0, bck_seq_id: 0, bck: 2 + 2 * 2 + 4 });
}

#[test]
fn look_around_makes_atoms_inexact() {
    let h = Expr::Concat(vec![Expr::Look(Look::Start), lit("quux"), Expr::Look(Look::End)]);
    let (_fwd, _bck, atoms) = compile(&h);
    assert_eq!(atoms.len(), 1);
    assert_eq!(atoms[0].atom.bytes, b"quux".to_vec());
    assert!(!atoms[0].atom.exact);
}

#[test]
fn star_takes_no_atoms_from_its_body() {
    let h = Expr::Repetition(Repetition {
        min: 0,
        max: None,
        greedy: true,
        sub: Box::new(lit("abcd")),
    });
    let (fwd, bck, atoms) = compile(&h);
    assert_eq!(
        fwd,
        vec![
            OPCODE_PREFIX, SPLIT_A, 12, 0, b'a', b'b', b'c', b'd', OPCODE_PREFIX, JUMP, 0xF8, 0xFF,
            OPCODE_PREFIX, MATCH,
        ]
    );
    assert_eq!(
        bck,
        vec![
            OPCODE_PREFIX, SPLIT_A, 12, 0, b'd', b'c', b'b', b'a', OPCODE_PREFIX, JUMP, 0xF8, 0xFF,
            OPCODE_PREFIX, MATCH,
        ]
    );
    // No atom comes from the literal itself: those that are returned were
    // found at the repetition, and start at its split.
    for a in atoms.iter() {
        assert_eq!(a.code_loc, Location { fwd: 0, bck_seq_id: 0, bck: 12 });
    }
    let found: Vec<(Vec<u8>, bool)> =
        atoms.iter().map(|a| (a.atom.bytes.clone(), a.atom.exact)).collect();
    assert_eq!(found, vec![(b"abcd".to_vec(), false), (Vec::new(), true)]);
}
