use re_compiler::atoms::{Atom, MAX_ATOMS_PER_REGEXP};
use re_compiler::compiler::Compiler;
use re_compiler::hir::{ByteRange, ClassBytes, Expr, Look, Repetition};
use re_compiler::instr::{
    ANY_BYTE, CLASS_BITMAP, END, JUMP, MASKED_BYTE, MATCH, OPCODE_PREFIX, SPLIT_A, SPLIT_B,
    SPLIT_N, START, WORD_BOUNDARY, WORD_BOUNDARY_NEG,
};
use re_compiler::location::{Error, Location};
use re_compiler::regexp_atoms::RegexpAtom;

const P: u8 = OPCODE_PREFIX;

fn lit(s: &str) -> Expr {
    Expr::Literal(s.as_bytes().to_vec())
}

fn class(ranges: &[(u8, u8)]) -> Expr {
    Expr::Class(ClassBytes {
        ranges: ranges.iter().map(|r| ByteRange { start: r.0, end: r.1 }).collect(),
    })
}

fn rep(min: u32, max: Option<u32>, greedy: bool, sub: Expr) -> Expr {
    Expr::Repetition(Repetition { min, max, greedy, sub: Box::new(sub) })
}

fn try_compile(h: &Expr) -> Result<(Vec<u8>, Vec<u8>, Vec<RegexpAtom>), Error> {
    assert!(h.is_valid());
    Compiler::new()
        .compile(h)
        .map(|(fwd, bck, atoms)| (fwd.into_bytes(), bck.into_bytes(), atoms))
}

fn compile(h: &Expr) -> (Vec<u8>, Vec<u8>, Vec<RegexpAtom>) {
    try_compile(h).unwrap()
}

fn atom(bytes: &[u8], exact: bool, fwd: usize, bck: usize) -> RegexpAtom {
    RegexpAtom {
        atom: Atom { bytes: bytes.to_vec(), exact, backtrack: 0 },
        code_loc: Location { fwd, bck_seq_id: 0, bck },
    }
}

#[test]
fn empty_expression() {
    let (fwd, bck, atoms) = compile(&Expr::Empty);
    assert_eq!(fwd, vec![P, MATCH]);
    assert_eq!(bck, vec![P, MATCH]);
    assert_eq!(atoms, vec![atom(b"", true, 0, 0)]);
}

#[test]
fn repetition_of_zero_times_has_no_code() {
    let (fwd, bck, atoms) = compile(&rep(0, Some(0), true, lit("abcd")));
    assert_eq!(fwd, vec![P, MATCH]);
    assert_eq!(bck, vec![P, MATCH]);
    assert_eq!(atoms, vec![atom(b"", true, 0, 0)]);
}

#[test]
fn literal_with_the_prefix_byte() {
    let (fwd, bck, atoms) = compile(&Expr::Literal(vec![1, P, 2]));
    assert_eq!(fwd, vec![1, P, P, 2, P, MATCH]);
    assert_eq!(bck, vec![2, P, P, 1, P, MATCH]);
    assert_eq!(atoms, vec![atom(&[1, P, 2], true, 0, 4)]);
}

#[test]
fn long_literal_gives_one_atom_of_four_bytes() {
    let (fwd, _bck, atoms) = compile(&lit("abcd1234"));
    assert_eq!(fwd.len(), 10);
    // The atom starts four bytes into the literal: the forward code is
    // entered behind them, the backward code before them.
    assert_eq!(atoms, vec![atom(b"1234", false, 4, 4)]);
}

#[test]
fn literal_of_four_bytes_gives_an_exact_atom() {
    let (_fwd, _bck, atoms) = compile(&lit("wxyz"));
    assert_eq!(atoms, vec![atom(b"wxyz", true, 0, 4)]);
}

#[test]
fn atom_behind_a_prefix_byte() {
    let (_fwd, _bck, atoms) = compile(&Expr::Literal(vec![P, P, b'1', b'2', b'3', b'4']));
    // Two bytes come before the atom, and each takes two bytes of code.
    assert_eq!(atoms, vec![atom(b"1234", false, 4, 4)]);
}

#[test]
fn class_instructions() {
    let (fwd, bck, _) = compile(&class(&[(0, 255)]));
    assert_eq!(fwd, vec![P, ANY_BYTE, P, MATCH]);
    assert_eq!(bck, fwd);
    let (fwd, _, _) = compile(&class(&[(0x40, 0x4F)]));
    assert_eq!(fwd, vec![P, MASKED_BYTE, 0x40, 0xF0, P, MATCH]);
    let (fwd, _, _) = compile(&class(&[(b'a', b'c')]));
    assert_eq!(fwd.len(), 2 + 32 + 2);
    assert_eq!(&fwd[0..2], &[P, CLASS_BITMAP]);
    assert_eq!(fwd[2 + 12], 0b0000_1110);
}

#[test]
fn class_atoms_come_from_the_extractor() {
    let (_fwd, _bck, atoms) = compile(&class(&[(b'a', b'c')]));
    assert_eq!(
        atoms,
        vec![atom(b"a", true, 0, 34), atom(b"b", true, 0, 34), atom(b"c", true, 0, 34)]
    );
}

#[test]
fn look_around_instructions() {
    for (look, opcode) in [
        (Look::Start, START),
        (Look::End, END),
        (Look::WordAscii, WORD_BOUNDARY),
        (Look::WordAsciiNegate, WORD_BOUNDARY_NEG),
    ] {
        let (fwd, bck, atoms) = compile(&Expr::Look(look));
        assert_eq!(fwd, vec![P, opcode, P, MATCH]);
        assert_eq!(bck, fwd);
        assert_eq!(atoms, vec![atom(b"", false, 0, 2)]);
    }
}

#[test]
fn capture_adds_no_code() {
    let (fwd, bck, atoms) = compile(&Expr::Capture(Box::new(lit("ab"))));
    assert_eq!(fwd, vec![b'a', b'b', P, MATCH]);
    assert_eq!(bck, vec![b'b', b'a', P, MATCH]);
    assert_eq!(atoms, vec![atom(b"ab", true, 0, 2)]);
}

#[test]
fn star_greedy_and_lazy() {
    let (fwd, _, _) = compile(&rep(0, None, true, lit("x")));
    assert_eq!(fwd, vec![P, SPLIT_A, 9, 0, b'x', P, JUMP, 0xFB, 0xFF, P, MATCH]);
    let (fwd, _, _) = compile(&rep(0, None, false, lit("x")));
    assert_eq!(fwd, vec![P, SPLIT_B, 9, 0, b'x', P, JUMP, 0xFB, 0xFF, P, MATCH]);
}

#[test]
fn plus_greedy_and_lazy() {
    let (fwd, bck, atoms) = compile(&rep(1, None, true, lit("x")));
    assert_eq!(fwd, vec![b'x', P, SPLIT_B, 0xFF, 0xFF, P, MATCH]);
    assert_eq!(bck, fwd);
    assert_eq!(atoms, vec![atom(b"x", false, 0, 1)]);
    let (fwd, _, _) = compile(&rep(1, None, false, lit("x")));
    assert_eq!(fwd, vec![b'x', P, SPLIT_A, 0xFF, 0xFF, P, MATCH]);
}

#[test]
fn loop_around_nothing_leads_to_itself() {
    let (fwd, _, _) = compile(&rep(1, None, true, Expr::Empty));
    assert_eq!(fwd, vec![P, SPLIT_B, 0, 0, P, MATCH]);
}

#[test]
fn at_least_two() {
    let (fwd, bck, atoms) = compile(&rep(2, None, true, lit("ab")));
    assert_eq!(fwd, vec![b'a', b'b', P, SPLIT_B, 0xFE, 0xFF, b'a', b'b', P, MATCH]);
    assert_eq!(bck, vec![b'b', b'a', P, SPLIT_B, 0xFE, 0xFF, b'b', b'a', P, MATCH]);
    // The atom of the first body is moved behind the split and the copy.
    assert_eq!(atoms, vec![atom(b"ab", false, 0, 2 + 2 + 4)]);
}

#[test]
fn bounded_repetition() {
    let (fwd, bck, atoms) = compile(&rep(2, Some(4), true, lit("x")));
    assert_eq!(
        fwd,
        vec![b'x', b'x', P, SPLIT_A, 10, 0, b'x', P, SPLIT_A, 5, 0, b'x', P, MATCH]
    );
    assert_eq!(bck, fwd);
    // The atom of the first body is moved behind the copy that a match has
    // to pass. The atom that the extractor gives is not better.
    assert_eq!(atoms, vec![atom(b"x", false, 0, 2)]);
    let (fwd, _, _) = compile(&rep(2, Some(4), false, lit("x")));
    assert_eq!(
        fwd,
        vec![b'x', b'x', P, SPLIT_B, 10, 0, b'x', P, SPLIT_B, 5, 0, b'x', P, MATCH]
    );
}

#[test]
fn exact_count() {
    let (fwd, _, atoms) = compile(&rep(3, Some(3), true, lit("ab")));
    assert_eq!(fwd, vec![b'a', b'b', b'a', b'b', b'a', b'b', P, MATCH]);
    // The atom of the first body is moved behind the two copies. The atom
    // that the extractor gives for the repetition is not better.
    assert_eq!(atoms, vec![atom(b"ab", false, 0, 2 + 2 * 2)]);
}

#[test]
fn optional_repetition() {
    let (fwd, bck, atoms) = compile(&rep(0, Some(2), true, lit("x")));
    assert_eq!(fwd, vec![P, SPLIT_A, 10, 0, b'x', P, SPLIT_A, 5, 0, b'x', P, MATCH]);
    assert_eq!(bck, fwd);
    // No atom comes from the body. Those of the repetition start behind
    // its first split.
    assert_eq!(atoms, vec![atom(b"x", false, 4, 10), atom(b"", true, 4, 10)]);
    let (fwd, _, _) = compile(&rep(0, Some(1), true, lit("x")));
    assert_eq!(fwd, vec![P, SPLIT_A, 5, 0, b'x', P, MATCH]);
}

#[test]
fn alternation_code() {
    let (fwd, bck, _) = compile(&Expr::Alternation(vec![lit("a"), lit("bc")]));
    assert_eq!(
        fwd,
        vec![P, SPLIT_N, 2, 7, 0, 12, 0, b'a', P, JUMP, 6, 0, b'b', b'c', P, MATCH]
    );
    assert_eq!(
        bck,
        vec![P, SPLIT_N, 2, 7, 0, 12, 0, b'a', P, JUMP, 6, 0, b'c', b'b', P, MATCH]
    );
}

#[test]
fn alternation_of_one() {
    let (fwd, _, atoms) = compile(&Expr::Alternation(vec![lit("ab")]));
    assert_eq!(fwd, vec![P, SPLIT_N, 1, 5, 0, b'a', b'b', P, MATCH]);
    assert_eq!(atoms, vec![atom(b"ab", true, 0, 7)]);
}

#[test]
fn alternation_of_three() {
    let (fwd, _, atoms) =
        compile(&Expr::Alternation(vec![lit("foo"), lit("bar"), lit("baz")]));
    let expected = vec![
        P, SPLIT_N, 3, 9, 0, 16, 0, 23, 0, b'f', b'o', b'o', P, JUMP, 14, 0, b'b', b'a', b'r', P,
        JUMP, 7, 0, b'b', b'a', b'z', P, MATCH,
    ];
    assert_eq!(fwd, expected);
    assert_eq!(
        atoms,
        vec![atom(b"foo", true, 0, 26), atom(b"bar", true, 0, 26), atom(b"baz", true, 0, 26)]
    );
}

#[test]
fn alternation_below_the_root_keeps_the_atoms_of_its_alternatives() {
    let h = Expr::Capture(Box::new(Expr::Alternation(vec![lit("12"), lit("34")])));
    let (_fwd, _bck, atoms) = compile(&h);
    // At the capture the extractor gives the same atoms, exact: they take
    // the place of those of the alternatives.
    assert_eq!(atoms, vec![atom(b"12", true, 0, 15), atom(b"34", true, 0, 15)]);
}

#[test]
fn concat_puts_the_backward_code_in_reverse_order() {
    let h = Expr::Concat(vec![lit("ab"), class(&[(0, 255)]), lit("cd")]);
    let (fwd, bck, _) = compile(&h);
    assert_eq!(fwd, vec![b'a', b'b', P, ANY_BYTE, b'c', b'd', P, MATCH]);
    assert_eq!(bck, vec![b'd', b'c', P, ANY_BYTE, b'b', b'a', P, MATCH]);
}

#[test]
fn concat_moves_the_atoms_to_where_the_chunks_went() {
    let h = Expr::Concat(vec![lit("1234"), lit("ab")]);
    let (fwd, bck, atoms) = compile(&h);
    assert_eq!(fwd, b"1234ab\xAA\x00".to_vec());
    assert_eq!(bck, b"ba4321\xAA\x00".to_vec());
    assert_eq!(atoms, vec![atom(b"1234", false, 0, 6)]);
}

#[test]
fn concat_takes_atoms_that_start_in_the_middle() {
    let h = Expr::Concat(vec![class(&[(0, 255)]), lit("12"), lit("34")]);
    let (fwd, bck, atoms) = compile(&h);
    assert_eq!(fwd, vec![P, ANY_BYTE, b'1', b'2', b'3', b'4', P, MATCH]);
    assert_eq!(bck, vec![b'4', b'3', b'2', b'1', P, ANY_BYTE, P, MATCH]);
    // The atom starts at the second child: behind the first child in the
    // forward code, before it in the backward code.
    assert_eq!(atoms, vec![atom(b"1234", false, 2, 4)]);
}

#[test]
fn nested_concat() {
    let inner = Expr::Concat(vec![lit("ab"), lit("cd")]);
    let h = Expr::Concat(vec![lit("1"), inner, lit("2")]);
    let (fwd, bck, _) = compile(&h);
    assert_eq!(fwd, b"1abcd2\xAA\x00".to_vec());
    assert_eq!(bck, b"2dcba1\xAA\x00".to_vec());
}

#[test]
fn empty_concat() {
    let (fwd, bck, atoms) = compile(&Expr::Concat(vec![]));
    assert_eq!(fwd, vec![P, MATCH]);
    assert_eq!(bck, vec![P, MATCH]);
    assert_eq!(atoms, vec![]);
}

#[test]
fn repetition_inside_a_concat_moves_its_atoms_twice() {
    let h = Expr::Concat(vec![rep(2, Some(2), true, lit("1234")), lit("z")]);
    let (fwd, bck, atoms) = compile(&h);
    assert_eq!(fwd, b"12341234z\xAA\x00".to_vec());
    assert_eq!(bck, b"z43214321\xAA\x00".to_vec());
    assert_eq!(atoms, vec![atom(b"1234", false, 0, 9)]);
}

#[test]
fn too_large_star() {
    let body = Expr::Literal(vec![b'x'; 32759]);
    assert!(try_compile(&rep(0, None, true, body)).is_ok());
    let body = Expr::Literal(vec![b'x'; 32760]);
    assert_eq!(try_compile(&rep(0, None, true, body)).err(), Some(Error::TooLarge));
}

#[test]
fn too_large_plus() {
    let body = Expr::Literal(vec![b'x'; 32768]);
    assert!(try_compile(&rep(1, None, true, body)).is_ok());
    let body = Expr::Literal(vec![b'x'; 32769]);
    assert_eq!(try_compile(&rep(1, None, true, body)).err(), Some(Error::TooLarge));
    let body = Expr::Literal(vec![b'x'; 32769]);
    assert_eq!(try_compile(&rep(2, None, true, body)).err(), Some(Error::TooLarge));
}

#[test]
fn too_large_bounded_repetition() {
    // 6553 copies of five bytes each are 32765 bytes.
    assert!(try_compile(&rep(0, Some(6553), true, lit("x"))).is_ok());
    assert_eq!(try_compile(&rep(0, Some(6554), true, lit("x"))).err(), Some(Error::TooLarge));
    // Copies that cannot be left out need no offset.
    assert!(try_compile(&rep(7000, Some(7000), true, lit("x"))).is_ok());
}

#[test]
fn too_large_alternation() {
    let long = Expr::Literal(vec![b'x'; 32756]);
    assert!(try_compile(&Expr::Alternation(vec![long, lit("a")])).is_ok());
    let long = Expr::Literal(vec![b'x'; 32757]);
    assert_eq!(
        try_compile(&Expr::Alternation(vec![long, lit("a")])).err(),
        Some(Error::TooLarge)
    );
    let long = Expr::Literal(vec![b'x'; 32763]);
    assert!(try_compile(&Expr::Alternation(vec![lit("a"), long])).is_ok());
    let long = Expr::Literal(vec![b'x'; 32764]);
    assert_eq!(
        try_compile(&Expr::Alternation(vec![lit("a"), long])).err(),
        Some(Error::TooLarge)
    );
}

#[test]
fn too_large_deep_in_the_tree() {
    let body = Expr::Literal(vec![b'x'; 40000]);
    let h = Expr::Concat(vec![lit("a"), Expr::Capture(Box::new(rep(0, None, true, body)))]);
    assert_eq!(try_compile(&h).err(), Some(Error::TooLarge));
}

fn samples() -> Vec<Expr> {
    vec![
        Expr::Empty,
        lit("abcd"),
        lit("a"),
        class(&[(0x20, 0x7e)]),
        Expr::Look(Look::WordAscii),
        Expr::Alternation(vec![lit("foo"), lit("bar"), lit("baz")]),
        rep(3, None, true, lit("xy")),
        rep(0, None, false, lit("abcd")),
        rep(1, Some(3), true, class(&[(b'0', b'9')])),
        Expr::Concat(vec![Expr::Look(Look::Start), lit("quux"), Expr::Look(Look::End)]),
        Expr::Concat(vec![
            lit("ab"),
            Expr::Alternation(vec![
                Expr::Concat(vec![lit("cd"), rep(0, Some(1), true, lit("e"))]),
                Expr::Capture(Box::new(lit("fg"))),
            ]),
            rep(2, None, false, Expr::Concat(vec![lit("h"), class(&[(0, 255)])])),
        ]),
        Expr::Concat(vec![class(&[(0, 255)]), class(&[(0, 255)]), lit("zz")]),
    ]
}

#[test]
fn both_streams_end_with_match() {
    for h in samples() {
        let (fwd, bck, _) = compile(&h);
        assert_eq!(&fwd[fwd.len() - 2..], &[P, MATCH]);
        assert_eq!(&bck[bck.len() - 2..], &[P, MATCH]);
        assert_eq!(fwd.len(), bck.len());
    }
}

#[test]
fn atoms_are_few_and_have_no_backtrack() {
    for h in samples() {
        let (_, _, atoms) = compile(&h);
        assert!(atoms.len() <= MAX_ATOMS_PER_REGEXP);
        assert!(atoms.iter().all(|a| a.atom.backtrack == 0));
    }
}

#[test]
fn no_exact_atom_with_a_look_around() {
    for h in samples() {
        let (_, _, atoms) = compile(&h);
        if atoms.iter().any(|a| a.atom.exact) {
            assert!(!h.contains_look());
        }
    }
}

#[test]
fn atoms_stay_within_the_limit_for_many_alternatives() {
    let alternatives: Vec<Expr> =
        (0..255u32).map(|i| Expr::Literal(format!("{:04}", i).into_bytes())).collect();
    let (_, _, atoms) = compile(&Expr::Alternation(alternatives));
    assert_eq!(atoms.len(), 255);
    assert!(atoms.len() <= MAX_ATOMS_PER_REGEXP);
}

fn mirror(h: &Expr) -> Expr {
    match h {
        Expr::Empty => Expr::Empty,
        Expr::Literal(bytes) => Expr::Literal(bytes.iter().rev().cloned().collect()),
        Expr::Class(c) => Expr::Class(c.clone()),
        Expr::Look(look) => Expr::Look(*look),
        Expr::Capture(sub) => Expr::Capture(Box::new(mirror(sub))),
        Expr::Concat(subs) => Expr::Concat(subs.iter().rev().map(mirror).collect()),
        Expr::Alternation(subs) => Expr::Alternation(subs.iter().map(mirror).collect()),
        Expr::Repetition(r) => rep(r.min, r.max, r.greedy, mirror(&r.sub)),
    }
}

#[test]
fn backward_code_is_the_forward_code_of_the_mirror_image() {
    for h in samples() {
        let (fwd, bck, _) = compile(&h);
        let (mirror_fwd, mirror_bck, _) = compile(&mirror(&h));
        assert_eq!(bck, mirror_fwd);
        assert_eq!(fwd, mirror_bck);
    }
}

#[test]
fn copies_of_a_body_keep_its_offsets() {
    let body = Expr::Alternation(vec![lit("a"), lit("b")]);
    let (once, _, _) = compile(&body);
    let (thrice, _, _) = compile(&rep(3, Some(3), true, body));
    let code = &once[..once.len() - 2];
    assert_eq!(&thrice[..code.len()], code);
    assert_eq!(&thrice[code.len()..2 * code.len()], code);
    assert_eq!(&thrice[2 * code.len()..3 * code.len()], code);
    assert_eq!(thrice.len(), 3 * code.len() + 2);
}

#[test]
fn no_jump_is_left_without_its_offset() {
    let h = Expr::Concat(vec![
        rep(0, None, true, lit("a")),
        Expr::Alternation(vec![lit("b"), lit("c"), lit("d")]),
        rep(1, Some(3), true, lit("e")),
    ]);
    let (fwd, _, _) = compile(&h);
    let expected = vec![
        P, SPLIT_A, 9, 0, b'a', P, JUMP, 0xFB, 0xFF, P, SPLIT_N, 3, 9, 0, 14, 0, 19, 0, b'b', P,
        JUMP, 10, 0, b'c', P, JUMP, 5, 0, b'd', b'e', P, SPLIT_A, 10, 0, b'e', P, SPLIT_A, 5, 0,
        b'e', P, MATCH,
    ];
    assert_eq!(fwd, expected);
}

fn contains(haystack: &[u8], needle: &[u8]) -> bool {
    needle.is_empty() || haystack.windows(needle.len()).any(|w| w == needle)
}

#[test]
fn every_match_holds_an_atom() {
    let cases: Vec<(Expr, Vec<&[u8]>)> = vec![
        (lit("abcd1234"), vec![b"abcd1234"]),
        (
            Expr::Alternation(vec![lit("foo"), lit("bar"), lit("baz")]),
            vec![b"foo", b"bar", b"baz"],
        ),
        (
            Expr::Concat(vec![lit("a"), class(&[(0x20, 0x7e)]), lit("z")]),
            vec![b"a z", b"aAz", b"a~z"],
        ),
        (rep(3, None, true, lit("xy")), vec![b"xyxyxy", b"xyxyxyxy"]),
        (rep(0, None, true, lit("abcd")), vec![b"", b"abcd", b"abcdabcd"]),
        (
            Expr::Concat(vec![lit("12"), rep(0, Some(1), true, lit("x")), lit("34")]),
            vec![b"1234", b"12x34"],
        ),
    ];
    for (h, matches) in cases {
        let (_, _, atoms) = compile(&h);
        assert!(!atoms.is_empty());
        for m in matches {
            assert!(atoms.iter().any(|a| contains(m, &a.atom.bytes)));
        }
    }
}

#[test]
fn an_exact_atom_is_a_match() {
    // Where the atoms are exact, they are the whole matches.
    let h = Expr::Alternation(vec![lit("foo"), lit("bar")]);
    let (_, _, atoms) = compile(&h);
    let found: Vec<Vec<u8>> = atoms.iter().filter(|a| a.atom.exact).map(|a| a.atom.bytes.clone()).collect();
    assert_eq!(found, vec![b"foo".to_vec(), b"bar".to_vec()]);
    // A literal that is longer than its atom is not matched by the atom
    // alone: the atom is inexact.
    let (_, _, atoms) = compile(&lit("foobar"));
    assert!(atoms.iter().all(|a| !a.atom.exact));
}

/// Reads code as the virtual machine does: returns the offset of each
/// instruction, the destinations of all jumps and splits, and the number of
/// `MATCH` instructions.
fn read(code: &[u8]) -> (Vec<usize>, Vec<i64>, usize) {
    let mut starts = Vec::new();
    let mut targets = Vec::new();
    let mut matches = 0;
    let mut pc = 0;
    while pc < code.len() {
        starts.push(pc);
        if code[pc] != P || code[pc + 1] == P {
            pc += if code[pc] == P { 2 } else { 1 };
            continue;
        }
        let offset = |at: usize| i16::from_le_bytes([code[at], code[at + 1]]) as i64;
        match code[pc + 1] {
            MATCH => {
                matches += 1;
                pc += 2;
            }
            JUMP | SPLIT_A | SPLIT_B => {
                targets.push(pc as i64 + offset(pc + 2));
                pc += 4;
            }
            SPLIT_N => {
                let n = code[pc + 2] as usize;
                for k in 0..n {
                    targets.push(pc as i64 + offset(pc + 3 + 2 * k));
                }
                pc += 3 + 2 * n;
            }
            MASKED_BYTE => pc += 4,
            CLASS_BITMAP => pc += 34,
            _ => pc += 2,
        }
    }
    (starts, targets, matches)
}

#[test]
fn every_branch_leads_to_an_instruction() {
    for h in samples() {
        let (fwd, bck, _) = compile(&h);
        for code in [fwd, bck] {
            let (starts, targets, _) = read(&code);
            for t in targets {
                assert!(t >= 0);
                assert!(starts.contains(&(t as usize)));
            }
        }
    }
}

#[test]
fn one_match_and_it_is_the_last_instruction() {
    for h in samples() {
        let (fwd, bck, _) = compile(&h);
        for code in [fwd, bck] {
            let (starts, _, matches) = read(&code);
            assert_eq!(matches, 1);
            assert_eq!(*starts.last().unwrap(), code.len() - 2);
        }
    }
}
