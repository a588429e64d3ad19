use regex_syntax::hir::literal;
use regex_syntax::hir::literal::Literal;

use re_compiler::atoms::Atom;
use re_compiler::hir::{ByteRange, ClassBytes, Expr, Look, Repetition};
use re_compiler::literal_seq::{
    concat_seq, extract_literals, seq_quality, seq_to_atoms, simplify_seq, SeqQuality,
};

fn exact(s: &[&str]) -> literal::Seq {
    literal::Seq::new(s.iter().map(|x| x.as_bytes()))
}

fn literals(seq: &literal::Seq) -> Vec<(Vec<u8>, bool)> {
    seq.literals().unwrap().iter().map(|l| (l.as_bytes().to_vec(), l.is_exact())).collect()
}

fn any_byte() -> literal::Seq {
    literal::Seq::new((0..=255u8).map(|b| vec![b]))
}

fn lit(s: &str) -> Expr {
    Expr::Literal(s.as_bytes().to_vec())
}

#[test]
fn simplify_collapses_literals_that_differ_in_their_last_byte() {
    let seq = literal::Seq::new((0..=255u8).map(|b| vec![7u8, 9u8, b]));
    let simple = simplify_seq(seq);
    assert_eq!(literals(&simple), vec![(vec![7u8, 9u8], false)]);
}

#[test]
fn simplify_leaves_other_sequences_as_they_are() {
    let few = exact(&["ab", "ac"]);
    assert_eq!(simplify_seq(few.clone()), few);
    let single_bytes = any_byte();
    assert_eq!(simplify_seq(single_bytes.clone()), single_bytes);
    let no_common_prefix = literal::Seq::new((0..=255u8).map(|b| vec![b, 1u8]));
    assert_eq!(simplify_seq(no_common_prefix.clone()), no_common_prefix);
    assert_eq!(simplify_seq(literal::Seq::infinite()), literal::Seq::infinite());
    assert_eq!(simplify_seq(literal::Seq::empty()), literal::Seq::empty());
}

#[test]
fn simplify_needs_the_prefix_to_be_one_byte_shorter() {
    // The literals start with the same byte, and the longest has three.
    let seq = literal::Seq::new((0..=255u8).map(|b| if b == 0 { vec![5u8, b, b] } else { vec![5u8, b] }));
    assert_eq!(simplify_seq(seq.clone()), seq);
}

#[test]
fn concat_crosses_the_sequences() {
    let seqs = vec![exact(&["ab"]), exact(&["cd", "ef"])];
    let seq = concat_seq(&seqs).unwrap();
    assert_eq!(literals(&seq), vec![(b"abcd".to_vec(), true), (b"abef".to_vec(), true)]);
}

#[test]
fn concat_of_nothing_is_the_empty_literal() {
    let seq = concat_seq(&[]).unwrap();
    assert_eq!(literals(&seq), vec![(Vec::new(), true)]);
}

#[test]
fn concat_gives_nothing_for_a_useless_first_sequence() {
    assert!(concat_seq(&[literal::Seq::infinite(), exact(&["ab"])]).is_none());
    assert!(concat_seq(&[any_byte(), exact(&["ab"])]).is_none());
    assert!(concat_seq(&[any_byte()]).is_none());
}

#[test]
fn concat_takes_at_most_four_sequences() {
    let seqs = vec![exact(&["a"]), exact(&["b"]), exact(&["c"]), exact(&["d"]), exact(&["e"])];
    let seq = concat_seq(&seqs).unwrap();
    assert_eq!(literals(&seq), vec![(b"abcd".to_vec(), false)]);
    let four = concat_seq(&seqs[0..4]).unwrap();
    assert_eq!(literals(&four), vec![(b"abcd".to_vec(), true)]);
}

#[test]
fn concat_leaves_out_a_trailing_wildcard() {
    let seqs = vec![exact(&["ab"]), any_byte()];
    let seq = concat_seq(&seqs).unwrap();
    assert_eq!(literals(&seq), vec![(b"ab".to_vec(), false)]);
}

#[test]
fn concat_crosses_a_wildcard_in_the_middle() {
    let seqs = vec![exact(&["a"]), any_byte(), exact(&["z"])];
    let seq = concat_seq(&seqs).unwrap();
    let lits = literals(&seq);
    assert_eq!(lits.len(), 256);
    assert_eq!(lits[0], (vec![b'a', 0, b'z'], true));
    assert_eq!(lits[255], (vec![b'a', 255, b'z'], true));
}

#[test]
fn concat_stops_before_an_infinite_sequence() {
    let seqs = vec![exact(&["ab"]), literal::Seq::infinite(), exact(&["cd"])];
    let seq = concat_seq(&seqs).unwrap();
    assert_eq!(literals(&seq), vec![(b"ab".to_vec(), false)]);
}

#[test]
fn concat_stops_before_too_many_literals() {
    let hundred: Vec<String> = (0..100).map(|i| format!("{:02}", i)).collect();
    let many = literal::Seq::new(hundred.iter().map(|s| s.as_bytes()));
    let seqs = vec![many.clone(), many.clone()];
    let seq = concat_seq(&seqs).unwrap();
    let lits = literals(&seq);
    assert_eq!(lits.len(), 100);
    assert_eq!(lits[0], (b"00".to_vec(), false));
    assert_eq!(lits[99], (b"99".to_vec(), false));
    let sixty_four: Vec<String> = (0..64).map(|i| format!("{:02}", i)).collect();
    let fits = literal::Seq::new(sixty_four.iter().map(|s| s.as_bytes()));
    let product = concat_seq(&[fits.clone(), fits]).unwrap();
    assert_eq!(literals(&product).len(), 4096);
}

#[test]
fn concat_stops_once_nothing_is_exact() {
    let seqs = vec![literal::Seq::singleton(Literal::inexact("ab")), exact(&["cd"])];
    let seq = concat_seq(&seqs).unwrap();
    assert_eq!(literals(&seq), vec![(b"ab".to_vec(), false)]);
}

#[test]
fn concat_cuts_and_merges_the_literals() {
    let seqs = vec![exact(&["abc"]), exact(&["de", "df"])];
    let seq = concat_seq(&seqs).unwrap();
    assert_eq!(literals(&seq), vec![(b"abcd".to_vec(), false)]);
}

#[test]
fn concat_simplifies_its_result() {
    let seqs = vec![exact(&["abc"]), any_byte(), exact(&["z"])];
    let seq = concat_seq(&seqs).unwrap();
    assert_eq!(literals(&seq), vec![(b"abc".to_vec(), false)]);
}

#[test]
fn atoms_of_a_finite_sequence() {
    let mut seq = exact(&["ab", "cd"]);
    seq.push(Literal::inexact("ef"));
    let atoms = seq_to_atoms(seq).unwrap();
    assert_eq!(
        atoms,
        vec![
            Atom { bytes: b"ab".to_vec(), exact: true, backtrack: 0 },
            Atom { bytes: b"cd".to_vec(), exact: true, backtrack: 0 },
            Atom { bytes: b"ef".to_vec(), exact: false, backtrack: 0 },
        ]
    );
    assert_eq!(seq_to_atoms(literal::Seq::empty()), Some(vec![]));
}

#[test]
fn no_atoms_of_an_infinite_sequence() {
    assert_eq!(seq_to_atoms(literal::Seq::infinite()), None);
}

#[test]
fn quality_of_a_sequence_is_that_of_its_worst_literal() {
    assert_eq!(
        seq_quality(&exact(&["abcd", "12"])),
        Some(SeqQuality { min_atom_quality: 44, seq_len: 2 })
    );
    assert_eq!(
        seq_quality(&exact(&["1234"])),
        Some(SeqQuality { min_atom_quality: 88, seq_len: 1 })
    );
    assert_eq!(seq_quality(&exact(&[""])), Some(SeqQuality { min_atom_quality: 0, seq_len: 1 }));
}

#[test]
fn no_quality_without_literals() {
    assert_eq!(seq_quality(&literal::Seq::infinite()), None);
    assert_eq!(seq_quality(&literal::Seq::empty()), None);
}

#[test]
fn better_quality() {
    let low = SeqQuality { min_atom_quality: 10, seq_len: 1 };
    let high = SeqQuality { min_atom_quality: 20, seq_len: 9 };
    let high_and_few = SeqQuality { min_atom_quality: 20, seq_len: 2 };
    assert!(high.better_than(&low));
    assert!(!low.better_than(&high));
    assert!(high_and_few.better_than(&high));
    assert!(!high.better_than(&high_and_few));
    assert!(!high.better_than(&high));
    assert!(low.better_than(&SeqQuality::min()));
    assert_eq!(SeqQuality::min(), SeqQuality { min_atom_quality: i32::MIN, seq_len: usize::MAX });
}

#[test]
fn extract_cuts_a_literal_to_the_atom_size() {
    assert_eq!(literals(&extract_literals(&lit("ab"))), vec![(b"ab".to_vec(), true)]);
    assert_eq!(literals(&extract_literals(&lit("abcdef"))), vec![(b"abcd".to_vec(), false)]);
}

#[test]
fn extract_enumerates_a_class() {
    let class = Expr::Class(ClassBytes { ranges: vec![ByteRange { start: b'a', end: b'c' }] });
    assert_eq!(
        literals(&extract_literals(&class)),
        vec![(b"a".to_vec(), true), (b"b".to_vec(), true), (b"c".to_vec(), true)]
    );
    let all = Expr::Class(ClassBytes { ranges: vec![ByteRange { start: 0, end: 255 }] });
    assert_eq!(literals(&extract_literals(&all)).len(), 256);
}

#[test]
fn extract_follows_the_structure() {
    let alt = Expr::Alternation(vec![lit("foo"), lit("bar")]);
    assert_eq!(
        literals(&extract_literals(&alt)),
        vec![(b"foo".to_vec(), true), (b"bar".to_vec(), true)]
    );
    let concat = Expr::Concat(vec![Expr::Capture(Box::new(lit("ab"))), alt]);
    assert_eq!(
        literals(&extract_literals(&concat)),
        vec![(b"abfo".to_vec(), false), (b"abba".to_vec(), false)]
    );
    assert_eq!(literals(&extract_literals(&Expr::Empty)), vec![(Vec::new(), true)]);
    assert_eq!(literals(&extract_literals(&Expr::Look(Look::Start))), vec![(Vec::new(), true)]);
}

#[test]
fn extract_from_repetitions() {
    let star = Expr::Repetition(Repetition {
        min: 0,
        max: None,
        greedy: true,
        sub: Box::new(lit("ab")),
    });
    assert_eq!(
        literals(&extract_literals(&star)),
        vec![(b"ab".to_vec(), false), (Vec::new(), true)]
    );
    let lazy = Expr::Repetition(Repetition {
        min: 0,
        max: None,
        greedy: false,
        sub: Box::new(lit("ab")),
    });
    assert_eq!(
        literals(&extract_literals(&lazy)),
        vec![(Vec::new(), true), (b"ab".to_vec(), false)]
    );
    let twice = Expr::Repetition(Repetition {
        min: 2,
        max: Some(2),
        greedy: true,
        sub: Box::new(lit("ab")),
    });
    assert_eq!(literals(&extract_literals(&twice)), vec![(b"abab".to_vec(), true)]);
}
