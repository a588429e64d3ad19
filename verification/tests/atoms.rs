use re_compiler::atoms::{
    best_atom_from_slice, quality_of_range, Atom, DESIRED_ATOM_SIZE, MAX_ATOMS_PER_REGEXP,
};
use re_compiler::location::Location;
use re_compiler::regexp_atoms::{RegexpAtom, RegexpAtoms};

#[test]
fn constants() {
    assert_eq!(DESIRED_ATOM_SIZE, 4);
    assert_eq!(MAX_ATOMS_PER_REGEXP, 4096);
}

#[test]
fn quality_adds_up_the_byte_values_that_occur() {
    assert_eq!(Atom::exact(b"".to_vec()).quality(), 0);
    assert_eq!(Atom::exact(b"a".to_vec()).quality(), 18);
    assert_eq!(Atom::exact(b"abcd".to_vec()).quality(), 72);
    assert_eq!(Atom::exact(b"1234".to_vec()).quality(), 88);
    assert_eq!(Atom::exact(b"a1".to_vec()).quality(), 40);
    assert_eq!(Atom::exact(vec![0x01, 0x02]).quality(), 40);
}

#[test]
fn quality_is_low_for_common_bytes() {
    assert_eq!(Atom::exact(vec![0x00, 0x20]).quality(), 24);
    assert_eq!(Atom::exact(vec![0x90, 0xCC, 0xFF]).quality(), 36);
}

#[test]
fn quality_counts_a_repeated_byte_once() {
    assert_eq!(Atom::exact(b"aaaa".to_vec()).quality(), 18);
    assert_eq!(Atom::exact(b"xyxy".to_vec()).quality(), Atom::exact(b"xy".to_vec()).quality());
    assert_eq!(Atom::exact(b"abca".to_vec()).quality(), 54);
}

#[test]
fn quality_of_range_looks_at_the_range_only() {
    assert_eq!(quality_of_range(b"ab12cd", 2, 4), 44);
    assert_eq!(quality_of_range(b"ab12cd", 3, 3), 0);
    assert_eq!(quality_of_range(b"aab", 1, 3), 36);
}

#[test]
fn best_atom_prefers_digits_over_letters() {
    let atom = best_atom_from_slice(b"abcd1234", 4);
    assert_eq!(atom.bytes, b"1234".to_vec());
    assert_eq!(atom.backtrack, 4);
    assert!(!atom.exact);
}

#[test]
fn best_atom_avoids_common_bytes() {
    let atom = best_atom_from_slice(&[0, 0, 0, 0, 1, 2, 3, 4, 0, 0], 4);
    assert_eq!(atom.bytes, vec![1, 2, 3, 4]);
    assert_eq!(atom.backtrack(), 4);
}

#[test]
fn best_atom_is_the_first_of_the_best() {
    let atom = best_atom_from_slice(b"abcdefgh", 4);
    assert_eq!(atom.bytes, b"abcd".to_vec());
    assert_eq!(atom.backtrack, 0);
    assert!(!atom.is_exact());
}

#[test]
fn best_atom_of_a_short_slice_is_the_slice() {
    let atom = best_atom_from_slice(b"ab", 4);
    assert_eq!(atom.as_bytes(), b"ab");
    assert_eq!(atom.len(), 2);
    assert_eq!(atom.backtrack, 0);
    assert!(atom.exact);
    let empty = best_atom_from_slice(b"", 4);
    assert_eq!(empty.len(), 0);
    assert!(empty.exact);
}

#[test]
fn best_atom_of_the_desired_size_is_exact() {
    let atom = best_atom_from_slice(b"abcd", 4);
    assert_eq!(atom, Atom { bytes: b"abcd".to_vec(), exact: true, backtrack: 0 });
}

#[test]
fn from_slice_range_cuts_at_the_end() {
    let atom = Atom::from_slice_range(b"abcdef", 4, 4);
    assert_eq!(atom, Atom { bytes: b"ef".to_vec(), exact: false, backtrack: 4 });
    let whole = Atom::from_slice_range(b"abc", 0, 3);
    assert_eq!(whole, Atom { bytes: b"abc".to_vec(), exact: true, backtrack: 0 });
}

#[test]
fn atom_setters() {
    let mut atom = Atom::inexact(b"ab".to_vec());
    assert!(!atom.is_exact());
    atom.set_exact(true);
    atom.set_backtrack(3);
    assert_eq!(atom, Atom { bytes: b"ab".to_vec(), exact: true, backtrack: 3 });
}

fn located(bytes: &[u8], exact: bool, id: u64, bck: usize) -> RegexpAtom {
    RegexpAtom {
        atom: Atom { bytes: bytes.to_vec(), exact, backtrack: 0 },
        code_loc: Location { fwd: 1, bck_seq_id: id, bck },
    }
}

#[test]
fn empty_list_has_the_lowest_quality() {
    let atoms = RegexpAtoms::empty();
    assert_eq!(atoms.len(), 0);
    assert_eq!(atoms.min_quality, i32::MIN);
    assert_eq!(atoms.exact_atoms, 0);
}

#[test]
fn make_inexact_clears_every_flag() {
    let mut atoms = RegexpAtoms {
        atoms: vec![located(b"ab", true, 0, 0), located(b"cd", false, 0, 0)],
        min_quality: 36,
        exact_atoms: 1,
    };
    atoms.make_inexact();
    assert_eq!(atoms.len(), 2);
    assert_eq!(atoms.exact_atoms, 0);
    assert_eq!(atoms.min_quality, 36);
    assert_eq!(atoms.atoms, vec![located(b"ab", false, 0, 0), located(b"cd", false, 0, 0)]);
}

#[test]
fn iter_mut_hands_out_the_atoms() {
    let mut atoms = RegexpAtoms {
        atoms: vec![located(b"ab", true, 0, 0)],
        min_quality: 36,
        exact_atoms: 1,
    };
    for atom in atoms.iter_mut().iter_mut() {
        atom.code_loc.bck += 5;
    }
    assert_eq!(atoms.atoms, vec![located(b"ab", true, 0, 5)]);
}

#[test]
fn shift_bck_moves_the_atoms_of_one_sequence() {
    let mut atoms = RegexpAtoms {
        atoms: vec![located(b"a", false, 1, 4), located(b"b", false, 1, 2), located(b"c", false, 2, 9)],
        min_quality: 18,
        exact_atoms: 0,
    };
    atoms.shift_bck(1, 3, 10);
    assert_eq!(
        atoms.atoms,
        vec![located(b"a", false, 1, 14), located(b"b", false, 1, 2), located(b"c", false, 2, 9)]
    );
}

#[test]
fn relocate_moves_the_atoms_of_the_chunks() {
    let mut atoms = RegexpAtoms {
        atoms: vec![located(b"a", false, 3, 1), located(b"b", false, 4, 2), located(b"c", false, 2, 9), located(b"d", false, 5, 0)],
        min_quality: 18,
        exact_atoms: 0,
    };
    atoms.relocate(2, &vec![100, 50]);
    assert_eq!(
        atoms.atoms,
        vec![located(b"a", false, 2, 101), located(b"b", false, 2, 52), located(b"c", false, 2, 9), located(b"d", false, 5, 0)]
    );
}
