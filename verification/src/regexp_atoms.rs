//! Atoms together with the place in the code at which the virtual machine
//! starts when one of them is found, and lists of such atoms with a
//! summary of their quality.

use vstd::prelude::*;
use crate::atoms::{Atom, AtomView, MAX_ATOMS_PER_REGEXP};
use crate::literal_seq::min_quality;
use crate::location::Location;

verus! {

/// An atom and the location of the code that verifies a match once the
/// atom was found: forward from `code_loc.fwd`, backward from
/// `code_loc.bck`.
#[derive(Debug, PartialEq, Eq)]
pub struct RegexpAtom {
    pub atom: Atom,
    pub code_loc: Location,
}

/// The mathematical value of a `RegexpAtom`.
pub struct RegexpAtomView {
    pub atom: AtomView,
    pub code_loc: Location,
}

impl View for RegexpAtom {
    type V = RegexpAtomView;

    open spec fn view(&self) -> RegexpAtomView {
        RegexpAtomView { atom: self.atom@, code_loc: self.code_loc }
    }
}

/// A list of atoms with the quality of the worst of them and the number of
/// exact ones.
pub struct RegexpAtoms {
    pub atoms: Vec<RegexpAtom>,
    /// Quality of the lowest quality atom.
    pub min_quality: i32,
    /// Number of atoms in the list that are exact.
    pub exact_atoms: usize,
}

/// The mathematical value of a `RegexpAtoms`.
pub struct Frame {
    pub atoms: Seq<RegexpAtomView>,
    pub min_quality: i32,
    pub exact_atoms: usize,
}

impl View for RegexpAtoms {
    type V = Frame;

    open spec fn view(&self) -> Frame {
        Frame {
            atoms: Seq::new(self.atoms@.len(), |i: int| self.atoms@[i]@),
            min_quality: self.min_quality,
            exact_atoms: self.exact_atoms,
        }
    }
}

/// The atom with its exact flag cleared.
pub open spec fn inexact_atom(a: RegexpAtomView) -> RegexpAtomView {
    RegexpAtomView { atom: AtomView { exact: false, ..a.atom }, code_loc: a.code_loc }
}

/// The atom moved in the backward code by `by` bytes, if it stands in the
/// sequence `id` at or behind `from`; else the atom itself.
pub open spec fn shifted_atom(a: RegexpAtomView, id: u64, from: usize, by: usize) -> RegexpAtomView {
    if a.code_loc.bck_seq_id == id && a.code_loc.bck >= from {
        RegexpAtomView {
            atom: a.atom,
            code_loc: Location { bck: (a.code_loc.bck + by) as usize, ..a.code_loc },
        }
    } else {
        a
    }
}

/// The atom moved from a chunk to its place in the sequence `parent`, if
/// it stands in one of the chunks `parent + 1`, `parent + 2`, ... whose
/// first bytes went to the offsets `starts`; else the atom itself.
pub open spec fn relocated_atom(a: RegexpAtomView, parent: u64, starts: Seq<usize>) -> RegexpAtomView {
    if parent < a.code_loc.bck_seq_id && a.code_loc.bck_seq_id - parent <= starts.len() {
        RegexpAtomView {
            atom: a.atom,
            code_loc: Location {
                fwd: a.code_loc.fwd,
                bck_seq_id: parent,
                bck: (a.code_loc.bck + starts[a.code_loc.bck_seq_id - parent - 1]) as usize,
            },
        }
    } else {
        a
    }
}

impl Frame {
    /// The frame without atoms.
    pub open spec fn empty() -> Frame {
        Frame { atoms: Seq::empty(), min_quality: i32::MIN, exact_atoms: 0 }
    }

    /// The frame with every atom made inexact.
    pub open spec fn made_inexact(self) -> Frame {
        Frame {
            atoms: Seq::new(self.atoms.len(), |i: int| inexact_atom(self.atoms[i])),
            min_quality: self.min_quality,
            exact_atoms: 0,
        }
    }

    /// The frame with its atoms moved as `shifted_atom` says.
    pub open spec fn shifted(self, id: u64, from: usize, by: usize) -> Frame {
        Frame {
            atoms: Seq::new(self.atoms.len(), |i: int| shifted_atom(self.atoms[i], id, from, by)),
            ..self
        }
    }

    /// The frame with its atoms moved as `relocated_atom` says.
    pub open spec fn relocated(self, parent: u64, starts: Seq<usize>) -> Frame {
        Frame {
            atoms: Seq::new(self.atoms.len(), |i: int| relocated_atom(self.atoms[i], parent, starts)),
            ..self
        }
    }

    /// The frame that holds the atoms of both frames, with the lower of
    /// their qualities.
    pub open spec fn joined(self, other: Frame) -> Frame {
        Frame {
            atoms: self.atoms + other.atoms,
            min_quality: if other.min_quality < self.min_quality {
                other.min_quality
            } else {
                self.min_quality
            },
            exact_atoms: (self.exact_atoms + other.exact_atoms) as usize,
        }
    }

    /// True if every atom stands in one of the backward sequences `bck`,
    /// at an offset within it.
    pub open spec fn located(self, bck: Seq<Seq<u8>>) -> bool {
        forall|i: int|
            0 <= i < self.atoms.len() ==> (#[trigger] self.atoms[i]).code_loc.bck_seq_id
                < bck.len() && self.atoms[i].code_loc.bck
                <= bck[self.atoms[i].code_loc.bck_seq_id as int].len()
    }

    /// True if the frame is within the limit on the number of atoms, none
    /// of its atoms has a backtrack, and it counts no more exact atoms than
    /// it has atoms.
    pub open spec fn bounded(self) -> bool {
        &&& self.atoms.len() <= MAX_ATOMS_PER_REGEXP
        &&& self.exact_atoms <= self.atoms.len()
        &&& forall|i: int| 0 <= i < self.atoms.len() ==> (#[trigger] self.atoms[i]).atom.backtrack == 0
    }

    /// True if no atom of the frame is exact.
    pub open spec fn inexact(self) -> bool {
        &&& self.exact_atoms == 0
        &&& forall|i: int| 0 <= i < self.atoms.len() ==> !(#[trigger] self.atoms[i]).atom.exact
    }

    /// The atoms of the frame without their locations.
    pub open spec fn plain_atoms(self) -> Seq<AtomView> {
        Seq::new(self.atoms.len(), |i: int| self.atoms[i].atom)
    }
}

impl RegexpAtoms {
    /// Creates a new empty list of atoms, of the lowest quality there is.
    pub fn empty() -> (r: RegexpAtoms)
        ensures
            r@ == Frame::empty(),
    {
        let r = RegexpAtoms { atoms: Vec::new(), min_quality: i32::MIN, exact_atoms: 0 };
        assert(r@.atoms =~= Seq::empty());
        r
    }

    /// Number of atoms in the list.
    pub fn len(&self) -> (n: usize)
        ensures
            n == self@.atoms.len(),
    {
        self.atoms.len()
    }

    /// Makes all the atoms in the list inexact.
    pub fn make_inexact(&mut self)
        ensures
            final(self)@ == old(self)@.made_inexact(),
    {
        self.exact_atoms = 0;
        let n = self.atoms.len();
        let mut i: usize = 0;
        while i < n
            invariant
                i <= n,
                n == old(self).atoms@.len(),
                self.atoms@.len() == n,
                self.min_quality == old(self).min_quality,
                self.exact_atoms == 0,
                forall|j: int| 0 <= j < i ==> (#[trigger] self.atoms@[j])@ == inexact_atom(old(self).atoms@[j]@),
                forall|j: int| i <= j < n ==> (#[trigger] self.atoms@[j]) == old(self).atoms@[j],
            decreases n - i,
        {
            self.atoms[i].atom.set_exact(false);
            i += 1;
        }
        assert(self@.atoms =~= old(self)@.made_inexact().atoms);
    }

    /// Moves the atoms that stand in the backward sequence `id`, at or
    /// behind `from`, by `by` bytes.
    pub fn shift_bck(&mut self, id: u64, from: usize, by: usize)
        requires
            forall|i: int|
                0 <= i < old(self)@.atoms.len() && (#[trigger] old(self)@.atoms[i]).code_loc.bck_seq_id
                    == id ==> old(self)@.atoms[i].code_loc.bck + by <= usize::MAX,
        ensures
            final(self)@ == old(self)@.shifted(id, from, by),
    {
        let n = self.atoms.len();
        let mut i: usize = 0;
        while i < n
            invariant
                i <= n,
                n == old(self).atoms@.len(),
                self.atoms@.len() == n,
                self.min_quality == old(self).min_quality,
                self.exact_atoms == old(self).exact_atoms,
                forall|k: int|
                    0 <= k < old(self)@.atoms.len() && (#[trigger] old(
                        self,
                    )@.atoms[k]).code_loc.bck_seq_id == id ==> old(self)@.atoms[k].code_loc.bck
                        + by <= usize::MAX,
                forall|j: int|
                    0 <= j < i ==> (#[trigger] self.atoms@[j])@ == shifted_atom(
                        old(self).atoms@[j]@,
                        id,
                        from,
                        by,
                    ),
                forall|j: int| i <= j < n ==> (#[trigger] self.atoms@[j]) == old(self).atoms@[j],
            decreases n - i,
        {
            assert(old(self)@.atoms[i as int] == old(self).atoms@[i as int]@);
            assert(self.atoms@[i as int] == old(self).atoms@[i as int]);
            let loc = self.atoms[i].code_loc;
            if loc.bck_seq_id == id && loc.bck >= from {
                self.atoms[i].code_loc.bck = loc.bck + by;
            }
            i += 1;
        }
        assert(self@.atoms =~= old(self)@.shifted(id, from, by).atoms);
    }

    /// Moves the atoms that stand in one of the chunks `parent + 1`,
    /// `parent + 2`, ... to the sequence `parent`, into which the chunks
    /// were copied at the offsets `starts`.
    pub fn relocate(&mut self, parent: u64, starts: &Vec<usize>)
        requires
            forall|i: int|
                0 <= i < old(self)@.atoms.len() && parent < (#[trigger] old(
                    self,
                )@.atoms[i]).code_loc.bck_seq_id && old(self)@.atoms[i].code_loc.bck_seq_id
                    - parent <= starts@.len() ==> old(self)@.atoms[i].code_loc.bck
                    + starts@[old(self)@.atoms[i].code_loc.bck_seq_id - parent - 1]
                    <= usize::MAX,
        ensures
            final(self)@ == old(self)@.relocated(parent, starts@),
    {
        let n = self.atoms.len();
        let count = starts.len();
        let mut i: usize = 0;
        while i < n
            invariant
                i <= n,
                n == old(self).atoms@.len(),
                count == starts@.len(),
                self.atoms@.len() == n,
                self.min_quality == old(self).min_quality,
                self.exact_atoms == old(self).exact_atoms,
                forall|k: int|
                    0 <= k < old(self)@.atoms.len() && parent < (#[trigger] old(
                        self,
                    )@.atoms[k]).code_loc.bck_seq_id && old(self)@.atoms[k].code_loc.bck_seq_id
                        - parent <= starts@.len() ==> old(self)@.atoms[k].code_loc.bck
                        + starts@[old(self)@.atoms[k].code_loc.bck_seq_id - parent - 1]
                        <= usize::MAX,
                forall|j: int|
                    0 <= j < i ==> (#[trigger] self.atoms@[j])@ == relocated_atom(
                        old(self).atoms@[j]@,
                        parent,
                        starts@,
                    ),
                forall|j: int| i <= j < n ==> (#[trigger] self.atoms@[j]) == old(self).atoms@[j],
            decreases n - i,
        {
            assert(old(self)@.atoms[i as int] == old(self).atoms@[i as int]@);
            assert(self.atoms@[i as int] == old(self).atoms@[i as int]);
            let loc = self.atoms[i].code_loc;
            let id = loc.bck_seq_id;
            if parent < id && id - parent <= count as u64 {
                let start = starts[(id - parent - 1) as usize];
                self.atoms[i].code_loc = Location {
                    fwd: loc.fwd,
                    bck_seq_id: parent,
                    bck: loc.bck + start,
                };
            }
            i += 1;
        }
        assert(self@.atoms =~= old(self)@.relocated(parent, starts@).atoms);
    }

    /// The atoms of the list, for the caller to change.
    pub fn iter_mut(&mut self) -> (r: &mut Vec<RegexpAtom>)
        ensures
            *r == old(self).atoms,
            final(self).atoms == *final(r),
            final(self).min_quality == old(self).min_quality,
            final(self).exact_atoms == old(self).exact_atoms,
    {
        &mut self.atoms
    }
}

} // verus!
