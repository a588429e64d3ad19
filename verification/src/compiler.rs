//! The compiler proper: a walk over the expression that emits the forward
//! and the backward code at once and picks the atoms on the way.

use vstd::prelude::*;
use vstd::slice::slice_subrange;
use crate::atoms::{
    best_atom_from_slice, window, Atom, AtomView, DESIRED_ATOM_SIZE, MAX_ATOMS_PER_REGEXP,
};
use crate::code::{
    all_fit, alt_code, alt_fits, alt_offsets, alt_start, alt_tail, back_split, bck_bodies,
    bck_code, bck_concat, block, class_node_code, fits, fwd_bodies, fwd_code, fwd_concat,
    lemma_alt_patch_step, lemma_alt_start, lemma_alt_total, lemma_bck_concat_spliced,
    lemma_bodies_len, lemma_patch_branch, lemma_patch_distance, lemma_patch_split_n,
    lemma_patch_step, lemma_product_grows, lemma_repeated_len, lemma_spliced_from_step,
    lemma_star_stream, look_opcode, never_repeats, optional_copies, raw_alts, rep_code, rep_fits,
    repeated, spliced, spliced_from, split_n_hole, split_n_size, stay_split,
};
use crate::hir::{
    lemma_size_all_index, ClassBytes, Expr, HexByte, Look, MAX_ALTERNATIVES, Repetition,
};
use crate::instr::{
    class_code, has_offset, instr_code, lemma_literal_code_prefix, lemma_literal_code_reverse_len,
    lemma_offsets_bytes_len, literal_code, literal_code_length, masked_byte_code, ANY_BYTE, END,
    InstrSeq, JUMP, JUMP_SIZE, MATCH, SPLIT_A, SPLIT_B, SPLIT_N, START, WORD_BOUNDARY,
    WORD_BOUNDARY_NEG,
};
use crate::literal_seq::{
    atom_views, concat_seq, count_exact, extract_literals, min_quality, seq_make_inexact,
    seq_quality, seq_to_atoms, seq_view, seq_views, simplified, simplify_seq, SeqQuality,
};
pub use crate::location::{Error, Location, Offset};
use crate::location::fits_offset;
pub use crate::regexp_atoms::{RegexpAtom, RegexpAtoms};
use crate::state::{
    alt_frames, alt_going, alt_jump_loc, alt_marks, alt_ready, alt_start_loc, atoms_bounded,
    bck_offsets, before_post, candidate_frame, concat_done, concat_going, concat_locs,
    concat_ready, concat_starts, done, entered, found_views, fwd_offsets, hole_locs, joined_all,
    lemma_all_fit_index, lemma_alt_child, lemma_alt_sound, lemma_alt_step, lemma_alt_tops_len,
    lemma_at_least_code, lemma_bounded_ready, lemma_concat_child, lemma_concat_sound,
    lemma_concat_start, lemma_concat_step, lemma_emit_emit, lemma_emit_nothing,
    lemma_located_grows, lemma_rep_sound, lemma_settled, lemma_sound_grows,
    lemma_spliced_from_grows, node_fits, pre_state, progressed, regexp_atom_views, rep_frame,
    rep_lead, rep_loc, rep_marks, rep_shift, rolled_up, with_loc, State,
};
use crate::walk::{
    alt_parent, alt_tops, can_be_exact, child_literals, concat_atoms, concat_child_loc,
    concat_pick, concat_top, extracted_atoms, literal_atom, literal_loc, moved, rep_code_loc,
    settle, top_after, Ctx,
};

verus! {

/// The items of a vector from the last to the first.
fn reversed<T>(v: Vec<T>) -> (r: Vec<T>)
    ensures
        r@ == v@.reverse(),
{
    let mut v = v;
    let ghost all = v@;
    let n = v.len();
    let mut r: Vec<T> = Vec::new();
    let mut k: usize = n;
    while k > 0
        invariant
            k <= n,
            n == all.len(),
            v@ == all.take(k as int),
            r@.len() == n - k,
            forall|j: int| 0 <= j < r@.len() ==> #[trigger] r@[j] == all[n - 1 - j],
        decreases k,
    {
        let item = match v.pop() {
            Some(item) => item,
            None => {
                assert(false);
                return r;
            },
        };
        k -= 1;
        assert(v@ =~= all.take(k as int));
        r.push(item);
    }
    assert(r@ =~= all.reverse());
    r
}

/// Computes the lowest quality among the atoms and the number of exact
/// ones.
fn summarize(atoms: &Vec<Atom>) -> (r: (i32, usize))
    ensures
        r.0 == min_quality(atom_views(atoms@)),
        r.1 == count_exact(atom_views(atoms@)),
{
    let ghost views = atom_views(atoms@);
    let n = atoms.len();
    let mut lowest: i32 = i32::MAX;
    let mut exact: usize = 0;
    let mut i: usize = 0;
    while i < n
        invariant
            i <= n,
            n == atoms@.len(),
            views == atom_views(atoms@),
            lowest == min_quality(views.take(i as int)),
            exact == count_exact(views.take(i as int)),
            exact <= i,
        decreases n - i,
    {
        proof {
            assert(views.take(i + 1).drop_last() =~= views.take(i as int));
            assert(views.take(i + 1).last() == atoms@[i as int]@);
        }
        let q = atoms[i].quality();
        if q < lowest {
            lowest = q;
        }
        if atoms[i].is_exact() {
            exact += 1;
        }
        i += 1;
    }
    assert(views.take(n as int) =~= views);
    (lowest, exact)
}

/// Gives every atom the same location.
fn locate(atoms: Vec<Atom>, code_loc: Location) -> (r: Vec<RegexpAtom>)
    ensures
        r@.len() == atoms@.len(),
        forall|i: int| 0 <= i < r@.len() ==> (#[trigger] r@[i])@ == with_loc(atom_views(atoms@), code_loc)[i],
{
    let mut rest = reversed(atoms);
    let ghost views = atom_views(atoms@);
    let n = rest.len();
    let mut r: Vec<RegexpAtom> = Vec::new();
    let mut k: usize = n;
    while k > 0
        invariant
            k <= n,
            n == atoms@.len(),
            views == atom_views(atoms@),
            rest@ == atoms@.reverse().take(k as int),
            r@.len() == n - k,
            forall|i: int| 0 <= i < r@.len() ==> (#[trigger] r@[i])@ == with_loc(views, code_loc)[i],
        decreases k,
    {
        let atom = match rest.pop() {
            Some(atom) => atom,
            None => {
                assert(false);
                return r;
            },
        };
        k -= 1;
        assert(rest@ =~= atoms@.reverse().take(k as int));
        assert(atom == atoms@[n - 1 - k]);
        r.push(RegexpAtom { atom, code_loc });
    }
    r
}

/// Finds the best atoms for a concatenation. For each child, the literals
/// that begin a match of the children from that child on are weighed; the
/// best are kept, and made inexact unless they start at the first child.
/// Returns their atoms and the index of the child at which they start.
fn pick_concat_atoms(subs: &Vec<Expr>) -> (r: (Option<Vec<Atom>>, usize))
    ensures
        match concat_pick(child_literals(subs@), subs@.len() as int).1 {
            Some((atoms, i)) => found_views(r.0) == Some(atoms) && r.1 == i,
            None => r.0 is None,
        },
        r.0 is Some ==> r.1 < subs@.len(),
        r.0 matches Some(found) ==> atoms_bounded(atom_views(found@)),
{
    let n = subs.len();
    let ghost views = child_literals(subs@);
    let mut seqs: Vec<regex_syntax::hir::literal::Seq> = Vec::new();
    let mut i: usize = 0;
    while i < n
        invariant
            i <= n,
            n == subs@.len(),
            views == child_literals(subs@),
            seqs@.len() == i,
            forall|j: int| 0 <= j < i ==> seq_view(#[trigger] seqs@[j]) == views[j],
        decreases n - i,
    {
        seqs.push(extract_literals(&subs[i]));
        i += 1;
    }
    let mut best: Option<Vec<Atom>> = None;
    let mut best_quality = SeqQuality::min();
    let mut index: usize = 0;
    let mut k: usize = 0;
    while k < n
        invariant
            k <= n,
            n == subs@.len(),
            seqs@.len() == n,
            views.len() == n,
            forall|j: int| 0 <= j < n ==> seq_view(#[trigger] seqs@[j]) == views[j],
            concat_pick(views, k as int).0 == best_quality,
            match concat_pick(views, k as int).1 {
                Some((atoms, i)) => found_views(best) == Some(atoms) && index == i,
                None => best is None,
            },
            best is Some ==> index < n,
            best matches Some(found) ==> atoms_bounded(atom_views(found@)),
        decreases n - k,
    {
        let rest = slice_subrange(seqs.as_slice(), k, n);
        proof {
            assert(seq_views(rest@) =~= views.skip(k as int));
        }
        if let Some(seq) = concat_seq(rest) {
            if let Some(quality) = seq_quality(&seq) {
                if quality.better_than(&best_quality) {
                    let mut seq = seq;
                    if k > 0 {
                        seq_make_inexact(&mut seq);
                    }
                    best_quality = quality;
                    best = seq_to_atoms(seq);
                    index = k;
                }
            }
        }
        k += 1;
    }
    (best, index)
}

/// Compiles a regular expression.
///
/// Compiling is a walk over the expression, depth first, that emits code for
/// the virtual machine in both directions and extracts the atoms for the
/// search that runs before it.
pub struct Compiler {
    /// Code that matches the regexp left-to-right.
    forward_code: InstrSeq,
    /// Code that matches the regexp right-to-left.
    backward_code: InstrSeq,
    /// Stack of the locations that the compiler needs to remember, such as
    /// that of a jump whose destination is not known yet.
    bookmarks: Vec<Location>,
    /// Best atoms found so far: a stack of lists of atoms.
    best_atoms_stack: Vec<RegexpAtoms>,
    /// The children of a concatenation are visited from left to right, and
    /// the backward code needs them from right to left. So the backward
    /// code of each child goes to a sequence of its own, called a chunk,
    /// and the chunks are copied to the backward code in reverse order once
    /// all children are done.
    backward_code_chunks: Vec<InstrSeq>,
    /// How deep in the expression the walk is.
    depth: u32,
    /// How many repetitions that may match nothing are around the current
    /// node. No atoms are taken from below one.
    zero_rep_depth: u32,
}

impl View for Compiler {
    type V = State;

    closed spec fn view(&self) -> State {
        State {
            fwd: self.forward_code@,
            bck: Seq::new(
                (self.backward_code_chunks@.len() + 1) as nat,
                |i: int|
                    if i == 0 {
                        self.backward_code@
                    } else {
                        self.backward_code_chunks@[i - 1]@
                    },
            ),
            bookmarks: self.bookmarks@,
            frames: Seq::new(
                self.best_atoms_stack@.len(),
                |i: int| self.best_atoms_stack@[i]@,
            ),
            depth: self.depth,
            zero_rep_depth: self.zero_rep_depth,
        }
    }
}

impl Compiler {
    /// True if the forward code has the identifier 0 and every backward
    /// sequence has its index as its identifier.
    pub closed spec fn inv(&self) -> bool {
        &&& self.forward_code.id() == 0
        &&& self.backward_code.id() == 0
        &&& forall|i: int|
            0 <= i < self.backward_code_chunks@.len() ==> (#[trigger] self.backward_code_chunks@[i]).id()
                == i + 1
    }

    /// Creates a compiler that has compiled nothing yet.
    pub fn new() -> (c: Compiler)
        ensures
            c.fresh(),
    {
        let mut best_atoms_stack: Vec<RegexpAtoms> = Vec::new();
        best_atoms_stack.push(RegexpAtoms::empty());
        let c = Compiler {
            forward_code: InstrSeq::new(0),
            backward_code: InstrSeq::new(0),
            backward_code_chunks: Vec::new(),
            bookmarks: Vec::new(),
            best_atoms_stack,
            depth: 0,
            zero_rep_depth: 0,
        };
        assert(c@.bck =~= State::initial().bck);
        assert(c@.frames =~= State::initial().frames);
        assert(c@.bookmarks =~= State::initial().bookmarks);
        c
    }

    /// The streams are never longer than the machine can count, and neither
    /// are there more chunks.
    proof fn lemma_in_range(&self)
        ensures
            self@.in_range(),
    {
        self.forward_code.lemma_length_fits();
        self.backward_code.lemma_length_fits();
        let n = self.backward_code_chunks@.len();
        assert(self.backward_code_chunks.len() == n);
        if n > 0 {
            self.backward_code_chunks@[n - 1].lemma_length_fits();
        }
    }

    /// True if the compiler has compiled nothing yet.
    pub closed spec fn fresh(&self) -> bool {
        self.inv() && self@ == State::initial()
    }

    /// Compiles an expression: emits its code in both directions, each
    /// ending with `MATCH`, and picks its atoms. The walk over the
    /// expression is recursive, as deep as the expression is.
    ///
    /// The result is the forward code, the backward code and the atoms.
    /// Compiling fails with `TooLarge` if and only if a jump or split cannot
    /// reach its destination. There are at most `MAX_ATOMS_PER_REGEXP`
    /// atoms, none of them has a backtrack, and none is exact if the
    /// expression holds a look-around assertion.
    pub fn compile(self, hir: &Expr) -> (r: Result<(InstrSeq, InstrSeq, Vec<RegexpAtom>), Error>)
        requires
            self.fresh(),
            hir.valid(),
        ensures
            r is Ok <==> fits(*hir),
            r matches Ok(out) ==> out.0@ == fwd_code(*hir) + instr_code(MATCH) && out.1@ == bck_code(
                *hir,
            ) + instr_code(MATCH) && out.0.id() == 0 && out.1.id() == 0,
            r matches Ok(out) ==> regexp_atom_views(out.2@) == top_after(
                State::initial().ctx(),
                *hir,
            ).atoms,
            r matches Ok(out) ==> out.2@.len() <= MAX_ATOMS_PER_REGEXP,
            r matches Ok(out) ==> forall|i: int|
                0 <= i < out.2@.len() ==> (#[trigger] out.2@[i]).atom.backtrack == 0,
            r matches Ok(out) ==> hir.has_look() ==> forall|i: int|
                0 <= i < out.2@.len() ==> !(#[trigger] out.2@[i]).atom.exact,
    {
        let mut this = self;
        let ghost s0 = this@;
        proof {
            assert(s0.sound()) by {
                assert forall|k: int| 0 <= k < s0.frames.len() implies (#[trigger] s0.frames[k]).located(
                    s0.bck,
                ) && s0.frames[k].bounded() by {}
            }
            assert(s0.inexact());
        }
        match this.visit(hir) {
            Ok(()) => {},
            Err(e) => {
                return Err(e);
            },
        }
        let ghost walked = this@;
        this.emit_instr(MATCH);
        proof {
            assert(walked.bck.len() == 1);
            assert(this@.bck.len() == 1);
            assert(this@.bck[0] == this.backward_code@);
            assert(this@.cur() =~= bck_code(*hir) + instr_code(MATCH));
            assert(this@.top() == this.best_atoms_stack@[this.best_atoms_stack@.len() - 1]@);
        }
        let Compiler { forward_code, backward_code, best_atoms_stack, .. } = this;
        let mut frames = best_atoms_stack;
        let top = match frames.pop() {
            Some(top) => top,
            None => {
                assert(false);
                return Err(Error::TooLarge);
            },
        };
        proof {
            assert(walked.top() == top@);
            assert(walked.bck.len() == 1);
            assert(forward_code@ =~= fwd_code(*hir) + instr_code(MATCH));
            assert(backward_code@ =~= bck_code(*hir) + instr_code(MATCH));
            assert(Seq::<u8>::empty() + fwd_code(*hir) =~= fwd_code(*hir));
            assert(Seq::<u8>::empty() + bck_code(*hir) =~= bck_code(*hir));
            assert(regexp_atom_views(top.atoms@) =~= top@.atoms);
            assert forall|i: int| 0 <= i < top.atoms@.len() implies (#[trigger] top.atoms@[i]).atom.backtrack
                == 0 by {
                assert(top@.atoms[i].atom.backtrack == 0);
            }
            if hir.has_look() {
                assert forall|i: int| 0 <= i < top.atoms@.len() implies !(#[trigger] top.atoms@[i]).atom.exact by {
                    assert(!top@.atoms[i].atom.exact);
                }
            }
        }
        Ok((forward_code, backward_code, top.atoms))
    }

    /// The location at which the next instruction will stand.
    fn location(&self) -> (l: Location)
        requires
            self.inv(),
        ensures
            l == self@.loc(),
            self@.in_range(),
    {
        let n = self.backward_code_chunks.len();
        if n > 0 {
            Location {
                fwd: self.forward_code.location(),
                bck_seq_id: self.backward_code_chunks[n - 1].seq_id(),
                bck: self.backward_code_chunks[n - 1].location(),
            }
        } else {
            Location {
                fwd: self.forward_code.location(),
                bck_seq_id: self.backward_code.seq_id(),
                bck: self.backward_code.location(),
            }
        }
    }

    /// Emits an instruction without operands, or a jump or two-way split
    /// with a zeroed offset, to both streams.
    fn emit_instr(&mut self, instr: u8) -> (l: Location)
        requires
            old(self).inv(),
            instr != SPLIT_N,
        ensures
            final(self).inv(),
            l == old(self)@.loc(),
            old(self)@.in_range(),
            final(self)@ == old(self)@.emit(instr_code(instr), instr_code(instr)),
    {
        let l = self.location();
        self.forward_code.emit_instr(instr);
        let n = self.backward_code_chunks.len();
        if n > 0 {
            self.backward_code_chunks[n - 1].emit_instr(instr);
        } else {
            self.backward_code.emit_instr(instr);
        }
        assert(self@.bck =~= old(self)@.emit(instr_code(instr), instr_code(instr)).bck);
        assert(self@.frames =~= old(self)@.frames);
        l
    }

    /// Emits an n-way split with zeroed offsets to both streams.
    fn emit_split_n(&mut self, n: u8) -> (l: Location)
        requires
            old(self).inv(),
        ensures
            final(self).inv(),
            l == old(self)@.loc(),
            old(self)@.in_range(),
            final(self)@ == old(self)@.emit(split_n_hole(n), split_n_hole(n)),
    {
        let l = self.location();
        self.forward_code.emit_split_n(n);
        let k = self.backward_code_chunks.len();
        if k > 0 {
            self.backward_code_chunks[k - 1].emit_split_n(n);
        } else {
            self.backward_code.emit_split_n(n);
        }
        assert(self@.fwd =~= old(self)@.fwd + split_n_hole(n));
        assert(self@.bck.last() =~= old(self)@.cur() + split_n_hole(n));
        assert(self@.bck =~= old(self)@.emit(split_n_hole(n), split_n_hole(n)).bck);
        assert(self@.frames =~= old(self)@.frames);
        l
    }

    /// Emits a masked byte to both streams.
    fn emit_masked_byte(&mut self, b: HexByte) -> (l: Location)
        requires
            old(self).inv(),
        ensures
            final(self).inv(),
            l == old(self)@.loc(),
            old(self)@.in_range(),
            final(self)@ == old(self)@.emit(masked_byte_code(b), masked_byte_code(b)),
    {
        let l = self.location();
        self.forward_code.emit_masked_byte(b);
        let k = self.backward_code_chunks.len();
        if k > 0 {
            self.backward_code_chunks[k - 1].emit_masked_byte(b);
        } else {
            self.backward_code.emit_masked_byte(b);
        }
        assert(self@.bck =~= old(self)@.emit(masked_byte_code(b), masked_byte_code(b)).bck);
        assert(self@.frames =~= old(self)@.frames);
        l
    }

    /// Emits a class as a bitmap to both streams.
    fn emit_class(&mut self, c: &ClassBytes) -> (l: Location)
        requires
            old(self).inv(),
        ensures
            final(self).inv(),
            l == old(self)@.loc(),
            old(self)@.in_range(),
            final(self)@ == old(self)@.emit(class_code(*c), class_code(*c)),
    {
        let l = self.location();
        self.forward_code.emit_class(c);
        let k = self.backward_code_chunks.len();
        if k > 0 {
            self.backward_code_chunks[k - 1].emit_class(c);
        } else {
            self.backward_code.emit_class(c);
        }
        assert(self@.bck =~= old(self)@.emit(class_code(*c), class_code(*c)).bck);
        assert(self@.frames =~= old(self)@.frames);
        l
    }

    /// Emits a literal: to the forward code with its bytes from the first
    /// to the last, to the backward code from the last to the first.
    fn emit_literal(&mut self, literal: &[u8]) -> (l: Location)
        requires
            old(self).inv(),
        ensures
            final(self).inv(),
            l == old(self)@.loc(),
            old(self)@.in_range(),
            final(self)@ == old(self)@.emit(
                literal_code(literal@),
                literal_code(literal@.reverse()),
            ),
    {
        let l = self.location();
        self.forward_code.emit_literal(literal, false);
        let k = self.backward_code_chunks.len();
        if k > 0 {
            self.backward_code_chunks[k - 1].emit_literal(literal, true);
        } else {
            self.backward_code.emit_literal(literal, true);
        }
        assert(self@.bck =~= old(self)@.emit(
            literal_code(literal@),
            literal_code(literal@.reverse()),
        ).bck);
        assert(self@.frames =~= old(self)@.frames);
        l
    }

    /// Emits a copy of the code between two locations to both streams.
    fn emit_clone(&mut self, start: Location, end: Location) -> (l: Location)
        requires
            old(self).inv(),
            start.fwd <= end.fwd <= old(self)@.fwd.len(),
            start.bck <= end.bck <= old(self)@.cur().len(),
        ensures
            final(self).inv(),
            l == old(self)@.loc(),
            old(self)@.in_range(),
            final(self)@ == old(self)@.emit(
                old(self)@.fwd.subrange(start.fwd as int, end.fwd as int),
                old(self)@.cur().subrange(start.bck as int, end.bck as int),
            ),
    {
        let l = self.location();
        self.forward_code.emit_clone(start.fwd, end.fwd);
        let k = self.backward_code_chunks.len();
        if k > 0 {
            self.backward_code_chunks[k - 1].emit_clone(start.bck, end.bck);
        } else {
            self.backward_code.emit_clone(start.bck, end.bck);
        }
        assert(self@.bck =~= old(self)@.emit(
            old(self)@.fwd.subrange(start.fwd as int, end.fwd as int),
            old(self)@.cur().subrange(start.bck as int, end.bck as int),
        ).bck);
        assert(self@.frames =~= old(self)@.frames);
        l
    }

    /// Writes an offset into the jump or two-way split at a location, in
    /// both streams.
    fn patch_instr(&mut self, location: &Location, offset: Offset)
        requires
            old(self).inv(),
            old(self)@.branch_at(*location),
        ensures
            final(self).inv(),
            final(self)@ == old(self)@.patch(*location, offset),
    {
        self.forward_code.patch_instr(location.fwd, offset.fwd);
        let k = self.backward_code_chunks.len();
        if k > 0 {
            self.backward_code_chunks[k - 1].patch_instr(location.bck, offset.bck);
        } else {
            self.backward_code.patch_instr(location.bck, offset.bck);
        }
        assert(self@.bck =~= old(self)@.patch(*location, offset).bck);
        assert(self@.frames =~= old(self)@.frames);
    }

    /// Writes the offsets into the n-way split at a location, in both
    /// streams.
    fn patch_split_n(&mut self, location: &Location, offsets: &Vec<Offset>)
        requires
            old(self).inv(),
            old(self)@.split_n_at(*location, offsets@.len()),
        ensures
            final(self).inv(),
            final(self)@ == old(self)@.patch_n(*location, offsets@),
    {
        let mut fwd: Vec<i16> = Vec::new();
        let mut bck: Vec<i16> = Vec::new();
        let n = offsets.len();
        let mut i: usize = 0;
        while i < n
            invariant
                i <= n,
                n == offsets@.len(),
                fwd@ == fwd_offsets(offsets@).take(i as int),
                bck@ == bck_offsets(offsets@).take(i as int),
            decreases n - i,
        {
            fwd.push(offsets[i].fwd);
            bck.push(offsets[i].bck);
            i += 1;
            assert(fwd@ =~= fwd_offsets(offsets@).take(i as int));
            assert(bck@ =~= bck_offsets(offsets@).take(i as int));
        }
        assert(fwd@ =~= fwd_offsets(offsets@));
        assert(bck@ =~= bck_offsets(offsets@));
        self.forward_code.patch_split_n(location.fwd, &fwd);
        let k = self.backward_code_chunks.len();
        if k > 0 {
            self.backward_code_chunks[k - 1].patch_split_n(location.bck, &bck);
        } else {
            self.backward_code.patch_split_n(location.bck, &bck);
        }
        assert(self@.bck =~= old(self)@.patch_n(*location, offsets@).bck);
        assert(self@.frames =~= old(self)@.frames);
    }

    /// Remembers a location.
    fn push_bookmark(&mut self, l: Location)
        requires
            old(self).inv(),
        ensures
            final(self).inv(),
            final(self)@ == old(self)@.mark(l),
    {
        self.bookmarks.push(l);
        assert(self@.bck =~= old(self)@.bck);
        assert(self@.frames =~= old(self)@.frames);
    }

    /// Takes back the location remembered last.
    fn pop_bookmark(&mut self) -> (l: Location)
        requires
            old(self).inv(),
            old(self)@.bookmarks.len() > 0,
        ensures
            final(self).inv(),
            l == old(self)@.bookmarks.last(),
            final(self)@ == old(self)@.unmark(),
    {
        let l = match self.bookmarks.pop() {
            Some(l) => l,
            None => Location { fwd: 0, bck_seq_id: 0, bck: 0 },
        };
        assert(self@.bookmarks =~= old(self)@.bookmarks.drop_last());
        assert(self@.bck =~= old(self)@.bck);
        assert(self@.frames =~= old(self)@.frames);
        l
    }

    /// Opens a chunk for the backward code of a child of a concatenation.
    fn push_chunk(&mut self)
        requires
            old(self).inv(),
            old(self)@.bck.len() < u64::MAX,
        ensures
            final(self).inv(),
            final(self)@ == old(self)@.open_chunk(),
    {
        let l = self.location();
        self.backward_code_chunks.push(InstrSeq::new(l.bck_seq_id + 1));
        assert(self@.bck =~= old(self)@.open_chunk().bck);
        assert(self@.frames =~= old(self)@.frames);
    }

    /// Opens a frame for the atoms of an alternative.
    fn push_frame(&mut self)
        requires
            old(self).inv(),
        ensures
            final(self).inv(),
            final(self)@ == old(self)@.open_frame(),
    {
        self.best_atoms_stack.push(RegexpAtoms::empty());
        assert(self@.bck =~= old(self)@.bck);
        assert(self@.frames =~= old(self)@.open_frame().frames);
    }

    /// Weighs the atoms found at a node against the best atoms so far, and
    /// keeps the better ones in the top frame. The atoms found win if their
    /// worst atom is better than the worst of the best so far; or if it is
    /// as good, they can be exact, and more of them are exact. Atoms that
    /// cannot be exact are made inexact before they are kept.
    fn roll_up(&mut self, atoms: Option<Vec<Atom>>, code_loc: Location, can_be_exact: bool)
        requires
            old(self).inv(),
            old(self)@.wf(),
        ensures
            final(self).inv(),
            final(self)@ == old(self)@.with_top(
                rolled_up(
                    old(self)@.top(),
                    found_views(atoms),
                    code_loc,
                    can_be_exact,
                ),
            ),
    {
        let found = match atoms {
            None => {
                assert(self@.frames =~= old(self)@.with_top(old(self)@.top()).frames);
                return ;
            },
            Some(found) => found,
        };
        let ghost views = atom_views(found@);
        let n = self.best_atoms_stack.len();
        if found.len() == 0 {
            assert(self@.frames =~= old(self)@.with_top(old(self)@.top()).frames);
            return ;
        }
        let (lowest, exact) = summarize(&found);
        let best_quality = self.best_atoms_stack[n - 1].min_quality;
        let best_exact = self.best_atoms_stack[n - 1].exact_atoms;
        if lowest > best_quality || (lowest == best_quality && can_be_exact && exact > best_exact) {
            let mut frame = RegexpAtoms {
                atoms: locate(found, code_loc),
                min_quality: lowest,
                exact_atoms: exact,
            };
            assert(frame@.atoms =~= with_loc(views, code_loc));
            if !can_be_exact {
                frame.make_inexact();
            }
            assert(frame@ == candidate_frame(views, code_loc, can_be_exact));
            self.best_atoms_stack[n - 1] = frame;
            assert(self@.frames =~= old(self)@.with_top(
                candidate_frame(views, code_loc, can_be_exact),
            ).frames);
            assert(self@.bck =~= old(self)@.bck);
        } else {
            assert(self@.frames =~= old(self)@.with_top(old(self)@.top()).frames);
        }
    }

    /// Emits `count` copies of the code between two locations.
    fn emit_clones(&mut self, start: Location, end: Location, count: u32)
        requires
            old(self).inv(),
            start.fwd <= end.fwd <= old(self)@.fwd.len(),
            start.bck <= end.bck <= old(self)@.cur().len(),
        ensures
            final(self).inv(),
            final(self)@ == old(self)@.emit(
                repeated(old(self)@.fwd.subrange(start.fwd as int, end.fwd as int), count as nat),
                repeated(old(self)@.cur().subrange(start.bck as int, end.bck as int), count as nat),
            ),
    {
        let ghost s0 = self@;
        let ghost bf = s0.fwd.subrange(start.fwd as int, end.fwd as int);
        let ghost bb = s0.cur().subrange(start.bck as int, end.bck as int);
        proof {
            lemma_emit_nothing(s0);
        }
        let mut i: u32 = 0;
        while i < count
            invariant
                i <= count,
                self.inv(),
                s0.bck.len() >= 1,
                start.fwd <= end.fwd <= s0.fwd.len(),
                start.bck <= end.bck <= s0.cur().len(),
                bf == s0.fwd.subrange(start.fwd as int, end.fwd as int),
                bb == s0.cur().subrange(start.bck as int, end.bck as int),
                self@ == s0.emit(repeated(bf, i as nat), repeated(bb, i as nat)),
            decreases count - i,
        {
            let ghost before = self@;
            assert(before.fwd.subrange(start.fwd as int, end.fwd as int) =~= bf);
            assert(before.cur().subrange(start.bck as int, end.bck as int) =~= bb);
            self.emit_clone(start, end);
            i += 1;
            proof {
                lemma_emit_emit(s0, repeated(bf, (i - 1) as nat), repeated(bb, (i - 1) as nat), bf, bb);
            }
        }
    }

    /// Emits `count` times a branch with opcode `op`, whose offset is still
    /// to come, followed by a copy of the code between two locations, and
    /// remembers where each branch stands.
    fn emit_optional_copies(&mut self, start: Location, end: Location, op: u8, count: u32)
        requires
            old(self).inv(),
            has_offset(op),
            start.fwd <= end.fwd <= old(self)@.fwd.len(),
            start.bck <= end.bck <= old(self)@.cur().len(),
        ensures
            final(self).inv(),
            final(self)@ == (State {
                bookmarks: old(self)@.bookmarks + hole_locs(
                    old(self)@.loc(),
                    op,
                    old(self)@.fwd.subrange(start.fwd as int, end.fwd as int),
                    old(self)@.cur().subrange(start.bck as int, end.bck as int),
                    count as nat,
                ),
                ..old(self)@.emit(
                    repeated(
                        block(op, old(self)@.fwd.subrange(start.fwd as int, end.fwd as int)),
                        count as nat,
                    ),
                    repeated(
                        block(op, old(self)@.cur().subrange(start.bck as int, end.bck as int)),
                        count as nat,
                    ),
                )
            }),
    {
        let ghost s0 = self@;
        let ghost bf = s0.fwd.subrange(start.fwd as int, end.fwd as int);
        let ghost bb = s0.cur().subrange(start.bck as int, end.bck as int);
        proof {
            self.lemma_in_range();
        }
        proof {
            lemma_emit_nothing(s0);
            assert(s0.bookmarks + hole_locs(s0.loc(), op, bf, bb, 0) =~= s0.bookmarks);
        }
        let mut i: u32 = 0;
        while i < count
            invariant
                i <= count,
                self.inv(),
                has_offset(op),
                s0.in_range(),
                start.fwd <= end.fwd <= s0.fwd.len(),
                start.bck <= end.bck <= s0.cur().len(),
                bf == s0.fwd.subrange(start.fwd as int, end.fwd as int),
                bb == s0.cur().subrange(start.bck as int, end.bck as int),
                self@ == (State {
                    bookmarks: s0.bookmarks + hole_locs(s0.loc(), op, bf, bb, i as nat),
                    ..s0.emit(repeated(block(op, bf), i as nat), repeated(block(op, bb), i as nat))
                }),
            decreases count - i,
        {
            let split = self.emit_instr(op);
            self.push_bookmark(split);
            assert(self@.fwd.subrange(start.fwd as int, end.fwd as int) =~= bf);
            assert(self@.cur().subrange(start.bck as int, end.bck as int) =~= bb);
            self.emit_clone(start, end);
            i += 1;
            proof {
                let target = State {
                    bookmarks: s0.bookmarks + hole_locs(s0.loc(), op, bf, bb, i as nat),
                    ..s0.emit(repeated(block(op, bf), i as nat), repeated(block(op, bb), i as nat))
                };
                assert(self@.fwd =~= target.fwd);
                assert(self@.cur() =~= target.cur());
                assert(self@.bck =~= target.bck);
                assert(split == hole_locs(s0.loc(), op, bf, bb, i as nat)[i - 1]);
                assert(self@.bookmarks =~= target.bookmarks);
            }
        }
    }

    /// Writes the offsets into `count` branches in a row, each followed by a
    /// body, whose locations are the last `count` bookmarks: each branch
    /// gets to lead behind the last body. Fails if the first branch, which
    /// has the longest way, cannot reach that far.
    fn patch_optional_copies(
        &mut self,
        count: u32,
        Ghost(op): Ghost<u8>,
        Ghost(pf): Ghost<Seq<u8>>,
        Ghost(pb): Ghost<Seq<u8>>,
        Ghost(bf): Ghost<Seq<u8>>,
        Ghost(bb): Ghost<Seq<u8>>,
        Ghost(marks): Ghost<Seq<Location>>,
    ) -> (r: Result<(), Error>)
        requires
            old(self).inv(),
            has_offset(op),
            old(self)@.fwd == pf + repeated(block(op, bf), count as nat),
            old(self)@.cur() == pb + repeated(block(op, bb), count as nat),
            old(self)@.bookmarks == marks + hole_locs(
                Location {
                    fwd: pf.len() as usize,
                    bck_seq_id: old(self)@.loc().bck_seq_id,
                    bck: pb.len() as usize,
                },
                op,
                bf,
                bb,
                count as nat,
            ),
        ensures
            r is Ok <==> (count == 0 || (fits_offset(count * (JUMP_SIZE + bf.len())) && fits_offset(
                count * (JUMP_SIZE + bb.len()),
            ))),
            r is Ok ==> final(self).inv() && final(self)@ == (State {
                fwd: pf + optional_copies(op, bf, count as nat),
                bck: old(self)@.bck.update(
                    old(self)@.bck.len() - 1,
                    pb + optional_copies(op, bb, count as nat),
                ),
                bookmarks: marks,
                ..old(self)@
            }),
    {
        let ghost s0 = self@;
        let ghost base = Location {
            fwd: pf.len() as usize,
            bck_seq_id: s0.loc().bck_seq_id,
            bck: pb.len() as usize,
        };
        let end = self.location();
        proof {
            assert(pf + repeated(block(op, bf), count as nat) + optional_copies(op, bf, 0) =~= s0.fwd);
            assert(pb + repeated(block(op, bb), count as nat) + optional_copies(op, bb, 0)
                =~= s0.cur());
            assert(s0.bck.update(s0.bck.len() - 1, s0.cur()) =~= s0.bck);
        }
        let mut j: u32 = 0;
        while j < count
            invariant
                j <= count,
                self.inv(),
                has_offset(op),
                s0.in_range(),
                end == s0.loc(),
                self@.fwd.len() == s0.fwd.len(),
                self@.cur().len() == s0.cur().len(),
                s0.fwd == pf + repeated(block(op, bf), count as nat),
                s0.cur() == pb + repeated(block(op, bb), count as nat),
                base == (Location {
                    fwd: pf.len() as usize,
                    bck_seq_id: s0.loc().bck_seq_id,
                    bck: pb.len() as usize,
                }),
                j > 0 ==> fits_offset(j * (JUMP_SIZE + bf.len())) && fits_offset(
                    j * (JUMP_SIZE + bb.len()),
                ),
                self@ == (State {
                    fwd: pf + repeated(block(op, bf), (count - j) as nat) + optional_copies(
                        op,
                        bf,
                        j as nat,
                    ),
                    bck: s0.bck.update(
                        s0.bck.len() - 1,
                        pb + repeated(block(op, bb), (count - j) as nat) + optional_copies(
                            op,
                            bb,
                            j as nat,
                        ),
                    ),
                    bookmarks: marks + hole_locs(base, op, bf, bb, (count - j) as nat),
                    ..s0
                }),
            decreases count - j,
        {
            let ghost k = (count - j - 1) as nat;
            proof {
                lemma_patch_distance(pf, op, bf, count as nat, j as nat);
                lemma_patch_distance(pb, op, bb, count as nat, j as nat);
                lemma_patch_step(pf, op, bf, count as nat, j as nat, 0);
                lemma_patch_step(pb, op, bb, count as nat, j as nat, 0);
                lemma_repeated_len(block(op, bf), k);
                lemma_repeated_len(block(op, bb), k);
            }
            let split = self.pop_bookmark();
            proof {
                assert(split == hole_locs(base, op, bf, bb, (count - j) as nat)[count - j - 1]);
                assert(split.fwd == (pf + repeated(block(op, bf), k)).len());
                assert(split.bck == (pb + repeated(block(op, bb), k)).len());
                lemma_product_grows((j + 1) as nat, count as nat, (JUMP_SIZE + bf.len()) as nat);
                lemma_product_grows((j + 1) as nat, count as nat, (JUMP_SIZE + bb.len()) as nat);
                assert(self@.branch_at(split));
            }
            let offset = match end.sub(&split) {
                Ok(offset) => offset,
                Err(e) => {
                    return Err(e);
                },
            };
            self.patch_instr(&split, offset);
            j += 1;
            proof {
                lemma_patch_step(pf, op, bf, count as nat, (j - 1) as nat, offset.fwd);
                lemma_patch_step(pb, op, bb, count as nat, (j - 1) as nat, offset.bck);
                assert(self@.bookmarks =~= marks + hole_locs(base, op, bf, bb, (count - j) as nat));
                assert(self@.bck =~= s0.bck.update(
                    s0.bck.len() - 1,
                    pb + repeated(block(op, bb), (count - j) as nat) + optional_copies(
                        op,
                        bb,
                        j as nat,
                    ),
                ));
            }
        }
        proof {
            assert(pf + repeated(block(op, bf), 0) + optional_copies(op, bf, count as nat) =~= pf
                + optional_copies(op, bf, count as nat));
            assert(pb + repeated(block(op, bb), 0) + optional_copies(op, bb, count as nat) =~= pb
                + optional_copies(op, bb, count as nat));
            assert(marks + hole_locs(base, op, bf, bb, 0) =~= marks);
        }
        Ok(())
    }

    /// Before the sub-expression of a repetition: emits the split that can
    /// skip it, where the repetition may match nothing, and remembers where
    /// the split and the sub-expression stand.
    fn visit_pre_repetition(&mut self, rep: &Repetition)
        requires
            old(self).inv(),
            old(self)@.zero_rep_depth < u32::MAX,
            !never_repeats(*rep),
        ensures
            final(self).inv(),
            old(self)@.in_range(),
            progressed(
                old(self)@,
                rep_lead(*rep),
                rep_lead(*rep),
                rep_marks(old(self)@, *rep),
                if rep.min == 0 {
                    1
                } else {
                    0
                },
                final(self)@,
            ),
            final(self)@.frames == old(self)@.frames,
            final(self)@.depth == old(self)@.depth,
    {
        let ghost s0 = self@;
        let first = self.location();
        proof {
            lemma_emit_nothing(s0);
        }
        if rep.min == 0 {
            let split = self.emit_instr(
                if rep.greedy {
                    SPLIT_A
                } else {
                    SPLIT_B
                },
            );
            self.push_bookmark(split);
            self.zero_rep_depth += 1;
            if rep.max.is_some() {
                let start = self.location();
                self.push_bookmark(start);
            }
            assert(self@.bookmarks =~= s0.bookmarks + rep_marks(s0, *rep));
            assert(self@.bck =~= s0.bck.update(s0.bck.len() - 1, s0.cur() + rep_lead(*rep)));
            assert(self@.frames =~= s0.frames);
        } else {
            self.push_bookmark(first);
            assert(self@.bookmarks =~= s0.bookmarks + rep_marks(s0, *rep));
            assert(self@.fwd =~= s0.fwd + rep_lead(*rep));
            assert(self@.bck =~= s0.bck.update(s0.bck.len() - 1, s0.cur() + rep_lead(*rep)));
        }
    }

    /// After the sub-expression of `e*`: closes the loop with a jump back
    /// to the split, and lets the split lead behind the jump.
    #[verifier::rlimit(50)]
    fn post_star(
        &mut self,
        greedy: bool,
        Ghost(s0): Ghost<State>,
        Ghost(bf): Ghost<Seq<u8>>,
        Ghost(bb): Ghost<Seq<u8>>,
    ) -> (r: Result<Location, Error>)
        requires
            old(self).inv(),
            s0.in_range(),
            old(self)@.zero_rep_depth > 0,
            progressed(
                s0,
                instr_code(stay_split(greedy)) + bf,
                instr_code(stay_split(greedy)) + bb,
                seq![s0.loc()],
                1,
                old(self)@,
            ),
        ensures
            r is Ok <==> fits_offset(bf.len() + 2 * JUMP_SIZE) && fits_offset(bb.len() + 2 * JUMP_SIZE),
            r matches Ok(l) ==> final(self).inv() && l == s0.loc() && progressed(
                s0,
                rep_code(0, None, greedy, bf),
                rep_code(0, None, greedy, bb),
                Seq::empty(),
                0,
                final(self)@,
            ) && final(self)@.frames == old(self)@.frames && final(self)@.depth == old(self)@.depth,
    {
        let ghost op = stay_split(greedy);
        let l1 = self.pop_bookmark();
        let l2 = self.emit_instr(JUMP);
        let l3 = self.location();
        let ghost raw = self@;
        proof {
            lemma_star_stream(s0.fwd, op, bf, 0, 0);
            lemma_star_stream(s0.cur(), op, bb, 0, 0);
            assert(raw.fwd == s0.fwd + (instr_code(op) + bf) + instr_code(JUMP));
            assert(raw.cur() == s0.cur() + (instr_code(op) + bb) + instr_code(JUMP));
        }
        let o1 = match l3.sub(&l1) {
            Ok(o) => o,
            Err(e) => {
                return Err(e);
            },
        };
        proof {
            lemma_star_stream(s0.fwd, op, bf, o1.fwd, 0);
            lemma_star_stream(s0.cur(), op, bb, o1.bck, 0);
        }
        self.patch_instr(&l1, o1);
        let o2 = match l1.sub(&l2) {
            Ok(o) => o,
            Err(e) => {
                return Err(e);
            },
        };
        self.patch_instr(&l2, o2);
        self.zero_rep_depth -= 1;
        proof {
            lemma_star_stream(s0.fwd, op, bf, o1.fwd, o2.fwd);
            lemma_star_stream(s0.cur(), op, bb, o1.bck, o2.bck);
            assert(self@.fwd == s0.fwd + rep_code(0, None, greedy, bf));
            assert(self@.cur() == s0.cur() + rep_code(0, None, greedy, bb));
            assert(self@.bck =~= s0.bck.update(
                s0.bck.len() - 1,
                s0.cur() + rep_code(0, None, greedy, bb),
            ));
            assert(self@.bookmarks =~= s0.bookmarks + Seq::<Location>::empty());
            assert(self@.frames =~= old(self)@.frames);
        }
        Ok(l1)
    }

    /// After the sub-expression of `e+`: a split that leads back to its
    /// start.
    fn post_plus(
        &mut self,
        greedy: bool,
        Ghost(s0): Ghost<State>,
        Ghost(bf): Ghost<Seq<u8>>,
        Ghost(bb): Ghost<Seq<u8>>,
    ) -> (r: Result<Location, Error>)
        requires
            old(self).inv(),
            s0.in_range(),
            progressed(s0, bf, bb, seq![s0.loc()], 0, old(self)@),
        ensures
            r is Ok <==> fits_offset(-bf.len()) && fits_offset(-bb.len()),
            r matches Ok(l) ==> final(self).inv() && l == s0.loc() && progressed(
                s0,
                rep_code(1, None, greedy, bf),
                rep_code(1, None, greedy, bb),
                Seq::empty(),
                0,
                final(self)@,
            ) && final(self)@.frames == old(self)@.frames && final(self)@.depth == old(self)@.depth,
    {
        let ghost op = back_split(greedy);
        let l1 = self.pop_bookmark();
        let l2 = self.emit_instr(
            if greedy {
                SPLIT_B
            } else {
                SPLIT_A
            },
        );
        proof {
            assert(self@.fwd =~= (s0.fwd + bf) + instr_code(op) + Seq::<u8>::empty());
            assert(self@.cur() =~= (s0.cur() + bb) + instr_code(op) + Seq::<u8>::empty());
            lemma_patch_branch(s0.fwd + bf, op, Seq::empty(), 0);
            lemma_patch_branch(s0.cur() + bb, op, Seq::empty(), 0);
        }
        let o = match l1.sub(&l2) {
            Ok(o) => o,
            Err(e) => {
                return Err(e);
            },
        };
        self.patch_instr(&l2, o);
        proof {
            lemma_patch_branch(s0.fwd + bf, op, Seq::empty(), o.fwd);
            lemma_patch_branch(s0.cur() + bb, op, Seq::empty(), o.bck);
            assert(self@.fwd =~= s0.fwd + rep_code(1, None, greedy, bf));
            assert(self@.cur() =~= s0.cur() + rep_code(1, None, greedy, bb));
            assert(self@.bck =~= s0.bck.update(
                s0.bck.len() - 1,
                s0.cur() + rep_code(1, None, greedy, bb),
            ));
            assert(self@.bookmarks =~= s0.bookmarks + Seq::<Location>::empty());
            assert(self@.frames =~= old(self)@.frames);
        }
        Ok(l1)
    }

    /// Moves the atoms of the top frame that stand in the current backward
    /// sequence, at or behind `from`, by `by` bytes.
    fn shift_top(&mut self, from: usize, by: usize)
        requires
            old(self).inv(),
            old(self)@.wf(),
            forall|i: int|
                0 <= i < old(self)@.top().atoms.len() && (#[trigger] old(
                    self,
                )@.top().atoms[i]).code_loc.bck_seq_id == old(self)@.bck.len() - 1 ==> old(
                    self,
                )@.top().atoms[i].code_loc.bck + by <= usize::MAX,
        ensures
            final(self).inv(),
            final(self)@ == old(self)@.with_top(
                old(self)@.top().shifted((old(self)@.bck.len() - 1) as u64, from, by),
            ),
    {
        let id = self.location().bck_seq_id;
        let n = self.best_atoms_stack.len();
        assert(old(self)@.top() == self.best_atoms_stack@[n - 1]@);
        self.best_atoms_stack[n - 1].shift_bck(id, from, by);
        assert(self@.frames =~= old(self)@.with_top(
            old(self)@.top().shifted((old(self)@.bck.len() - 1) as u64, from, by),
        ).frames);
        assert(self@.bck =~= old(self)@.bck);
    }

    /// After the sub-expression of `e{min,}` with `min` of 2 or more: copies
    /// of the sub-expression up to `min - 1`, a split that leads back to
    /// the start of the last of them, and one more copy.
    fn post_at_least(
        &mut self,
        min: u32,
        greedy: bool,
        Ghost(s0): Ghost<State>,
        Ghost(bf): Ghost<Seq<u8>>,
        Ghost(bb): Ghost<Seq<u8>>,
    ) -> (r: Result<Location, Error>)
        requires
            old(self).inv(),
            old(self)@.wf(),
            s0.in_range(),
            min >= 2,
            progressed(s0, bf, bb, seq![s0.loc()], 0, old(self)@),
            old(self)@.top().located(old(self)@.bck),
        ensures
            r is Ok <==> fits_offset(-bf.len()) && fits_offset(-bb.len()),
            r matches Ok(l) ==> final(self).inv() && l == s0.loc() && progressed(
                s0,
                rep_code(min, None, greedy, bf),
                rep_code(min, None, greedy, bb),
                Seq::empty(),
                0,
                final(self)@,
            ) && final(self)@.frames == old(self)@.frames.update(
                old(self)@.frames.len() - 1,
                old(self)@.top().shifted(
                    (s0.bck.len() - 1) as u64,
                    s0.cur().len() as usize,
                    (repeated(bb, (min - 1) as nat).len() + JUMP_SIZE) as usize,
                ),
            ) && final(self)@.depth == old(self)@.depth,
    {
        let ghost op = back_split(greedy);
        let ghost m = (min - 2) as nat;
        let start = self.pop_bookmark();
        let end = self.location();
        let ghost s1 = self@;
        assert(s1.fwd.subrange(start.fwd as int, end.fwd as int) =~= bf);
        assert(s1.cur().subrange(start.bck as int, end.bck as int) =~= bb);
        self.emit_clones(start, end, min - 2);
        let after = self.location();
        let l1 = Location {
            fwd: after.fwd - (end.fwd - start.fwd),
            bck_seq_id: after.bck_seq_id,
            bck: after.bck - (end.bck - start.bck),
        };
        let ghost xf = s0.fwd + bf + repeated(bf, m);
        let ghost xb = s0.cur() + bb + repeated(bb, m);
        let l2 = self.emit_instr(
            if greedy {
                SPLIT_B
            } else {
                SPLIT_A
            },
        );
        let ghost s2 = self@;
        proof {
            assert(s2.fwd == xf + instr_code(op));
            assert(s2.cur() == xb + instr_code(op));
            lemma_at_least_code(s0.fwd, bf, min, greedy, 0);
            lemma_at_least_code(s0.cur(), bb, min, greedy, 0);
        }
        let o = match l1.sub(&l2) {
            Ok(o) => o,
            Err(e) => {
                return Err(e);
            },
        };
        self.patch_instr(&l2, o);
        let ghost s3 = self@;
        proof {
            lemma_at_least_code(s0.fwd, bf, min, greedy, o.fwd);
            lemma_at_least_code(s0.cur(), bb, min, greedy, o.bck);
        }
        assert(s3.fwd.subrange(start.fwd as int, end.fwd as int) =~= bf);
        assert(s3.cur().subrange(start.bck as int, end.bck as int) =~= bb);
        self.emit_clone(start, end);
        let last = self.location();
        let adjustment = last.bck - end.bck;
        proof {
            assert(self@.fwd == s0.fwd + rep_code(min, None, greedy, bf));
            assert(self@.cur() == s0.cur() + rep_code(min, None, greedy, bb));
            assert(self@.bck =~= s0.bck.update(
                s0.bck.len() - 1,
                s0.cur() + rep_code(min, None, greedy, bb),
            ));
            assert(self@.bookmarks =~= s0.bookmarks + Seq::<Location>::empty());
            assert(self@.frames =~= old(self)@.frames);
            assert(adjustment == repeated(bb, (min - 1) as nat).len() + JUMP_SIZE);
        }
        self.shift_top(start.bck, adjustment);
        Ok(start)
    }

    /// Unrolls a bounded repetition: emits the copies of the
    /// sub-expression that are missing up to `min`, and then a split and a
    /// copy for each repetition between `min` and `max`, and remembers where
    /// each split stands. Returns the location of the first body, and by
    /// how many bytes the copies up to `min` made the backward code longer.
    fn unroll_bounded(
        &mut self,
        rep: &Repetition,
        max: u32,
        Ghost(s0): Ghost<State>,
        Ghost(bf): Ghost<Seq<u8>>,
        Ghost(bb): Ghost<Seq<u8>>,
    ) -> (r: (Location, usize))
        requires
            old(self).inv(),
            s0.in_range(),
            rep.max == Some(max),
            rep.min <= max,
            max >= 1,
            progressed(
                s0,
                rep_lead(*rep) + bf,
                rep_lead(*rep) + bb,
                rep_marks(s0, *rep),
                if rep.min == 0 {
                    1
                } else {
                    0
                },
                old(self)@,
            ),
        ensures
            final(self).inv(),
            final(self)@.in_range(),
            r.0 == rep_loc(s0, *rep),
            r.0.bck <= old(self)@.cur().len(),
            rep.min >= 1 ==> r.1 == repeated(bb, (rep.min - 1) as nat).len(),
            old(self)@.cur().len() + r.1 <= final(self)@.cur().len(),
            final(self)@.fwd == s0.fwd + repeated(bf, rep.min as nat) + repeated(
                block(stay_split(rep.greedy), bf),
                (max - rep.min) as nat,
            ),
            final(self)@.cur() == s0.cur() + repeated(bb, rep.min as nat) + repeated(
                block(stay_split(rep.greedy), bb),
                (max - rep.min) as nat,
            ),
            final(self)@.bookmarks == s0.bookmarks + hole_locs(
                Location {
                    fwd: (s0.fwd + repeated(bf, rep.min as nat)).len() as usize,
                    bck_seq_id: final(self)@.loc().bck_seq_id,
                    bck: (s0.cur() + repeated(bb, rep.min as nat)).len() as usize,
                },
                stay_split(rep.greedy),
                bf,
                bb,
                (max - rep.min) as nat,
            ),
            final(self)@ == (State {
                fwd: final(self)@.fwd,
                bck: old(self)@.bck.update(old(self)@.bck.len() - 1, final(self)@.cur()),
                bookmarks: final(self)@.bookmarks,
                ..old(self)@
            }),
    {
        let min = rep.min;
        let start = self.pop_bookmark();
        let end = self.location();
        let ghost s1 = self@;
        proof {
            assert(s1.fwd.subrange(start.fwd as int, end.fwd as int) =~= bf);
            assert(s1.cur().subrange(start.bck as int, end.bck as int) =~= bb);
            assert(s1.bookmarks =~= s0.bookmarks + rep_marks(s0, *rep).drop_last());
        }
        let clones = if min == 0 {
            0
        } else {
            min - 1
        };
        self.emit_clones(start, end, clones);
        let mid = self.location();
        let adjustment = mid.bck - end.bck;
        let ghost s2 = self@;
        proof {
            assert(s2.fwd.subrange(start.fwd as int, end.fwd as int) =~= bf);
            assert(s2.cur().subrange(start.bck as int, end.bck as int) =~= bb);
        }
        let copies = if min == 0 {
            max - 1
        } else {
            max - min
        };
        let split = if rep.greedy {
            SPLIT_A
        } else {
            SPLIT_B
        };
        self.emit_optional_copies(start, end, split, copies);
        proof {
            self.lemma_in_range();
        }
        proof {
            lemma_bounded_ready(s0, *rep, max, bf, bb, s1, s2, self@);
            assert(self@.bck =~= old(self)@.bck.update(old(self)@.bck.len() - 1, self@.cur()));
        }
        (start, adjustment)
    }

    /// After the sub-expression of `e{min,max}`: copies of the
    /// sub-expression up to `min`, and then up to `max` copies that can each
    /// be left out, each behind a split that leads to the end.
    fn post_bounded(
        &mut self,
        rep: &Repetition,
        max: u32,
        Ghost(s0): Ghost<State>,
        Ghost(bf): Ghost<Seq<u8>>,
        Ghost(bb): Ghost<Seq<u8>>,
    ) -> (r: Result<Location, Error>)
        requires
            old(self).inv(),
            old(self)@.wf(),
            s0.in_range(),
            rep.max == Some(max),
            rep.min <= max,
            max >= 1,
            progressed(
                s0,
                rep_lead(*rep) + bf,
                rep_lead(*rep) + bb,
                rep_marks(s0, *rep),
                if rep.min == 0 {
                    1
                } else {
                    0
                },
                old(self)@,
            ),
            old(self)@.top().located(old(self)@.bck),
        ensures
            r is Ok <==> rep_fits(rep.min, rep.max, bf.len()) && rep_fits(rep.min, rep.max, bb.len()),
            r matches Ok(l) ==> final(self).inv() && l == rep_loc(s0, *rep) && progressed(
                s0,
                rep_code(rep.min, rep.max, rep.greedy, bf),
                rep_code(rep.min, rep.max, rep.greedy, bb),
                Seq::empty(),
                0,
                final(self)@,
            ) && final(self)@.frames == old(self)@.frames.update(
                old(self)@.frames.len() - 1,
                rep_frame(old(self)@.top(), *rep, s0, bb),
            ) && final(self)@.depth == old(self)@.depth,
    {
        let min = rep.min;
        let ghost op = stay_split(rep.greedy);
        let (start, adjustment) = self.unroll_bounded(rep, max, Ghost(s0), Ghost(bf), Ghost(bb));
        if min > 1 {
            self.shift_top(start.bck, adjustment);
        }
        let ghost s4 = self@;
        proof {
            assert(s4.frames =~= old(self)@.frames.update(
                old(self)@.frames.len() - 1,
                rep_frame(old(self)@.top(), *rep, s0, bb),
            ));
        }
        match self.patch_optional_copies(
            max - min,
            Ghost(op),
            Ghost(s0.fwd + repeated(bf, min as nat)),
            Ghost(s0.cur() + repeated(bb, min as nat)),
            Ghost(bf),
            Ghost(bb),
            Ghost(s0.bookmarks),
        ) {
            Ok(()) => {},
            Err(e) => {
                return Err(e);
            },
        }
        if min == 0 {
            self.zero_rep_depth -= 1;
        }
        proof {
            assert(self@.fwd =~= s0.fwd + rep_code(rep.min, rep.max, rep.greedy, bf));
            assert(self@.cur() =~= s0.cur() + rep_code(rep.min, rep.max, rep.greedy, bb));
            assert(self@.bck =~= s0.bck.update(
                s0.bck.len() - 1,
                s0.cur() + rep_code(rep.min, rep.max, rep.greedy, bb),
            ));
            assert(self@.bookmarks =~= s0.bookmarks + Seq::<Location>::empty());
            assert(self@.frames =~= s4.frames);
        }
        Ok(start)
    }

    /// After the sub-expression of a repetition: completes the code of the
    /// repetition around the code of the sub-expression, which stands once
    /// in both streams. Bounded repetitions are unrolled: the code of the
    /// sub-expression is copied as often as it takes. Atoms that stand in
    /// the first copy are moved behind the copies that a match has to pass
    /// in the backward code. Returns the location that stands for the
    /// repetition, or `TooLarge` if a split or jump cannot reach its
    /// destination.
    fn visit_post_repetition(
        &mut self,
        rep: &Repetition,
        Ghost(s0): Ghost<State>,
        Ghost(bf): Ghost<Seq<u8>>,
        Ghost(bb): Ghost<Seq<u8>>,
    ) -> (r: Result<Location, Error>)
        requires
            old(self).inv(),
            old(self)@.wf(),
            s0.in_range(),
            !never_repeats(*rep),
            rep.max matches Some(m) ==> rep.min <= m,
            progressed(
                s0,
                rep_lead(*rep) + bf,
                rep_lead(*rep) + bb,
                rep_marks(s0, *rep),
                if rep.min == 0 {
                    1
                } else {
                    0
                },
                old(self)@,
            ),
            old(self)@.top().located(old(self)@.bck),
        ensures
            r is Ok <==> rep_fits(rep.min, rep.max, bf.len()) && rep_fits(rep.min, rep.max, bb.len()),
            r matches Ok(l) ==> final(self).inv() && l == rep_loc(s0, *rep) && progressed(
                s0,
                rep_code(rep.min, rep.max, rep.greedy, bf),
                rep_code(rep.min, rep.max, rep.greedy, bb),
                Seq::empty(),
                0,
                final(self)@,
            ) && final(self)@.frames == old(self)@.frames.update(
                old(self)@.frames.len() - 1,
                rep_frame(old(self)@.top(), *rep, s0, bb),
            ) && final(self)@.depth == old(self)@.depth,
    {
        proof {
            assert(old(self)@.frames.update(old(self)@.frames.len() - 1, old(self)@.top())
                =~= old(self)@.frames);
            assert(Seq::<u8>::empty() + bf =~= bf);
            assert(Seq::<u8>::empty() + bb =~= bb);
        }
        match rep.max {
            None => {
                if rep.min == 0 {
                    self.post_star(rep.greedy, Ghost(s0), Ghost(bf), Ghost(bb))
                } else if rep.min == 1 {
                    self.post_plus(rep.greedy, Ghost(s0), Ghost(bf), Ghost(bb))
                } else {
                    self.post_at_least(rep.min, rep.greedy, Ghost(s0), Ghost(bf), Ghost(bb))
                }
            },
            Some(max) => self.post_bounded(rep, max, Ghost(s0), Ghost(bf), Ghost(bb)),
        }
    }

    /// Before the first alternative of an alternation: emits the split
    /// that leads to each of the `n` alternatives, remembers where the
    /// split and the first alternative stand, and opens a frame for the
    /// atoms of the first alternative.
    fn visit_pre_alternation(&mut self, n: usize)
        requires
            old(self).inv(),
            1 <= n <= MAX_ALTERNATIVES,
        ensures
            final(self).inv(),
            old(self)@.in_range(),
            final(self)@ == old(self)@.emit(split_n_hole(n as u8), split_n_hole(n as u8)).mark(
                old(self)@.loc(),
            ).mark(
                old(self)@.emit(split_n_hole(n as u8), split_n_hole(n as u8)).loc(),
            ).open_frame(),
    {
        let l0 = self.emit_split_n(n as u8);
        self.push_bookmark(l0);
        let l1 = self.location();
        self.push_bookmark(l1);
        self.push_frame();
    }

    /// Between two alternatives: emits the jump that leads from the end of
    /// an alternative to the end of the alternation, remembers where the
    /// jump and the next alternative stand, and opens a frame for the atoms
    /// of the next alternative.
    fn visit_alternation_in(&mut self)
        requires
            old(self).inv(),
        ensures
            final(self).inv(),
            old(self)@.in_range(),
            final(self)@ == old(self)@.emit(instr_code(JUMP), instr_code(JUMP)).mark(
                old(self)@.loc(),
            ).mark(old(self)@.emit(instr_code(JUMP), instr_code(JUMP)).loc()).open_frame(),
    {
        let l = self.emit_instr(JUMP);
        self.push_bookmark(l);
        let next = self.location();
        self.push_bookmark(next);
        self.push_frame();
    }

    /// Lets the jump behind each alternative but the last lead to the end
    /// of the alternation. Returns the locations of the alternatives from
    /// the last to the second.
    fn patch_alt_jumps(
        &mut self,
        n: usize,
        Ghost(s0): Ghost<State>,
        Ghost(fb): Ghost<Seq<Seq<u8>>>,
        Ghost(bb): Ghost<Seq<Seq<u8>>>,
    ) -> (r: Result<Vec<Location>, Error>)
        requires
            old(self).inv(),
            s0.in_range(),
            1 <= n <= MAX_ALTERNATIVES,
            fb.len() == n,
            bb.len() == n,
            progressed(
                s0,
                split_n_hole(n as u8) + raw_alts(fb, n - 1) + fb[n - 1],
                split_n_hole(n as u8) + raw_alts(bb, n - 1) + bb[n - 1],
                alt_marks(s0.loc(), fb, bb, n as int),
                0,
                old(self)@,
            ),
        ensures
            r is Ok <==> (forall|k: int|
                0 < k < n ==> fits_offset(JUMP_SIZE + (#[trigger] alt_tail(fb, k)).len()))
                && (forall|k: int|
                0 < k < n ==> fits_offset(JUMP_SIZE + (#[trigger] alt_tail(bb, k)).len())),
            r matches Ok(starts) ==> final(self).inv() && starts@.len() == n - 1 && (forall|i: int|
                0 <= i < n - 1 ==> #[trigger] starts@[i] == alt_start_loc(
                    s0.loc(),
                    fb,
                    bb,
                    n - 1 - i,
                )) && progressed(
                s0,
                split_n_hole(n as u8) + alt_tail(fb, 0),
                split_n_hole(n as u8) + alt_tail(bb, 0),
                alt_marks(s0.loc(), fb, bb, 1),
                0,
                final(self)@,
            ) && final(self)@.frames == old(self)@.frames && final(self)@.depth == old(
                self,
            )@.depth,
    {
        let ghost hole = split_n_hole(n as u8);
        let ghost pf = s0.fwd + hole;
        let ghost pb = s0.cur() + hole;
        let ghost base = s0.loc();
        let l_end = self.location();
        let ghost first = self@;
        let mut starts: Vec<Location> = Vec::new();
        let mut k: usize = n - 1;
        proof {
            assert(first.fwd =~= pf + raw_alts(fb, k as int) + alt_tail(fb, k as int));
            assert(first.cur() =~= pb + raw_alts(bb, k as int) + alt_tail(bb, k as int));
            assert(first.bck =~= s0.bck.update(s0.bck.len() - 1, first.cur()));
        }
        while k > 0
            invariant
                k < n,
                self.inv(),
                s0.in_range(),
                n <= MAX_ALTERNATIVES,
                fb.len() == n,
                bb.len() == n,
                hole == split_n_hole(n as u8),
                pf == s0.fwd + hole,
                pb == s0.cur() + hole,
                base == s0.loc(),
                l_end == first.loc(),
                first.in_range(),
                first.bck.len() == s0.bck.len(),
                self@.fwd.len() == first.fwd.len(),
                self@.cur().len() == first.cur().len(),
                starts@.len() == n - 1 - k,
                forall|i: int|
                    0 <= i < starts@.len() ==> #[trigger] starts@[i] == alt_start_loc(
                        base,
                        fb,
                        bb,
                        n - 1 - i,
                    ),
                forall|j: int|
                    k < j < n ==> fits_offset(JUMP_SIZE + (#[trigger] alt_tail(fb, j)).len()),
                forall|j: int|
                    k < j < n ==> fits_offset(JUMP_SIZE + (#[trigger] alt_tail(bb, j)).len()),
                self@ == (State {
                    fwd: pf + raw_alts(fb, k as int) + alt_tail(fb, k as int),
                    bck: s0.bck.update(
                        s0.bck.len() - 1,
                        pb + raw_alts(bb, k as int) + alt_tail(bb, k as int),
                    ),
                    bookmarks: s0.bookmarks + alt_marks(base, fb, bb, k + 1),
                    ..first
                }),
            decreases k,
        {
            proof {
                lemma_alt_patch_step(pf, fb, k as int, 0);
                lemma_alt_patch_step(pb, bb, k as int, 0);
                lemma_alt_start(fb, k as int);
                lemma_alt_start(bb, k as int);
                lemma_alt_start(fb, k - 1);
                lemma_alt_start(bb, k - 1);
            }
            let start = self.pop_bookmark();
            let jump = self.pop_bookmark();
            proof {
                assert(start == alt_start_loc(base, fb, bb, k as int));
                assert(jump == alt_jump_loc(base, fb, bb, k - 1));
                assert(jump.fwd == (pf + raw_alts(fb, k - 1) + fb[k - 1]).len());
                assert(jump.bck == (pb + raw_alts(bb, k - 1) + bb[k - 1]).len());
                assert(self@.bookmarks =~= s0.bookmarks + alt_marks(base, fb, bb, k as int));
            }
            starts.push(start);
            let offset = match l_end.sub(&jump) {
                Ok(offset) => offset,
                Err(e) => {
                    return Err(e);
                },
            };
            self.patch_instr(&jump, offset);
            proof {
                lemma_alt_patch_step(pf, fb, k as int, offset.fwd);
                lemma_alt_patch_step(pb, bb, k as int, offset.bck);
                assert(self@.bck =~= s0.bck.update(
                    s0.bck.len() - 1,
                    pb + raw_alts(bb, k - 1) + alt_tail(bb, k - 1),
                ));
            }
            k -= 1;
        }
        proof {
            assert(self@.fwd =~= s0.fwd + (hole + alt_tail(fb, 0)));
            assert(self@.cur() =~= s0.cur() + (hole + alt_tail(bb, 0)));
            assert(self@.bck =~= s0.bck.update(
                s0.bck.len() - 1,
                s0.cur() + (hole + alt_tail(bb, 0)),
            ));
        }
        Ok(starts)
    }

    /// Writes into the split of an alternation the offsets that lead to its
    /// alternatives. `starts` holds the locations of the alternatives from
    /// the last to the second; those of the first alternative and of the
    /// split are the last two bookmarks.
    fn patch_alt_split(
        &mut self,
        n: usize,
        starts: Vec<Location>,
        Ghost(s0): Ghost<State>,
        Ghost(fb): Ghost<Seq<Seq<u8>>>,
        Ghost(bb): Ghost<Seq<Seq<u8>>>,
    ) -> (r: Result<Location, Error>)
        requires
            old(self).inv(),
            s0.in_range(),
            1 <= n <= MAX_ALTERNATIVES,
            fb.len() == n,
            bb.len() == n,
            starts@.len() == n - 1,
            forall|i: int|
                0 <= i < n - 1 ==> #[trigger] starts@[i] == alt_start_loc(s0.loc(), fb, bb, n - 1 - i),
            progressed(
                s0,
                split_n_hole(n as u8) + alt_tail(fb, 0),
                split_n_hole(n as u8) + alt_tail(bb, 0),
                alt_marks(s0.loc(), fb, bb, 1),
                0,
                old(self)@,
            ),
        ensures
            r is Ok <==> (forall|k: int| 0 <= k < n ==> fits_offset(#[trigger] alt_start(fb, k)))
                && (forall|k: int| 0 <= k < n ==> fits_offset(#[trigger] alt_start(bb, k))),
            r matches Ok(l) ==> final(self).inv() && l == s0.loc() && progressed(
                s0,
                alt_code(fb),
                alt_code(bb),
                Seq::empty(),
                0,
                final(self)@,
            ) && final(self)@.frames == old(self)@.frames && final(self)@.depth == old(
                self,
            )@.depth,
    {
        let ghost hole = split_n_hole(n as u8);
        let ghost base = s0.loc();
        let end = self.location();
        let first = self.pop_bookmark();
        let split_loc = self.pop_bookmark();
        let mut starts = starts;
        starts.push(first);
        let ordered = reversed(starts);
        proof {
            assert(self@.bookmarks =~= s0.bookmarks);
            assert forall|k: int| 0 <= k < n implies #[trigger] ordered@[k] == alt_start_loc(
                base,
                fb,
                bb,
                k,
            ) by {
                if k > 0 {
                    assert(ordered@[k] == starts@[n - 1 - k]);
                }
            }
        }
        let mut offsets: Vec<Offset> = Vec::new();
        let mut k: usize = 0;
        while k < n
            invariant
                k <= n,
                n <= MAX_ALTERNATIVES,
                fb.len() == n,
                bb.len() == n,
                s0.in_range(),
                base == s0.loc(),
                split_loc == base,
                hole == split_n_hole(n as u8),
                end.fwd == (s0.fwd + (hole + alt_tail(fb, 0))).len(),
                end.bck == (s0.cur() + (hole + alt_tail(bb, 0))).len(),
                ordered@.len() == n,
                forall|j: int|
                    0 <= j < n ==> #[trigger] ordered@[j] == alt_start_loc(base, fb, bb, j),
                offsets@.len() == k,
                forall|j: int|
                    0 <= j < k ==> (#[trigger] offsets@[j]).fwd == alt_start(fb, j) && offsets@[j].bck
                        == alt_start(bb, j),
                forall|j: int| 0 <= j < k ==> fits_offset(#[trigger] alt_start(fb, j)),
                forall|j: int| 0 <= j < k ==> fits_offset(#[trigger] alt_start(bb, j)),
            decreases n - k,
        {
            proof {
                lemma_alt_total(fb, k as int);
                lemma_alt_total(bb, k as int);
                lemma_alt_start(fb, k as int);
                lemma_alt_start(bb, k as int);
                assert(hole.len() == split_n_size(n as nat));
                assert(base.fwd == s0.fwd.len());
                assert(base.bck == s0.cur().len());
                assert(base.fwd + alt_start(fb, k as int) <= end.fwd);
                assert(base.bck + alt_start(bb, k as int) <= end.bck);
                assert(ordered@[k as int] == alt_start_loc(base, fb, bb, k as int));
            }
            let offset = match ordered[k].sub(&split_loc) {
                Ok(offset) => offset,
                Err(e) => {
                    return Err(e);
                },
            };
            offsets.push(offset);
            k += 1;
        }
        proof {
            assert(fwd_offsets(offsets@) =~= alt_offsets(fb));
            assert(bck_offsets(offsets@) =~= alt_offsets(bb));
            lemma_patch_split_n(s0.fwd, alt_tail(fb, 0), alt_offsets(fb));
            lemma_patch_split_n(s0.cur(), alt_tail(bb, 0), alt_offsets(bb));
            assert(self@.fwd =~= s0.fwd + hole + alt_tail(fb, 0));
            assert(self@.cur() =~= s0.cur() + hole + alt_tail(bb, 0));
        }
        self.patch_split_n(&split_loc, &offsets);
        proof {
            assert(self@.fwd =~= s0.fwd + alt_code(fb));
            assert(self@.cur() =~= s0.cur() + alt_code(bb));
            assert(self@.bck =~= s0.bck.update(s0.bck.len() - 1, s0.cur() + alt_code(bb)));
            assert(self@.bookmarks =~= s0.bookmarks + Seq::<Location>::empty());
        }
        Ok(split_loc)
    }

    /// Puts the atoms of the last `n` frames, which belong to the
    /// alternatives of an alternation, into one frame, whose quality is
    /// that of the worst alternative. They take the place of the atoms in
    /// the frame below if there are no more than `MAX_ATOMS_PER_REGEXP` of
    /// them and they are better.
    fn merge_alternatives(&mut self, n: usize)
        requires
            old(self).inv(),
            n >= 1,
            old(self)@.frames.len() >= n + 1,
            forall|i: int|
                old(self)@.frames.len() - n <= i < old(self)@.frames.len() ==> (#[trigger] old(
                    self,
                )@.frames[i]).exact_atoms <= old(self)@.frames[i].atoms.len(),
        ensures
            final(self).inv(),
            final(self)@ == (State { frames: alt_frames(old(self)@.frames, n as int), ..old(self)@ }),
    {
        let len = self.best_atoms_stack.len();
        let ghost frames = self@.frames;
        let ghost tops = frames.subrange(len - n, len as int);
        let last_n = self.best_atoms_stack.split_off(len - n);
        let mut rest = reversed(last_n);
        let mut all = match rest.pop() {
            Some(all) => all,
            None => {
                assert(false);
                return ;
            },
        };
        proof {
            assert(all@ == tops[0]);
            assert(tops.take(1) =~= seq![tops[0]]);
        }
        let mut k: usize = 1;
        while k < n
            invariant
                1 <= k <= n,
                tops.len() == n,
                rest@.len() == n - k,
                forall|j: int| 0 <= j < n - k ==> (#[trigger] rest@[j])@ == tops[n - 1 - j],
                forall|i: int| 0 <= i < n ==> (#[trigger] tops[i]).exact_atoms <= tops[i].atoms.len(),
                all@ == joined_all(tops.take(k as int)),
                all@.exact_atoms <= all@.atoms.len(),
            decreases n - k,
        {
            let mut next = match rest.pop() {
                Some(next) => next,
                None => {
                    assert(false);
                    return ;
                },
            };
            let ghost before = all@;
            let ghost added = next@;
            proof {
                assert(added == tops[k as int]);
                assert(tops.take(k + 1).drop_last() =~= tops.take(k as int));
            }
            all.atoms.append(&mut next.atoms);
            if next.min_quality < all.min_quality {
                all.min_quality = next.min_quality;
            }
            proof {
                assert(all.atoms.len() == all.atoms@.len());
            }
            all.exact_atoms = all.exact_atoms + next.exact_atoms;
            proof {
                assert(all@.atoms =~= before.atoms + added.atoms);
                assert(all@ == before.joined(added));
            }
            k += 1;
        }
        proof {
            assert(tops.take(n as int) =~= tops);
        }
        let parent = len - n - 1;
        if all.atoms.len() <= MAX_ATOMS_PER_REGEXP && self.best_atoms_stack[parent].min_quality
            < all.min_quality {
            self.best_atoms_stack[parent] = all;
        }
        proof {
            assert(self@.frames =~= alt_frames(frames, n as int));
            assert(self@.bck =~= old(self)@.bck);
        }
    }

    /// After the last alternative of an alternation: lets the jumps behind
    /// the alternatives lead to the end and the split to each alternative,
    /// and gathers the atoms of the alternatives. Returns the location of
    /// the split, or `TooLarge` if a jump or the split cannot reach its
    /// destination.
    fn visit_post_alternation(
        &mut self,
        n: usize,
        Ghost(s0): Ghost<State>,
        Ghost(fb): Ghost<Seq<Seq<u8>>>,
        Ghost(bb): Ghost<Seq<Seq<u8>>>,
    ) -> (r: Result<Location, Error>)
        requires
            old(self).inv(),
            s0.in_range(),
            1 <= n <= MAX_ALTERNATIVES,
            fb.len() == n,
            bb.len() == n,
            progressed(
                s0,
                split_n_hole(n as u8) + raw_alts(fb, n - 1) + fb[n - 1],
                split_n_hole(n as u8) + raw_alts(bb, n - 1) + bb[n - 1],
                alt_marks(s0.loc(), fb, bb, n as int),
                0,
                old(self)@,
            ),
            old(self)@.frames.len() >= n + 1,
            forall|i: int|
                old(self)@.frames.len() - n <= i < old(self)@.frames.len() ==> (#[trigger] old(
                    self,
                )@.frames[i]).exact_atoms <= old(self)@.frames[i].atoms.len(),
        ensures
            r is Ok <==> alt_fits(fb) && alt_fits(bb),
            r matches Ok(l) ==> final(self).inv() && l == s0.loc() && progressed(
                s0,
                alt_code(fb),
                alt_code(bb),
                Seq::empty(),
                0,
                final(self)@,
            ) && final(self)@.frames == alt_frames(old(self)@.frames, n as int) && final(self)@.depth == old(self)@.depth,
    {
        let starts = match self.patch_alt_jumps(n, Ghost(s0), Ghost(fb), Ghost(bb)) {
            Ok(starts) => starts,
            Err(e) => {
                return Err(e);
            },
        };
        let split_loc = match self.patch_alt_split(n, starts, Ghost(s0), Ghost(fb), Ghost(bb)) {
            Ok(l) => l,
            Err(e) => {
                return Err(e);
            },
        };
        self.merge_alternatives(n);
        Ok(split_loc)
    }

    /// Before a child of a concatenation: remembers where the child
    /// starts, and opens the chunk that receives its backward code.
    fn visit_pre_concat(&mut self)
        requires
            old(self).inv(),
            old(self)@.bck.len() < u64::MAX,
        ensures
            final(self).inv(),
            old(self)@.in_range(),
            final(self)@ == old(self)@.mark(old(self)@.loc()).open_chunk(),
    {
        let l = self.location();
        self.push_bookmark(l);
        self.push_chunk();
    }

    /// Between two children of a concatenation: as before the first child.
    fn visit_concat_in(&mut self)
        requires
            old(self).inv(),
            old(self)@.bck.len() < u64::MAX,
        ensures
            final(self).inv(),
            old(self)@.in_range(),
            final(self)@ == old(self)@.mark(old(self)@.loc()).open_chunk(),
    {
        let l = self.location();
        self.push_bookmark(l);
        self.push_chunk();
    }

    /// Copies the last `n` chunks to the sequence below them, from the last
    /// to the first. Returns the offset in that sequence at which each
    /// chunk starts.
    fn splice_chunks(&mut self, n: usize) -> (starts: Vec<usize>)
        requires
            old(self).inv(),
            old(self)@.bck.len() >= n + 1,
        ensures
            final(self).inv(),
            final(self)@.in_range(),
            starts@ == concat_starts(
                old(self)@.bck[old(self)@.bck.len() - n - 1].len(),
                old(self)@.bck.subrange(old(self)@.bck.len() - n, old(self)@.bck.len() as int),
            ),
            final(self)@ == (State {
                bck: old(self)@.bck.take(old(self)@.bck.len() - n).update(
                    old(self)@.bck.len() - n - 1,
                    old(self)@.bck[old(self)@.bck.len() - n - 1] + spliced(
                        old(self)@.bck.subrange(
                            old(self)@.bck.len() - n,
                            old(self)@.bck.len() as int,
                        ),
                    ),
                ),
                ..old(self)@
            }),
            forall|j: int|
                0 <= j < n ==> (#[trigger] starts@[j]) + old(self)@.bck[old(self)@.bck.len() - n
                    + j].len() <= final(self)@.cur().len(),
    {
        let ghost s0 = self@;
        let ghost p = s0.bck.len() - n - 1;
        let ghost chunks = s0.bck.subrange(p + 1, s0.bck.len() as int);
        let ghost parent = s0.bck[p];
        let len = self.backward_code_chunks.len();
        let last_n = self.backward_code_chunks.split_off(len - n);
        proof {
            self.lemma_in_range();
        }
        proof {
            assert(self@.bck =~= s0.bck.take(p + 1));
            assert(chunks.subrange(n as int, n as int) =~= Seq::<Seq<u8>>::empty());
            assert(parent + spliced_from(chunks, n as int) =~= parent);
            assert(self@.bck =~= s0.bck.take(p + 1).update(
                p,
                parent + spliced_from(chunks, n as int),
            ));
            assert(self@.frames =~= s0.frames);
        }
        let mut rev: Vec<usize> = Vec::new();
        let mut j: usize = n;
        while j > 0
            invariant
                j <= n,
                self.inv(),
                self@.in_range(),
                s0.bck.len() == p + n + 1,
                p >= 0,
                chunks == s0.bck.subrange(p + 1, s0.bck.len() as int),
                parent == s0.bck[p],
                last_n@.len() == n,
                forall|i: int| 0 <= i < n ==> (#[trigger] last_n@[i])@ == chunks[i],
                rev@.len() == n - j,
                forall|i: int|
                    0 <= i < n - j ==> #[trigger] rev@[i] == parent.len() + spliced_from(
                        chunks,
                        n - i,
                    ).len(),
                self@ == (State {
                    bck: s0.bck.take(p + 1).update(p, parent + spliced_from(chunks, j as int)),
                    ..s0
                }),
            decreases j,
        {
            j -= 1;
            let ghost before = self@;
            let start = self.location().bck;
            rev.push(start);
            let k = self.backward_code_chunks.len();
            if k > 0 {
                self.backward_code_chunks[k - 1].append(&last_n[j]);
            } else {
                self.backward_code.append(&last_n[j]);
            }
            proof {
                self.lemma_in_range();
            }
            proof {
                lemma_spliced_from_step(chunks, j as int);
                assert(last_n@[j as int]@ == chunks[j as int]);
                assert(self@.bck.len() == p + 1);
                assert(self@.cur() =~= (parent + spliced_from(chunks, j + 1)) + chunks[j as int]);
                assert(self@.cur() == parent + spliced_from(chunks, j as int));
                assert forall|i: int| 0 <= i < p implies self@.bck[i] == s0.bck[i] by {
                    assert(self@.bck[i] == before.bck[i]);
                }
                assert(self@.bck =~= s0.bck.take(p + 1).update(
                    p,
                    parent + spliced_from(chunks, j as int),
                ));
                assert(self@.frames =~= s0.frames);
            }
        }
        let ghost done = self@;
        proof {
            self.lemma_in_range();
        }
        let starts = reversed(rev);
        proof {
            assert(chunks.subrange(0, n as int) =~= chunks);
            assert forall|i: int| 0 <= i < n implies #[trigger] starts@[i] == concat_starts(
                parent.len(),
                chunks,
            )[i] by {
                assert(starts@[i] == rev@[n - 1 - i]);
            }
            assert(starts@ =~= concat_starts(parent.len(), chunks));
            assert forall|i: int| 0 <= i < n implies (#[trigger] starts@[i]) + s0.bck[s0.bck.len()
                - n + i].len() <= done.cur().len() by {
                lemma_spliced_from_step(chunks, i);
                lemma_spliced_from_grows(chunks, i);
            }
        }
        starts
    }

    /// After the last of the `n` children of a concatenation. The backward
    /// code of each child stands in a chunk of its own: the chunks are
    /// copied to the sequence below them from the last to the first, since
    /// the backward code runs from the last child to the first. Atoms of
    /// the top frame that stand in one of the chunks are moved to where
    /// their chunk went. Returns the location of each child: in the
    /// forward code where its bookmark says, in the backward code at the end
    /// of its chunk.
    fn visit_post_concat(&mut self, n: usize) -> (locations: Vec<Location>)
        requires
            old(self).inv(),
            old(self)@.wf(),
            old(self)@.bck.len() >= n + 1,
            old(self)@.bookmarks.len() >= n,
            old(self)@.top().located(old(self)@.bck),
        ensures
            final(self).inv(),
            final(self)@.in_range(),
            final(self)@ == concat_done(old(self)@, n as int),
            locations@ == concat_locs(
                old(self)@.bookmarks.subrange(
                    old(self)@.bookmarks.len() - n,
                    old(self)@.bookmarks.len() as int,
                ),
                (old(self)@.bck.len() - n - 1) as u64,
                old(self)@.bck[old(self)@.bck.len() - n - 1].len(),
                old(self)@.bck.subrange(old(self)@.bck.len() - n, old(self)@.bck.len() as int),
            ),
    {
        let ghost s0 = self@;
        let ghost p = s0.bck.len() - n - 1;
        let ghost chunks = s0.bck.subrange(p + 1, s0.bck.len() as int);
        let ghost marks = s0.bookmarks.subrange(
            s0.bookmarks.len() - n,
            s0.bookmarks.len() as int,
        );
        let starts = self.splice_chunks(n);
        let blen = self.bookmarks.len();
        let mut locations = self.bookmarks.split_off(blen - n);
        let parent = self.location();
        proof {
            assert(locations@ =~= marks);
            assert(chunks.subrange(0, n as int) =~= chunks);
            assert(self@.bck =~= concat_done(s0, n as int).bck);
            assert(self@.frames =~= s0.frames);
        }
        let mut j: usize = 0;
        while j < n
            invariant
                j <= n,
                locations@.len() == n,
                marks.len() == n,
                chunks.len() == n,
                starts@ == concat_starts(s0.bck[p].len(), chunks),
                parent.bck_seq_id == p,
                parent.bck == s0.bck[p].len() + spliced_from(chunks, 0).len(),
                forall|i: int|
                    0 <= i < j ==> #[trigger] locations@[i] == concat_locs(
                        marks,
                        p as u64,
                        s0.bck[p].len(),
                        chunks,
                    )[i],
                forall|i: int| j <= i < n ==> #[trigger] locations@[i] == marks[i],
            decreases n - j,
        {
            let end = if j == 0 {
                parent.bck
            } else {
                starts[j - 1]
            };
            let fwd = locations[j].fwd;
            locations[j] = Location { fwd, bck_seq_id: parent.bck_seq_id, bck: end };
            j += 1;
        }
        proof {
            assert(locations@ =~= concat_locs(marks, p as u64, s0.bck[p].len(), chunks));
        }
        let top = self.best_atoms_stack.len() - 1;
        proof {
            assert(s0.top() == self.best_atoms_stack@[top as int]@);
            assert forall|i: int|
                0 <= i < s0.top().atoms.len() && p < (#[trigger] s0.top().atoms[i]).code_loc.bck_seq_id
                    && s0.top().atoms[i].code_loc.bck_seq_id - p <= starts@.len() implies s0.top().atoms[i].code_loc.bck
                + starts@[s0.top().atoms[i].code_loc.bck_seq_id - p - 1] <= usize::MAX by {
                let id = s0.top().atoms[i].code_loc.bck_seq_id;
                assert(s0.bck[id as int] == chunks[id - p - 1]);
                assert(starts@[id - p - 1] + s0.bck[s0.bck.len() - n + (id - p - 1)].len()
                    <= self@.cur().len());
            }
        }
        self.best_atoms_stack[top].relocate(parent.bck_seq_id, &starts);
        proof {
            assert(self@.frames =~= concat_done(s0, n as int).frames);
            assert(self@.bck =~= concat_done(s0, n as int).bck);
            assert(self@.bookmarks =~= concat_done(s0, n as int).bookmarks);
        }
        locations
    }

    /// Tests whether atoms are taken at the current node: not below a
    /// repetition that may match nothing.
    fn wants_atoms(&self) -> (r: bool)
        ensures
            r == (self@.zero_rep_depth == 0),
    {
        self.zero_rep_depth == 0
    }

    /// Takes the atoms found at the node `h` into account: they are weighed
    /// against the best atoms so far, and they can be exact only if `h` is
    /// the whole pattern and holds no look-around assertion.
    fn finish_node(&mut self, h: &Expr, atoms: Option<Vec<Atom>>, code_loc: Location)
        requires
            old(self).inv(),
            old(self)@.sound(),
            atoms matches Some(found) ==> atoms_bounded(atom_views(found@)),
            code_loc.bck_seq_id == old(self)@.bck.len() - 1,
            code_loc.bck <= old(self)@.cur().len(),
        ensures
            final(self).inv(),
            final(self)@ == old(self)@.with_top(
                rolled_up(
                    old(self)@.top(),
                    found_views(atoms),
                    code_loc,
                    old(self)@.depth == 0 && !h.has_look(),
                ),
            ),
            final(self)@.sound(),
            old(self)@.inexact() ==> forall|k: int|
                0 <= k < final(self)@.frames.len() - 1 ==> (#[trigger] final(self)@.frames[k]).inexact(),
            old(self)@.inexact() ==> final(self)@.top().inexact() || (old(self)@.depth == 0
                && !h.has_look()),
    {
        let can_be_exact = self.depth == 0 && !h.contains_look();
        proof {
            lemma_settled(
                self@,
                found_views(atoms),
                code_loc,
                can_be_exact,
            );
        }
        self.roll_up(atoms, code_loc, can_be_exact);
    }

    /// Emits the code of a byte class: a masked byte where the class is
    /// the set of one, a bitmap otherwise.
    fn visit_post_class(&mut self, class: &ClassBytes) -> (l: Location)
        requires
            old(self).inv(),
            !class.spec_is_any_byte(),
        ensures
            final(self).inv(),
            l == old(self)@.loc(),
            old(self)@.in_range(),
            final(self)@ == old(self)@.emit(class_node_code(*class), class_node_code(*class)),
    {
        match class.to_hex_byte() {
            Some(byte) => self.emit_masked_byte(byte),
            None => self.emit_class(class),
        }
    }

    /// Emits the instruction of a look-around assertion.
    fn visit_post_look(&mut self, look: &Look) -> (l: Location)
        requires
            old(self).inv(),
        ensures
            final(self).inv(),
            l == old(self)@.loc(),
            old(self)@.in_range(),
            final(self)@ == old(self)@.emit(
                instr_code(look_opcode(*look)),
                instr_code(look_opcode(*look)),
            ),
    {
        match look {
            Look::Start => self.emit_instr(START),
            Look::End => self.emit_instr(END),
            Look::WordAscii => self.emit_instr(WORD_BOUNDARY),
            Look::WordAsciiNegate => self.emit_instr(WORD_BOUNDARY_NEG),
        }
    }

    /// Leaves a node: one node fewer is open.
    fn leave(&mut self)
        requires
            old(self).inv(),
            old(self)@.depth > 0,
        ensures
            final(self).inv(),
            final(self)@ == (State { depth: (old(self)@.depth - 1) as u32, ..old(self)@ }),
    {
        self.depth -= 1;
        assert(self@.bck =~= old(self)@.bck);
        assert(self@.frames =~= old(self)@.frames);
    }

    /// After an expression that matches the empty string: its atom is the
    /// empty string.
    fn post_empty(&mut self, h: &Expr, Ghost(s0): Ghost<State>)
        requires
            old(self).inv(),
            old(self)@ == entered(s0),
            s0.depth < u32::MAX,
            s0.sound(),
            s0.inexact(),
            *h is Empty || (*h matches Expr::Repetition(rep) && never_repeats(rep)),
        ensures
            final(self).inv(),
            done(s0, *h, final(self)@),
    {
        self.leave();
        let here = self.location();
        proof {
            assert(self@ == s0);
            assert(s0.fwd + fwd_code(*h) =~= s0.fwd);
            assert(s0.cur() + bck_code(*h) =~= s0.cur());
            assert(s0.bck.update(s0.bck.len() - 1, s0.cur()) =~= s0.bck);
            assert(s0.frames.update(s0.frames.len() - 1, s0.top()) =~= s0.frames);
        }
        if self.wants_atoms() {
            let mut atoms: Vec<Atom> = Vec::new();
            atoms.push(Atom::exact(Vec::new()));
            proof {
                assert(atom_views(atoms@) =~= seq![
                    AtomView { bytes: Seq::empty(), exact: true, backtrack: 0 },
                ]);
            }
            self.finish_node(h, Some(atoms), here);
        }
    }

    /// After a literal: emits its bytes, forward from the first to the
    /// last and backward from the last to the first. Its atom is its best
    /// window; the code of the bytes before the window is skipped in the
    /// forward code and left out at the end of the backward code.
    fn post_literal(&mut self, h: &Expr, literal: &Vec<u8>, Ghost(s0): Ghost<State>)
        requires
            old(self).inv(),
            old(self)@ == entered(s0),
            s0.depth < u32::MAX,
            s0.sound(),
            s0.inexact(),
            *h == Expr::Literal(*literal),
        ensures
            final(self).inv(),
            done(s0, *h, final(self)@),
    {
        self.leave();
        let bytes = literal.as_slice();
        let start = self.emit_literal(bytes);
        let end = self.location();
        let ghost emitted = self@;
        proof {
            lemma_sound_grows(s0, emitted);
            assert(emitted.frames.update(emitted.frames.len() - 1, emitted.top())
                =~= emitted.frames);
            lemma_literal_code_reverse_len(bytes@);
        }
        if self.wants_atoms() {
            let mut best_atom = best_atom_from_slice(bytes, DESIRED_ATOM_SIZE);
            let backtrack = best_atom.backtrack() as usize;
            proof {
                lemma_literal_code_prefix(bytes@, backtrack as int);
                assert(bytes@.subrange(0, backtrack as int) =~= bytes@.take(backtrack as int));
            }
            let adjustment = literal_code_length(slice_subrange(bytes, 0, backtrack));
            let code_loc = Location {
                fwd: start.fwd + adjustment,
                bck_seq_id: end.bck_seq_id,
                bck: end.bck - adjustment,
            };
            best_atom.set_backtrack(0);
            let mut atoms: Vec<Atom> = Vec::new();
            atoms.push(best_atom);
            proof {
                assert(atom_views(atoms@) =~= seq![literal_atom(bytes@)]);
                assert(code_loc == literal_loc(s0.loc(), bytes@));
            }
            self.finish_node(h, Some(atoms), code_loc);
        }
    }

    /// After a byte class: emits `ANY_BYTE` for the class of all bytes, and
    /// the class itself otherwise. Its atoms are those that the literal
    /// extractor gives.
    fn post_class(&mut self, h: &Expr, class: &ClassBytes, Ghost(s0): Ghost<State>)
        requires
            old(self).inv(),
            old(self)@ == entered(s0),
            s0.depth < u32::MAX,
            s0.sound(),
            s0.inexact(),
            *h == Expr::Class(*class),
        ensures
            final(self).inv(),
            done(s0, *h, final(self)@),
    {
        self.leave();
        let start = if class.is_any_byte() {
            self.emit_instr(ANY_BYTE)
        } else {
            self.visit_post_class(class)
        };
        let end = self.location();
        let code_loc = Location { fwd: start.fwd, bck_seq_id: end.bck_seq_id, bck: end.bck };
        let ghost emitted = self@;
        proof {
            lemma_sound_grows(s0, emitted);
            assert(emitted.frames.update(emitted.frames.len() - 1, emitted.top())
                =~= emitted.frames);
        }
        if self.wants_atoms() {
            let atoms = self.extracted(h);
            self.finish_node(h, atoms, code_loc);
        }
    }

    /// After a look-around assertion: emits its instruction. Its atoms are
    /// those that the literal extractor gives; they are never exact.
    fn post_look(&mut self, h: &Expr, look: &Look, Ghost(s0): Ghost<State>)
        requires
            old(self).inv(),
            old(self)@ == entered(s0),
            s0.depth < u32::MAX,
            s0.sound(),
            s0.inexact(),
            *h == Expr::Look(*look),
        ensures
            final(self).inv(),
            done(s0, *h, final(self)@),
    {
        self.leave();
        let start = self.visit_post_look(look);
        let end = self.location();
        let code_loc = Location { fwd: start.fwd, bck_seq_id: end.bck_seq_id, bck: end.bck };
        let ghost emitted = self@;
        proof {
            lemma_sound_grows(s0, emitted);
            assert(emitted.frames.update(emitted.frames.len() - 1, emitted.top())
                =~= emitted.frames);
        }
        if self.wants_atoms() {
            let atoms = self.extracted(h);
            self.finish_node(h, atoms, code_loc);
        }
    }

    /// The atoms that the literal extractor gives for an expression: those
    /// of its literals, simplified.
    fn extracted(&self, h: &Expr) -> (r: Option<Vec<Atom>>)
        ensures
            found_views(r) == extracted_atoms(*h),
            r matches Some(found) ==> atoms_bounded(atom_views(found@)),
    {
        let seq = extract_literals(h);
        let simple = simplify_seq(seq);
        seq_to_atoms(simple)
    }

    /// Enters a node: does what has to be done before its children are
    /// visited, and counts the node as open. A capture remembers where it
    /// starts; a concatenation opens the chunk of its first child; an
    /// alternation emits its split; a repetition emits its leading split
    /// where it may match nothing. A repetition of at most zero times has
    /// no code and its sub-expression is not visited.
    fn visit_pre(&mut self, h: &Expr)
        requires
            old(self).inv(),
            old(self)@.sound(),
            old(self)@.room_for(*h),
            h.wf(),
        ensures
            final(self).inv(),
            old(self)@.in_range(),
            final(self)@ == pre_state(old(self)@, *h),
    {
        let ghost s0 = self@;
        let here = self.location();
        match h {
            Expr::Empty => {},
            Expr::Literal(_) => {},
            Expr::Class(_) => {},
            Expr::Look(_) => {},
            Expr::Capture(_) => {
                self.push_bookmark(here);
            },
            Expr::Concat(subs) => {
                if subs.len() > 0 {
                    self.visit_pre_concat();
                }
            },
            Expr::Alternation(alternatives) => {
                self.visit_pre_alternation(alternatives.len());
            },
            Expr::Repetition(rep) => {
                let skip = match rep.max {
                    Some(max) => max == 0,
                    None => false,
                };
                if !skip {
                    self.visit_pre_repetition(rep);
                    proof {
                        let target = State {
                            bookmarks: s0.bookmarks + rep_marks(s0, *rep),
                            zero_rep_depth: if rep.min == 0 {
                                (s0.zero_rep_depth + 1) as u32
                            } else {
                                s0.zero_rep_depth
                            },
                            ..s0.emit(rep_lead(*rep), rep_lead(*rep))
                        };
                        assert(self@ == target);
                    }
                }
            },
        }
        let ghost before = self@;
        self.depth += 1;
        assert(self@.bck =~= before.bck);
        assert(self@.frames =~= before.frames);
    }

    /// After the sub-expression of a capture group: its atoms are those
    /// that the literal extractor gives, and it starts where the
    /// sub-expression starts.
    fn post_capture(&mut self, h: &Expr, Ghost(s0): Ghost<State>, Ghost(sub): Ghost<Expr>)
        requires
            old(self).inv(),
            *h == Expr::Capture(Box::new(sub)),
            s0.in_range(),
            s0.depth < u32::MAX,
            s0.sound(),
            s0.inexact(),
            done(pre_state(s0, *h), sub, old(self)@),
        ensures
            final(self).inv(),
            done(s0, *h, final(self)@),
    {
        let ghost c = pre_state(s0, *h);
        self.leave();
        let start = self.pop_bookmark();
        let end = self.location();
        let code_loc = Location { fwd: start.fwd, bck_seq_id: end.bck_seq_id, bck: end.bck };
        let ghost now = self@;
        proof {
            assert(c.ctx() == (Ctx { depth: (s0.depth + 1) as u32, ..s0.ctx() }));
            assert(now.bookmarks =~= s0.bookmarks);
            assert(now.frames.update(now.frames.len() - 1, now.top()) =~= now.frames);
            assert(now.frames =~= s0.frames.update(
                s0.frames.len() - 1,
                top_after(c.ctx(), sub),
            ));
            assert(now.inexact()) by {
                assert forall|k: int| 0 <= k < now.frames.len() implies (#[trigger] now.frames[k]).inexact() by {}
            }
        }
        if self.wants_atoms() {
            let atoms = self.extracted(h);
            self.finish_node(h, atoms, code_loc);
        }
        proof {
            assert(self@.fwd == s0.fwd + fwd_code(*h));
            assert(self@.bck == s0.bck.update(s0.bck.len() - 1, s0.cur() + bck_code(*h)));
            assert(code_loc == moved(s0.loc(), 0, bck_code(*h).len() as int));
            assert(top_after(s0.ctx(), *h) == settle(
                s0.ctx(),
                *h,
                top_after(c.ctx(), sub),
                extracted_atoms(*h),
                moved(s0.loc(), 0, bck_code(*h).len() as int),
            ));
            assert(self@.frames == s0.frames.update(
                s0.frames.len() - 1,
                top_after(s0.ctx(), *h),
            ));
            assert(self@ == s0.walked(*h));
            assert(self@.sound());
        }
    }

    /// After the sub-expression of a repetition: completes the code of the
    /// repetition. Its atoms are those that the literal extractor gives.
    fn post_repetition(
        &mut self,
        h: &Expr,
        rep: &Repetition,
        Ghost(s0): Ghost<State>,
    ) -> (r: Result<(), Error>)
        requires
            old(self).inv(),
            *h == Expr::Repetition(*rep),
            !never_repeats(*rep),
            rep.max matches Some(m) ==> rep.min <= m,
            s0.in_range(),
            s0.depth < u32::MAX,
            s0.sound(),
            s0.inexact(),
            done(pre_state(s0, *h), *rep.sub, old(self)@),
        ensures
            r is Ok <==> rep_fits(rep.min, rep.max, fwd_code(*rep.sub).len()) && rep_fits(
                rep.min,
                rep.max,
                bck_code(*rep.sub).len(),
            ),
            r is Ok ==> final(self).inv() && done(s0, *h, final(self)@),
    {
        let ghost c = pre_state(s0, *h);
        let ghost bf = fwd_code(*rep.sub);
        let ghost bb = bck_code(*rep.sub);
        self.leave();
        let ghost before = self@;
        proof {
            assert(before.fwd =~= s0.fwd + (rep_lead(*rep) + bf));
            assert(before.cur() =~= s0.cur() + (rep_lead(*rep) + bb));
            assert(before.bck =~= s0.bck.update(
                s0.bck.len() - 1,
                s0.cur() + (rep_lead(*rep) + bb),
            ));
            assert(before.inexact()) by {
                assert forall|k: int| 0 <= k < before.frames.len() implies (#[trigger] before.frames[k]).inexact() by {}
            }
        }
        let first = match self.visit_post_repetition(rep, Ghost(s0), Ghost(bf), Ghost(bb)) {
            Ok(l) => l,
            Err(e) => {
                return Err(e);
            },
        };
        let end = self.location();
        let code_loc = Location { fwd: first.fwd, bck_seq_id: end.bck_seq_id, bck: end.bck };
        let ghost now = self@;
        proof {
            lemma_rep_sound(s0, *rep, bf, bb, before, now);
            let lead = rep_lead(*rep).len() as int;
            assert(c.ctx() == (Ctx {
                top: s0.top(),
                loc: moved(s0.loc(), lead, lead),
                depth: (s0.depth + 1) as u32,
                zero_rep_depth: if rep.min == 0 {
                    (s0.zero_rep_depth + 1) as u32
                } else {
                    s0.zero_rep_depth
                },
            }));
            assert(now.bookmarks =~= s0.bookmarks);
            assert(code_loc == rep_code_loc(s0.loc(), *rep, bck_code(*h).len() as int));
            assert(now.frames.update(now.frames.len() - 1, now.top()) =~= now.frames);
        }
        if self.wants_atoms() {
            let atoms = self.extracted(h);
            self.finish_node(h, atoms, code_loc);
        }
        proof {
            let below = top_after(c.ctx(), *rep.sub);
            assert(self@.fwd == s0.fwd + fwd_code(*h));
            assert(self@.bck == s0.bck.update(s0.bck.len() - 1, s0.cur() + bck_code(*h)));
            assert(top_after(s0.ctx(), *h) == settle(
                s0.ctx(),
                *h,
                if rep.min >= 2 {
                    below.shifted(
                        s0.loc().bck_seq_id,
                        s0.loc().bck,
                        rep_shift(*rep, bck_code(*rep.sub)) as usize,
                    )
                } else {
                    below
                },
                extracted_atoms(*h),
                rep_code_loc(s0.loc(), *rep, bck_code(*h).len() as int),
            ));
            assert(now.top() == rep_frame(below, *rep, s0, bb));
            assert(self@.frames == s0.frames.update(
                s0.frames.len() - 1,
                top_after(s0.ctx(), *h),
            ));
            assert(self@ == s0.walked(*h));
            assert(self@.sound());
        }
        Ok(())
    }

    /// After the last alternative of an alternation: completes its code
    /// and gathers the atoms of the alternatives. The atoms that the
    /// literal extractor gives for the alternation are weighed against
    /// them.
    fn post_alternation(
        &mut self,
        h: &Expr,
        subs: &Vec<Expr>,
        Ghost(s0): Ghost<State>,
    ) -> (r: Result<(), Error>)
        requires
            old(self).inv(),
            *h == Expr::Alternation(*subs),
            1 <= subs@.len() <= MAX_ALTERNATIVES,
            s0.in_range(),
            s0.depth < u32::MAX,
            s0.sound(),
            s0.inexact(),
            alt_ready(s0, subs@, old(self)@),
            old(self)@.frames_ok(),
            old(self)@.inexact(),
        ensures
            r is Ok <==> alt_fits(fwd_bodies(subs@)) && alt_fits(bck_bodies(subs@)),
            r is Ok ==> final(self).inv() && done(s0, *h, final(self)@),
    {
        let n = subs.len();
        let ghost fb = fwd_bodies(subs@);
        let ghost bb = bck_bodies(subs@);
        let ghost tops = alt_tops(s0.ctx(), fb, bb, subs@);
        proof {
            lemma_bodies_len(subs@);
            lemma_alt_tops_len(s0.ctx(), fb, bb, subs@);
        }
        self.leave();
        let ghost before = self@;
        proof {
            assert(before.frames_ok()) by {
                assert forall|k: int| 0 <= k < before.frames.len() implies (#[trigger] before.frames[k]).located(
                    before.bck,
                ) && before.frames[k].bounded() by {
                    assert(before.frames[k] == old(self)@.frames[k]);
                }
            }
            assert(before.inexact()) by {
                assert forall|k: int| 0 <= k < before.frames.len() implies (#[trigger] before.frames[k]).inexact() by {
                    assert(before.frames[k] == old(self)@.frames[k]);
                }
            }
            lemma_alt_sound(before, n as int);
        }
        let split_loc = match self.visit_post_alternation(n, Ghost(s0), Ghost(fb), Ghost(bb)) {
            Ok(l) => l,
            Err(e) => {
                return Err(e);
            },
        };
        let end = self.location();
        let code_loc = Location { fwd: split_loc.fwd, bck_seq_id: end.bck_seq_id, bck: end.bck };
        let ghost now = self@;
        proof {
            let merged = State { frames: alt_frames(before.frames, n as int), ..before };
            assert(now.frames == merged.frames);
            assert(before.frames.subrange(before.frames.len() - n, before.frames.len() as int)
                =~= tops);
            assert(before.frames.take(before.frames.len() - n) =~= s0.frames);
            assert(now.frames =~= s0.frames.update(
                s0.frames.len() - 1,
                alt_parent(s0.top(), tops),
            ));
            assert(before.cur().len() == now.cur().len()) by {
                lemma_alt_total(bb, n - 1);
                lemma_alt_start(bb, n - 1);
                lemma_offsets_bytes_len(alt_offsets(bb));
                assert(split_n_hole(n as u8).len() == split_n_size(n as nat));
            }
            assert forall|i: int| 0 <= i < before.bck.len() implies (#[trigger] before.bck[i]).len()
                <= now.bck[i].len() by {}
            assert(now.frames_ok()) by {
                assert forall|k: int| 0 <= k < now.frames.len() implies (#[trigger] now.frames[k]).located(
                    now.bck,
                ) && now.frames[k].bounded() by {
                    assert(merged.frames[k].located(merged.bck));
                    lemma_located_grows(merged.frames[k], before.bck, now.bck);
                }
            }
            assert(now.inexact()) by {
                assert forall|k: int| 0 <= k < now.frames.len() implies (#[trigger] now.frames[k]).inexact() by {
                    assert(merged.frames[k].inexact());
                }
            }
            assert(now.bookmarks =~= s0.bookmarks);
            assert(now.frames.update(now.frames.len() - 1, now.top()) =~= now.frames);
        }
        if self.wants_atoms() {
            let atoms = self.extracted(h);
            self.finish_node(h, atoms, code_loc);
        }
        proof {
            assert(self@.fwd == s0.fwd + fwd_code(*h));
            assert(self@.bck == s0.bck.update(s0.bck.len() - 1, s0.cur() + bck_code(*h)));
            assert(code_loc == moved(s0.loc(), 0, bck_code(*h).len() as int));
            assert(top_after(s0.ctx(), *h) == settle(
                s0.ctx(),
                *h,
                alt_parent(s0.top(), tops),
                extracted_atoms(*h),
                moved(s0.loc(), 0, bck_code(*h).len() as int),
            ));
            assert(self@.frames == s0.frames.update(
                s0.frames.len() - 1,
                top_after(s0.ctx(), *h),
            ));
            assert(self@ == s0.walked(*h));
            assert(self@.sound());
        }
        Ok(())
    }

    /// After the last child of a concatenation: puts the backward code of
    /// the children together, from the last to the first, and weighs the
    /// atoms that a run of children gives against the best atoms so far.
    fn post_concat(&mut self, h: &Expr, subs: &Vec<Expr>, Ghost(s0): Ghost<State>)
        requires
            old(self).inv(),
            *h == Expr::Concat(*subs),
            subs@.len() >= 1,
            s0.in_range(),
            s0.depth < u32::MAX,
            s0.sound(),
            s0.inexact(),
            concat_ready(s0, subs@, old(self)@),
            old(self)@.frames_ok(),
            old(self)@.inexact(),
        ensures
            final(self).inv(),
            done(s0, *h, final(self)@),
    {
        let n = subs.len();
        let ghost chunks = bck_bodies(subs@);
        let ghost p = s0.bck.len() - 1;
        proof {
            lemma_bodies_len(subs@);
            lemma_bck_concat_spliced(subs@);
        }
        self.leave();
        let ghost before = self@;
        proof {
            assert(before.bck.subrange(p + 1, before.bck.len() as int) =~= chunks);
            assert(before.bck.take(p + 1) =~= s0.bck);
            assert(before.frames_ok()) by {
                assert forall|k: int| 0 <= k < before.frames.len() implies (#[trigger] before.frames[k]).located(
                    before.bck,
                ) && before.frames[k].bounded() by {
                    assert(before.frames[k] == old(self)@.frames[k]);
                }
            }
            assert(before.inexact()) by {
                assert forall|k: int| 0 <= k < before.frames.len() implies (#[trigger] before.frames[k]).inexact() by {
                    assert(before.frames[k] == old(self)@.frames[k]);
                }
            }
            assert forall|k: int| 0 <= k < before.frames.len() - 1 implies (#[trigger] before.frames[k]).located(
                before.bck.take(before.bck.len() - n),
            ) by {
                assert(before.frames[k] == s0.frames[k]);
            }
        }
        let locations = self.visit_post_concat(n);
        let ghost now = self@;
        proof {
            lemma_concat_sound(before, n as int);
            assert(now.bck =~= s0.bck.update(p, s0.cur() + bck_concat(subs@)));
            assert(now.bookmarks =~= s0.bookmarks);
            assert(now.frames.update(now.frames.len() - 1, now.top()) =~= now.frames);
            assert(now.frames =~= s0.frames.update(
                s0.frames.len() - 1,
                concat_top(s0.ctx(), subs@).relocated(
                    s0.loc().bck_seq_id,
                    concat_starts(s0.loc().bck as nat, chunks),
                ),
            ));
        }
        if self.wants_atoms() {
            let (atoms, index) = pick_concat_atoms(subs);
            let code_loc = if atoms.is_some() {
                locations[index]
            } else {
                self.location()
            };
            proof {
                if atoms is Some {
                    let marks = before.bookmarks.subrange(
                        before.bookmarks.len() - n,
                        before.bookmarks.len() as int,
                    );
                    assert(marks[index as int] == before.bookmarks[s0.bookmarks.len() + index]);
                    lemma_spliced_from_grows(chunks, index as int);
                    assert(chunks.subrange(0, n as int) =~= chunks);
                    assert(code_loc == concat_child_loc(s0.loc(), subs@, index as int));
                }
            }
            self.finish_node(h, atoms, code_loc);
        }
        proof {
            let found = concat_atoms(s0.loc(), subs@);
            assert(self@.fwd == s0.fwd + fwd_code(*h));
            assert(self@.bck == s0.bck.update(s0.bck.len() - 1, s0.cur() + bck_code(*h)));
            assert(top_after(s0.ctx(), *h) == settle(
                s0.ctx(),
                *h,
                concat_top(s0.ctx(), subs@).relocated(
                    s0.loc().bck_seq_id,
                    concat_starts(s0.loc().bck as nat, chunks),
                ),
                found.0,
                found.1,
            ));
            assert(self@.frames == s0.frames.update(
                s0.frames.len() - 1,
                top_after(s0.ctx(), *h),
            ));
            assert(self@ == s0.walked(*h));
            assert(self@.sound());
        }
    }

    /// Leaves a node: completes its code, now that the code of its
    /// children is emitted, and takes the atoms found at the node into
    /// account, unless the node stands below a repetition that may match
    /// nothing. A literal gives its best window as its atom; an empty
    /// expression gives the empty atom; a concatenation gives the best
    /// atoms that a run of its children gives; every other node gives the
    /// atoms that the literal extractor finds for it. Fails with
    /// `TooLarge` if a jump or split of the node cannot reach its
    /// destination.
    fn visit_post(&mut self, h: &Expr, Ghost(s0): Ghost<State>) -> (r: Result<(), Error>)
        requires
            old(self).inv(),
            h.wf(),
            s0.in_range(),
            s0.depth < u32::MAX,
            s0.sound(),
            s0.inexact(),
            before_post(s0, *h, old(self)@),
        ensures
            r is Ok <==> node_fits(*h),
            r is Ok ==> final(self).inv() && done(s0, *h, final(self)@),
    {
        match h {
            Expr::Empty => {
                self.post_empty(h, Ghost(s0));
                Ok(())
            },
            Expr::Literal(literal) => {
                self.post_literal(h, literal, Ghost(s0));
                Ok(())
            },
            Expr::Class(class) => {
                self.post_class(h, class, Ghost(s0));
                Ok(())
            },
            Expr::Look(look) => {
                self.post_look(h, look, Ghost(s0));
                Ok(())
            },
            Expr::Capture(sub) => {
                self.post_capture(h, Ghost(s0), Ghost(**sub));
                Ok(())
            },
            Expr::Concat(subs) => {
                if subs.len() == 0 {
                    self.leave();
                    proof {
                        assert(self@ == s0);
                        assert(fwd_concat(subs@) =~= Seq::<u8>::empty());
                        assert(bck_concat(subs@) =~= Seq::<u8>::empty());
                        assert(s0.fwd + fwd_code(*h) =~= s0.fwd);
                        assert(s0.cur() + bck_code(*h) =~= s0.cur());
                        assert(s0.bck.update(s0.bck.len() - 1, s0.cur()) =~= s0.bck);
                        assert(s0.frames.update(s0.frames.len() - 1, s0.top()) =~= s0.frames);
                        assert(top_after(s0.ctx(), *h) == s0.top());
                    }
                } else {
                    self.post_concat(h, subs, Ghost(s0));
                }
                Ok(())
            },
            Expr::Alternation(subs) => self.post_alternation(h, subs, Ghost(s0)),
            Expr::Repetition(rep) => {
                let skip = match rep.max {
                    Some(max) => max == 0,
                    None => false,
                };
                if skip {
                    self.post_empty(h, Ghost(s0));
                    Ok(())
                } else {
                    self.post_repetition(h, rep, Ghost(s0))
                }
            },
        }
    }

    /// Visits the children of a concatenation one after the other, each
    /// with a chunk of its own for its backward code.
    fn visit_concat_children(
        &mut self,
        h: &Expr,
        subs: &Vec<Expr>,
        Ghost(s0): Ghost<State>,
    ) -> (r: Result<(), Error>)
        requires
            old(self).inv(),
            *h == Expr::Concat(*subs),
            subs@.len() >= 1,
            h.wf(),
            s0.in_range(),
            s0.sound(),
            s0.inexact(),
            s0.room_for(*h),
            old(self)@ == pre_state(s0, *h),
        ensures
            r is Ok <==> all_fit(subs@),
            r is Ok ==> final(self).inv() && concat_ready(s0, subs@, final(self)@) && final(self)@.frames_ok() && final(self)@.inexact(),
        decreases h, 0nat,
    {
        let n = subs.len();
        proof {
            assert(subs@.take(0) =~= Seq::<Expr>::empty());
            lemma_concat_start(s0, subs@, self@);
        }
        let mut i: usize = 0;
        while i < n
            invariant
                i <= n,
                n == subs@.len(),
                n >= 1,
                self.inv(),
                *h == Expr::Concat(*subs),
                h.wf(),
                s0.in_range(),
                s0.sound(),
                s0.inexact(),
                s0.room_for(*h),
                all_fit(subs@.take(i as int)),
                concat_going(s0, subs@, i as int, self@),
            decreases n - i,
        {
            let ghost before = self@;
            proof {
                self.lemma_in_range();
            }
            proof {
                lemma_size_all_index(subs@, i as int);
                lemma_bodies_len(subs@.take(i as int));
            }
            if i > 0 {
                self.visit_concat_in();
            }
            let ghost start = self@;
            proof {
                self.lemma_in_range();
            }
            proof {
                lemma_concat_child(s0, subs@, i as int, before, start);
                assert(subs@.take(i + 1).drop_last() =~= subs@.take(i as int));
            }
            match self.visit(&subs[i]) {
                Ok(()) => {},
                Err(e) => {
                    proof {
                        lemma_all_fit_index(subs@, i as int);
                    }
                    return Err(e);
                },
            }
            proof {
                lemma_concat_step(s0, subs@, i as int, start, self@);
            }
            i += 1;
        }
        proof {
            assert(subs@.take(n as int) =~= subs@);
        }
        Ok(())
    }

    /// Visits the alternatives of an alternation one after the other, each
    /// with a frame of its own for its atoms, and emits the jump between
    /// each two of them.
    fn visit_alternatives(
        &mut self,
        h: &Expr,
        subs: &Vec<Expr>,
        Ghost(s0): Ghost<State>,
    ) -> (r: Result<(), Error>)
        requires
            old(self).inv(),
            *h == Expr::Alternation(*subs),
            h.wf(),
            s0.in_range(),
            s0.sound(),
            s0.inexact(),
            s0.room_for(*h),
            old(self)@ == pre_state(s0, *h),
        ensures
            r is Ok <==> all_fit(subs@),
            r is Ok ==> final(self).inv() && alt_ready(s0, subs@, final(self)@) && final(self)@.frames_ok() && final(self)@.inexact(),
        decreases h, 0nat,
    {
        let n = subs.len();
        proof {
            assert(subs@.take(0) =~= Seq::<Expr>::empty());
        }
        let mut i: usize = 0;
        while i < n
            invariant
                i <= n,
                n == subs@.len(),
                1 <= n <= MAX_ALTERNATIVES,
                self.inv(),
                *h == Expr::Alternation(*subs),
                h.wf(),
                s0.in_range(),
                s0.sound(),
                s0.inexact(),
                s0.room_for(*h),
                all_fit(subs@.take(i as int)),
                alt_going(s0, subs@, i as int, self@),
            decreases n - i,
        {
            let ghost before = self@;
            proof {
                self.lemma_in_range();
            }
            proof {
                lemma_size_all_index(subs@, i as int);
            }
            if i > 0 {
                self.visit_alternation_in();
            }
            let ghost start = self@;
            proof {
                self.lemma_in_range();
            }
            proof {
                lemma_alt_child(s0, subs@, i as int, before, start);
                assert(subs@.take(i + 1).drop_last() =~= subs@.take(i as int));
            }
            match self.visit(&subs[i]) {
                Ok(()) => {},
                Err(e) => {
                    proof {
                        lemma_all_fit_index(subs@, i as int);
                    }
                    return Err(e);
                },
            }
            proof {
                lemma_alt_step(s0, subs@, i as int, start, self@);
            }
            i += 1;
        }
        proof {
            assert(subs@.take(n as int) =~= subs@);
        }
        Ok(())
    }

    /// Visits an expression: enters it, visits its children from the first
    /// to the last, and leaves it. After the visit the code of the
    /// expression stands at the end of both streams, and the top frame
    /// holds the best atoms found so far. The visit fails with `TooLarge`
    /// if and only if a jump or split in the code of the expression cannot
    /// reach its destination.
    fn visit(&mut self, h: &Expr) -> (r: Result<(), Error>)
        requires
            old(self).inv(),
            old(self)@.sound(),
            old(self)@.inexact(),
            old(self)@.room_for(*h),
            h.wf(),
        ensures
            r is Ok <==> fits(*h),
            r is Ok ==> final(self).inv() && done(old(self)@, *h, final(self)@),
        decreases h, 1nat,
    {
        let ghost s0 = self@;
        self.visit_pre(h);
        let ghost entered_state = self@;
        match h {
            Expr::Capture(sub) => {
                proof {
                    lemma_sound_grows(s0, State { depth: s0.depth, ..entered_state });
                    assert(entered_state.inexact());
                }
                match self.visit(&**sub) {
                    Ok(()) => {},
                    Err(e) => {
                        return Err(e);
                    },
                }
            },
            Expr::Concat(subs) => {
                if subs.len() > 0 {
                    match self.visit_concat_children(h, subs, Ghost(s0)) {
                        Ok(()) => {},
                        Err(e) => {
                            return Err(e);
                        },
                    }
                }
            },
            Expr::Alternation(subs) => {
                match self.visit_alternatives(h, subs, Ghost(s0)) {
                    Ok(()) => {},
                    Err(e) => {
                        return Err(e);
                    },
                }
            },
            Expr::Repetition(rep) => {
                let skip = match rep.max {
                    Some(max) => max == 0,
                    None => false,
                };
                if !skip {
                    proof {
                        self.lemma_in_range();
                    }
                    proof {
                        assert(entered_state.frames_ok()) by {
                            assert forall|k: int| 0 <= k < entered_state.frames.len() implies (#[trigger] entered_state.frames[k]).located(
                                entered_state.bck,
                            ) && entered_state.frames[k].bounded() by {
                                lemma_located_grows(s0.frames[k], s0.bck, entered_state.bck);
                            }
                        }
                        assert(entered_state.inexact());
                    }
                    match self.visit(&*rep.sub) {
                        Ok(()) => {},
                        Err(e) => {
                            return Err(e);
                        },
                    }
                }
            },
            _ => {},
        }
        proof {
            if *h is Concat {
                let subs = (*h)->Concat_0;
                if subs@.len() == 0 {
                    assert(all_fit(subs@));
                }
            }
        }
        self.visit_post(h, Ghost(s0))
    }
}

} // verus!
