//! The state of a compilation as plain values, and what each step of the
//! walk over an expression does to it.

use vstd::prelude::*;
use crate::atoms::{Atom, AtomView, MAX_ATOMS_PER_REGEXP};
use crate::code::{
    all_fit, alt_fits, alt_start, back_split, bck_bodies, bck_code, block, fits, fwd_bodies,
    fwd_code, fwd_concat, lemma_alt_start, lemma_bodies_len, lemma_patch_branch,
    lemma_repeated_front, lemma_spliced_from_step, never_repeats, optional_copies, raw_alts,
    rep_code, rep_fits, repeated, spliced, spliced_from, split_n_hole, split_n_size, stay_split,
};
use crate::hir::{Expr, MAX_ALTERNATIVES, Repetition};
use crate::instr::{
    branch_code, has_offset, instr_code, offset_bytes, offsets_bytes, overwrite, JUMP, JUMP_SIZE,
    OPCODE_PREFIX, SPLIT_N,
};
use crate::literal_seq::{
    atom_views, count_exact, lemma_count_exact_bound, made_inexact, min_quality,
};
use crate::location::{Location, Offset};
use crate::regexp_atoms::{Frame, RegexpAtom, RegexpAtomView};
use crate::walk::{alt_tops, can_be_exact, concat_top, moved, top_after, Ctx};

verus! {

/// The state of a compilation as plain values.
pub struct State {
    /// The forward code.
    pub fwd: Seq<u8>,
    /// The backward code, and above it the chunks that are open; the
    /// sequence at index `i` has the identifier `i`.
    pub bck: Seq<Seq<u8>>,
    /// The locations that the compiler has to come back to.
    pub bookmarks: Seq<Location>,
    /// The best atoms found so far, one frame for each open alternative
    /// above the frame of the whole expression.
    pub frames: Seq<Frame>,
    /// How many nodes are open.
    pub depth: u32,
    /// How many of the open nodes are repetitions that may match nothing.
    pub zero_rep_depth: u32,
}

/// The forward parts of a list of offsets.
pub open spec fn fwd_offsets(offsets: Seq<Offset>) -> Seq<i16> {
    Seq::new(offsets.len(), |i: int| offsets[i].fwd)
}

/// The backward parts of a list of offsets.
pub open spec fn bck_offsets(offsets: Seq<Offset>) -> Seq<i16> {
    Seq::new(offsets.len(), |i: int| offsets[i].bck)
}

impl State {
    /// The state before anything is compiled.
    pub open spec fn initial() -> State {
        State {
            fwd: Seq::empty(),
            bck: seq![Seq::empty()],
            bookmarks: Seq::empty(),
            frames: seq![Frame::empty()],
            depth: 0,
            zero_rep_depth: 0,
        }
    }

    /// True if there is a backward sequence to write to and a frame of
    /// atoms to fill.
    pub open spec fn wf(self) -> bool {
        self.bck.len() >= 1 && self.frames.len() >= 1
    }

    /// The backward sequence that receives code: the chunk opened last, or
    /// the backward code itself.
    pub open spec fn cur(self) -> Seq<u8> {
        self.bck.last()
    }

    /// The location at which the next instruction will stand.
    pub open spec fn loc(self) -> Location {
        Location {
            fwd: self.fwd.len() as usize,
            bck_seq_id: (self.bck.len() - 1) as u64,
            bck: self.cur().len() as usize,
        }
    }

    /// True if the lengths of the two streams and the number of backward
    /// sequences can be held by the machine's integers.
    pub open spec fn in_range(self) -> bool {
        &&& self.bck.len() >= 1
        &&& self.fwd.len() <= usize::MAX
        &&& self.cur().len() <= usize::MAX
        &&& self.bck.len() - 1 <= usize::MAX
    }

    /// The state with other code in the current backward sequence.
    pub open spec fn with_cur(self, b: Seq<u8>) -> State {
        State { bck: self.bck.update(self.bck.len() - 1, b), ..self }
    }

    /// The state after `f` was added to the forward code and `b` to the
    /// current backward sequence.
    pub open spec fn emit(self, f: Seq<u8>, b: Seq<u8>) -> State {
        State { fwd: self.fwd + f, bck: self.bck.update(self.bck.len() - 1, self.cur() + b), ..self }
    }

    /// The state after an offset was written into the jump or split at
    /// `at`.
    pub open spec fn patch(self, at: Location, o: Offset) -> State {
        State {
            fwd: overwrite(self.fwd, at.fwd + 2, offset_bytes(o.fwd)),
            bck: self.bck.update(
                self.bck.len() - 1,
                overwrite(self.cur(), at.bck + 2, offset_bytes(o.bck)),
            ),
            ..self
        }
    }

    /// The state after offsets were written into the n-way split at `at`.
    pub open spec fn patch_n(self, at: Location, offsets: Seq<Offset>) -> State {
        State {
            fwd: overwrite(self.fwd, at.fwd + 3, offsets_bytes(fwd_offsets(offsets))),
            bck: self.bck.update(
                self.bck.len() - 1,
                overwrite(self.cur(), at.bck + 3, offsets_bytes(bck_offsets(offsets))),
            ),
            ..self
        }
    }

    /// The state with one more bookmark.
    pub open spec fn mark(self, l: Location) -> State {
        State { bookmarks: self.bookmarks.push(l), ..self }
    }

    /// The state without its last bookmark.
    pub open spec fn unmark(self) -> State {
        State { bookmarks: self.bookmarks.drop_last(), ..self }
    }

    /// The state with a new, empty chunk.
    pub open spec fn open_chunk(self) -> State {
        State { bck: self.bck.push(Seq::empty()), ..self }
    }

    /// The state with a new, empty frame of atoms.
    pub open spec fn open_frame(self) -> State {
        State { frames: self.frames.push(Frame::empty()), ..self }
    }

    /// The frame that receives atoms.
    pub open spec fn top(self) -> Frame {
        self.frames.last()
    }

    /// The state with another frame in the place of the top one.
    pub open spec fn with_top(self, f: Frame) -> State {
        State { frames: self.frames.update(self.frames.len() - 1, f), ..self }
    }

    /// True if the atoms of every frame are within their limits and stand
    /// within the backward code, and no more repetitions are open than
    /// nodes.
    pub open spec fn sound(self) -> bool {
        &&& self.wf()
        &&& self.zero_rep_depth <= self.depth
        &&& self.frames_ok()
    }

    /// True if the atoms of every frame are within their limits and stand
    /// within the backward code.
    pub open spec fn frames_ok(self) -> bool {
        forall|k: int|
            0 <= k < self.frames.len() ==> (#[trigger] self.frames[k]).located(self.bck)
                && self.frames[k].bounded()
    }

    /// True if no atom of any frame is exact.
    pub open spec fn inexact(self) -> bool {
        forall|k: int| 0 <= k < self.frames.len() ==> (#[trigger] self.frames[k]).inexact()
    }

    /// True if the tree `h` can be visited from this state without a
    /// counter running over.
    pub open spec fn room_for(self, h: Expr) -> bool {
        self.depth + h.size() <= u32::MAX && self.bck.len() + h.size() <= u32::MAX
    }

    /// What the atoms of an expression visited from this state depend on.
    pub open spec fn ctx(self) -> Ctx {
        Ctx {
            top: self.top(),
            loc: self.loc(),
            depth: self.depth,
            zero_rep_depth: self.zero_rep_depth,
        }
    }

    /// The state after the expression `h` was visited from this state:
    /// its code stands behind the code that was there, and the top frame
    /// holds the best atoms after it.
    pub open spec fn walked(self, h: Expr) -> State {
        State {
            fwd: self.fwd + fwd_code(h),
            bck: self.bck.update(self.bck.len() - 1, self.cur() + bck_code(h)),
            frames: self.frames.update(self.frames.len() - 1, top_after(self.ctx(), h)),
            ..self
        }
    }

    /// True if a jump or two-way split stands at `at` in both streams.
    pub open spec fn branch_at(self, at: Location) -> bool {
        &&& at.fwd + JUMP_SIZE <= self.fwd.len()
        &&& self.fwd[at.fwd as int] == OPCODE_PREFIX
        &&& has_offset(self.fwd[at.fwd + 1])
        &&& at.bck + JUMP_SIZE <= self.cur().len()
        &&& self.cur()[at.bck as int] == OPCODE_PREFIX
        &&& has_offset(self.cur()[at.bck + 1])
    }

    /// True if an n-way split for `n` alternatives stands at `at` in both
    /// streams.
    pub open spec fn split_n_at(self, at: Location, n: nat) -> bool {
        &&& at.fwd + split_n_size(n) <= self.fwd.len()
        &&& self.fwd[at.fwd as int] == OPCODE_PREFIX
        &&& self.fwd[at.fwd + 1] == SPLIT_N
        &&& self.fwd[at.fwd + 2] == n
        &&& at.bck + split_n_size(n) <= self.cur().len()
        &&& self.cur()[at.bck as int] == OPCODE_PREFIX
        &&& self.cur()[at.bck + 1] == SPLIT_N
        &&& self.cur()[at.bck + 2] == n
    }
}

/// The atoms, each with the same location.
pub open spec fn with_loc(atoms: Seq<AtomView>, code_loc: Location) -> Seq<RegexpAtomView> {
    Seq::new(atoms.len(), |i: int| RegexpAtomView { atom: atoms[i], code_loc })
}

/// The frame made of the atoms found at a node: its quality is that of
/// the worst atom. Where the atoms cannot be exact, all are made inexact.
pub open spec fn candidate_frame(atoms: Seq<AtomView>, code_loc: Location, can_be_exact: bool) -> Frame {
    let frame = Frame {
        atoms: with_loc(atoms, code_loc),
        min_quality: min_quality(atoms) as i32,
        exact_atoms: count_exact(atoms) as usize,
    };
    if can_be_exact {
        frame
    } else {
        frame.made_inexact()
    }
}

/// True if the atoms found at a node take the place of the best atoms so
/// far: their worst atom is better, or it is as good and more of them are
/// exact, where they can be exact at all.
pub open spec fn replaces(best: Frame, atoms: Seq<AtomView>, can_be_exact: bool) -> bool {
    min_quality(atoms) > best.min_quality || (min_quality(atoms) == best.min_quality
        && can_be_exact && count_exact(atoms) > best.exact_atoms)
}

/// The best atoms after a node, from the best so far and the atoms found
/// at the node.
pub open spec fn rolled_up(
    best: Frame,
    atoms: Option<Seq<AtomView>>,
    code_loc: Location,
    can_be_exact: bool,
) -> Frame {
    match atoms {
        None => best,
        Some(found) => {
            if found.len() > 0 && replaces(best, found, can_be_exact) {
                candidate_frame(found, code_loc, can_be_exact)
            } else {
                best
            }
        },
    }
}

/// The values of the atoms found at a node, if any were found.
pub open spec fn found_views(atoms: Option<Vec<Atom>>) -> Option<Seq<AtomView>> {
    match atoms {
        Some(found) => Some(atom_views(found@)),
        None => None,
    }
}

/// True if there are at most `MAX_ATOMS_PER_REGEXP` atoms and none has a
/// backtrack.
pub open spec fn atoms_bounded(atoms: Seq<AtomView>) -> bool {
    &&& atoms.len() <= MAX_ATOMS_PER_REGEXP
    &&& forall|i: int| 0 <= i < atoms.len() ==> (#[trigger] atoms[i]).backtrack == 0
}

/// The locations of `k` blocks in a row, the first of them at `base`: each
/// block is a branch with opcode `op` followed by a body, `bf` in the
/// forward code and `bb` in the backward code.
pub open spec fn hole_locs(base: Location, op: u8, bf: Seq<u8>, bb: Seq<u8>, k: nat) -> Seq<Location> {
    Seq::new(
        k,
        |j: int|
            Location {
                fwd: (base.fwd + repeated(block(op, bf), j as nat).len()) as usize,
                bck_seq_id: base.bck_seq_id,
                bck: (base.bck + repeated(block(op, bb), j as nat).len()) as usize,
            },
    )
}

/// Emitting twice is emitting both pieces at once.
pub proof fn lemma_emit_emit(s: State, a: Seq<u8>, b: Seq<u8>, c: Seq<u8>, d: Seq<u8>)
    requires
        s.bck.len() >= 1,
    ensures
        s.emit(a, b).emit(c, d) == s.emit(a + c, b + d),
{
    assert(s.emit(a, b).emit(c, d).fwd =~= s.emit(a + c, b + d).fwd);
    assert((s.cur() + b) + d =~= s.cur() + (b + d));
    assert(s.emit(a, b).emit(c, d).bck =~= s.emit(a + c, b + d).bck);
}

/// Emitting nothing changes nothing.
pub proof fn lemma_emit_nothing(s: State)
    requires
        s.bck.len() >= 1,
    ensures
        s.emit(Seq::empty(), Seq::empty()) == s,
{
    assert(s.emit(Seq::empty(), Seq::empty()).fwd =~= s.fwd);
    assert(s.cur() + Seq::<u8>::empty() =~= s.cur());
    assert(s.emit(Seq::empty(), Seq::empty()).bck =~= s.bck);
}

/// True if the state `now` has come from the state `from` by adding `cf`
/// to the forward code and `cb` to the current backward sequence, by
/// adding the bookmarks `marks`, and by entering `zero` repetitions that
/// may match nothing.
pub open spec fn progressed(
    from: State,
    cf: Seq<u8>,
    cb: Seq<u8>,
    marks: Seq<Location>,
    zero: int,
    now: State,
) -> bool {
    &&& now.fwd == from.fwd + cf
    &&& now.bck == from.bck.update(from.bck.len() - 1, from.cur() + cb)
    &&& now.bookmarks == from.bookmarks + marks
    &&& now.zero_rep_depth == from.zero_rep_depth + zero
}

/// The bookmarks that the visit of a repetition leaves for its end: the
/// location of the leading split where there is one, and the location of
/// the first body unless the repetition has no bounds.
pub open spec fn rep_marks(s: State, rep: Repetition) -> Seq<Location> {
    let hole = instr_code(stay_split(rep.greedy));
    if rep.min == 0 {
        if rep.max is None {
            seq![s.loc()]
        } else {
            seq![s.loc(), s.emit(hole, hole).loc()]
        }
    } else {
        seq![s.loc()]
    }
}

/// The code that stands before the first body of a repetition: a split
/// whose offset is still to come, where the repetition may match nothing.
pub open spec fn rep_lead(rep: Repetition) -> Seq<u8> {
    if rep.min == 0 {
        instr_code(stay_split(rep.greedy))
    } else {
        Seq::empty()
    }
}

/// By how many bytes the end of the first body of a repetition moves in
/// the backward code when the repetition is completed.
pub open spec fn rep_shift(rep: Repetition, body: Seq<u8>) -> int {
    if rep.min >= 2 {
        repeated(body, (rep.min - 1) as nat).len() + if rep.max is None {
            JUMP_SIZE as int
        } else {
            0
        }
    } else {
        0
    }
}

/// The location that stands for a repetition: that of its first body, or
/// that of its first split if it has no bounds.
pub open spec fn rep_loc(s: State, rep: Repetition) -> Location {
    let hole = instr_code(stay_split(rep.greedy));
    if rep.min == 0 && rep.max is Some {
        s.emit(hole, hole).loc()
    } else {
        s.loc()
    }
}

/// The top frame after a repetition was completed: where the body was
/// repeated at least twice, the atoms that stand in the first body are
/// moved behind the code that was added.
pub open spec fn rep_frame(top: Frame, rep: Repetition, s: State, body: Seq<u8>) -> Frame {
    if rep.min >= 2 {
        top.shifted(
            (s.bck.len() - 1) as u64,
            s.cur().len() as usize,
            rep_shift(rep, body) as usize,
        )
    } else {
        top
    }
}

/// The code of `e{min,}` as it is emitted: the body, `min - 2` copies, the
/// split and one more copy.
pub proof fn lemma_at_least_code(p: Seq<u8>, body: Seq<u8>, min: u32, greedy: bool, o: i16)
    requires
        min >= 2,
    ensures
        ({
            let x = p + body + repeated(body, (min - 2) as nat);
            &&& o == -body.len() ==> overwrite(
                x + instr_code(back_split(greedy)),
                x.len() as int + 2,
                offset_bytes(o),
            ) + body == p + rep_code(min, None, greedy, body)
            &&& (x + instr_code(back_split(greedy)))[x.len() as int] == OPCODE_PREFIX
            &&& has_offset((x + instr_code(back_split(greedy)))[x.len() as int + 1])
            &&& (p + rep_code(min, None, greedy, body)).len() == x.len() + JUMP_SIZE + body.len()
            &&& (p + rep_code(min, None, greedy, body)).len() - (p + body).len() == repeated(
                body,
                (min - 1) as nat,
            ).len() + JUMP_SIZE
        }),
{
    let op = back_split(greedy);
    let x = p + body + repeated(body, (min - 2) as nat);
    lemma_patch_branch(x, op, Seq::empty(), o);
    lemma_repeated_front(body, (min - 2) as nat);
    assert(x + instr_code(op) =~= x + instr_code(op) + Seq::<u8>::empty());
    assert(offset_bytes((-body.len()) as i16).len() == 2);
    if o == -body.len() {
        assert(x + branch_code(op, o) + Seq::<u8>::empty() + body =~= p + rep_code(
            min,
            None,
            greedy,
            body,
        ));
    }
}

/// The state of a bounded repetition once all copies of its body are
/// emitted and before the offsets of its splits are written: the code is
/// `min` bodies followed by `max - min` blocks, and the bookmarks are the
/// locations of the blocks.
pub proof fn lemma_bounded_ready(
    s0: State,
    rep: Repetition,
    max: u32,
    bf: Seq<u8>,
    bb: Seq<u8>,
    s1: State,
    s2: State,
    s3: State,
)
    requires
        s0.in_range(),
        s2.in_range(),
        rep.max == Some(max),
        rep.min <= max,
        max >= 1,
        progressed(
            s0,
            rep_lead(rep) + bf,
            rep_lead(rep) + bb,
            rep_marks(s0, rep).drop_last(),
            if rep.min == 0 {
                1
            } else {
                0
            },
            s1,
        ),
        s2 == s1.emit(
            repeated(bf, if rep.min == 0 { 0nat } else { (rep.min - 1) as nat }),
            repeated(bb, if rep.min == 0 { 0nat } else { (rep.min - 1) as nat }),
        ),
        s3 == (State {
            bookmarks: s2.bookmarks + hole_locs(
                s2.loc(),
                stay_split(rep.greedy),
                bf,
                bb,
                if rep.min == 0 { (max - 1) as nat } else { (max - rep.min) as nat },
            ),
            ..s2.emit(
                repeated(
                    block(stay_split(rep.greedy), bf),
                    if rep.min == 0 { (max - 1) as nat } else { (max - rep.min) as nat },
                ),
                repeated(
                    block(stay_split(rep.greedy), bb),
                    if rep.min == 0 { (max - 1) as nat } else { (max - rep.min) as nat },
                ),
            )
        }),
    ensures
        ({
            let op = stay_split(rep.greedy);
            let pf = s0.fwd + repeated(bf, rep.min as nat);
            let pb = s0.cur() + repeated(bb, rep.min as nat);
            &&& s3.fwd == pf + repeated(block(op, bf), (max - rep.min) as nat)
            &&& s3.cur() == pb + repeated(block(op, bb), (max - rep.min) as nat)
            &&& s3.bck.len() == s0.bck.len()
            &&& s3.bookmarks == s0.bookmarks + hole_locs(
                Location {
                    fwd: pf.len() as usize,
                    bck_seq_id: s3.loc().bck_seq_id,
                    bck: pb.len() as usize,
                },
                op,
                bf,
                bb,
                (max - rep.min) as nat,
            )
            &&& rep.min >= 1 ==> s2.cur().len() - s1.cur().len() == repeated(
                bb,
                (rep.min - 1) as nat,
            ).len()
        }),
{
    let op = stay_split(rep.greedy);
    let min = rep.min;
    let pf = s0.fwd + repeated(bf, min as nat);
    let pb = s0.cur() + repeated(bb, min as nat);
    let base = Location {
        fwd: pf.len() as usize,
        bck_seq_id: s3.loc().bck_seq_id,
        bck: pb.len() as usize,
    };
    if min == 0 {
        lemma_repeated_front(block(op, bf), (max - 1) as nat);
        lemma_repeated_front(block(op, bb), (max - 1) as nat);
        assert(repeated(bf, 0) =~= Seq::<u8>::empty());
        assert(repeated(bb, 0) =~= Seq::<u8>::empty());
        assert(s3.fwd =~= pf + repeated(block(op, bf), (max - min) as nat));
        assert(s3.cur() =~= pb + repeated(block(op, bb), (max - min) as nat));
        assert(base == s0.loc());
        let target = s0.bookmarks + hole_locs(base, op, bf, bb, max as nat);
        assert(target.len() == s3.bookmarks.len());
        assert forall|i: int| 0 <= i < target.len() implies #[trigger] target[i]
            == s3.bookmarks[i] by {
            let j = i - s0.bookmarks.len();
            if j > 0 {
                lemma_repeated_front(block(op, bf), (j - 1) as nat);
                lemma_repeated_front(block(op, bb), (j - 1) as nat);
                assert(s3.bookmarks[i] == hole_locs(s2.loc(), op, bf, bb, (max - 1) as nat)[j - 1]);
            } else if j == 0 {
                assert(repeated(block(op, bf), 0) =~= Seq::<u8>::empty());
                assert(repeated(block(op, bb), 0) =~= Seq::<u8>::empty());
            }
        }
        assert(s3.bookmarks =~= target);
    } else {
        lemma_repeated_front(bf, (min - 1) as nat);
        lemma_repeated_front(bb, (min - 1) as nat);
        assert(Seq::<u8>::empty() + bf =~= bf);
        assert(Seq::<u8>::empty() + bb =~= bb);
        assert(s3.fwd =~= pf + repeated(block(op, bf), (max - min) as nat));
        assert(s3.cur() =~= pb + repeated(block(op, bb), (max - min) as nat));
        assert(s2.loc() == base);
        assert(s3.bookmarks =~= s0.bookmarks + hole_locs(base, op, bf, bb, (max - min) as nat));
    }
}

/// The location at which alternative `k` of an alternation starts, for an
/// n-way split at `base`.
pub open spec fn alt_start_loc(base: Location, fb: Seq<Seq<u8>>, bb: Seq<Seq<u8>>, k: int) -> Location {
    Location {
        fwd: (base.fwd + alt_start(fb, k)) as usize,
        bck_seq_id: base.bck_seq_id,
        bck: (base.bck + alt_start(bb, k)) as usize,
    }
}

/// The location of the jump behind alternative `k` of an alternation.
pub open spec fn alt_jump_loc(base: Location, fb: Seq<Seq<u8>>, bb: Seq<Seq<u8>>, k: int) -> Location {
    Location {
        fwd: (base.fwd + alt_start(fb, k) + fb[k].len()) as usize,
        bck_seq_id: base.bck_seq_id,
        bck: (base.bck + alt_start(bb, k) + bb[k].len()) as usize,
    }
}

/// The bookmarks of an alternation once its first `k` alternatives have
/// been started: the location of the split, that of the first alternative,
/// and for each later alternative the location of the jump before it and
/// its own.
pub open spec fn alt_marks(base: Location, fb: Seq<Seq<u8>>, bb: Seq<Seq<u8>>, k: int) -> Seq<Location>
    decreases k,
{
    if k <= 1 {
        seq![base, alt_start_loc(base, fb, bb, 0)]
    } else {
        alt_marks(base, fb, bb, k - 1) + seq![
            alt_jump_loc(base, fb, bb, k - 2),
            alt_start_loc(base, fb, bb, k - 1),
        ]
    }
}

/// The frame that holds the atoms of all the frames, in their order.
pub open spec fn joined_all(frames: Seq<Frame>) -> Frame
    decreases frames.len(),
{
    if frames.len() == 0 {
        Frame::empty()
    } else if frames.len() == 1 {
        frames[0]
    } else {
        joined_all(frames.drop_last()).joined(frames.last())
    }
}

/// The frames after an alternation of `n` alternatives: the frames of the
/// alternatives are gone, and their atoms together have taken the place
/// of the atoms in the frame below them if there are no more than
/// `MAX_ATOMS_PER_REGEXP` of them and the worst of them is better.
pub open spec fn alt_frames(frames: Seq<Frame>, n: int) -> Seq<Frame> {
    let parent = frames[frames.len() - n - 1];
    let all = joined_all(frames.subrange(frames.len() - n, frames.len() as int));
    frames.take(frames.len() - n).update(
        frames.len() - n - 1,
        if all.atoms.len() <= MAX_ATOMS_PER_REGEXP && parent.min_quality < all.min_quality {
            all
        } else {
            parent
        },
    )
}

/// The offsets in the parent sequence at which the chunks of a
/// concatenation start, once they are copied behind a parent of
/// `parent_len` bytes from the last to the first.
pub open spec fn concat_starts(parent_len: nat, chunks: Seq<Seq<u8>>) -> Seq<usize> {
    Seq::new(chunks.len(), |j: int| (parent_len + spliced_from(chunks, j + 1).len()) as usize)
}

/// The locations of the children of a concatenation: each starts in the
/// forward code where its bookmark says, and in the backward code, which
/// runs from the last child to the first, at the end of its chunk.
pub open spec fn concat_locs(
    marks: Seq<Location>,
    parent: u64,
    parent_len: nat,
    chunks: Seq<Seq<u8>>,
) -> Seq<Location> {
    Seq::new(
        chunks.len(),
        |j: int|
            Location {
                fwd: marks[j].fwd,
                bck_seq_id: parent,
                bck: (parent_len + spliced_from(chunks, j).len()) as usize,
            },
    )
}

/// The state after the chunks of the `n` children of a concatenation were
/// copied to the sequence below them.
pub open spec fn concat_done(s: State, n: int) -> State {
    let p = s.bck.len() - n - 1;
    let chunks = s.bck.subrange(p + 1, s.bck.len() as int);
    State {
        bck: s.bck.take(p + 1).update(p, s.bck[p] + spliced(chunks)),
        bookmarks: s.bookmarks.take(s.bookmarks.len() - n),
        frames: s.frames.update(
            s.frames.len() - 1,
            s.top().relocated(p as u64, concat_starts(s.bck[p].len(), chunks)),
        ),
        ..s
    }
}

/// The chunks from an index on, put together, are no longer than all of
/// them.
pub proof fn lemma_spliced_from_grows(chunks: Seq<Seq<u8>>, j: int)
    requires
        0 <= j <= chunks.len(),
    ensures
        spliced_from(chunks, j).len() <= spliced_from(chunks, 0).len(),
    decreases j,
{
    if j > 0 {
        lemma_spliced_from_step(chunks, j - 1);
        lemma_spliced_from_grows(chunks, j - 1);
    }
}

/// Atoms that stand within the backward code still do when code is added.
pub proof fn lemma_located_grows(f: Frame, bck: Seq<Seq<u8>>, longer: Seq<Seq<u8>>)
    requires
        f.located(bck),
        bck.len() <= longer.len(),
        forall|i: int| 0 <= i < bck.len() ==> (#[trigger] bck[i]).len() <= longer[i].len(),
    ensures
        f.located(longer),
{
    assert forall|i: int| 0 <= i < f.atoms.len() implies (#[trigger] f.atoms[i]).code_loc.bck_seq_id
        < longer.len() && f.atoms[i].code_loc.bck <= longer[f.atoms[i].code_loc.bck_seq_id as int].len() by {
        let id = f.atoms[i].code_loc.bck_seq_id as int;
        assert(bck[id].len() <= longer[id].len());
    }
}

/// A state stays sound when code is added to its streams.
pub proof fn lemma_sound_grows(s: State, t: State)
    requires
        s.sound(),
        t.frames == s.frames,
        t.depth == s.depth,
        t.zero_rep_depth == s.zero_rep_depth,
        s.bck.len() <= t.bck.len(),
        forall|i: int| 0 <= i < s.bck.len() ==> (#[trigger] s.bck[i]).len() <= t.bck[i].len(),
    ensures
        t.sound(),
{
    assert forall|k: int| 0 <= k < t.frames.len() implies (#[trigger] t.frames[k]).located(t.bck)
        && t.frames[k].bounded() by {
        lemma_located_grows(s.frames[k], s.bck, t.bck);
    }
}

/// The frame that the atoms found at a node make is within its limits, and
/// its atoms stand where the node's code stands.
pub proof fn lemma_rolled_up(
    best: Frame,
    atoms: Option<Seq<AtomView>>,
    code_loc: Location,
    exact: bool,
    bck: Seq<Seq<u8>>,
)
    requires
        best.bounded(),
        best.located(bck),
        atoms matches Some(found) ==> atoms_bounded(found),
        code_loc.bck_seq_id < bck.len(),
        code_loc.bck <= bck[code_loc.bck_seq_id as int].len(),
    ensures
        rolled_up(best, atoms, code_loc, exact).bounded(),
        rolled_up(best, atoms, code_loc, exact).located(bck),
        best.inexact() && !exact ==> rolled_up(best, atoms, code_loc, exact).inexact(),
{
    if let Some(found) = atoms {
        lemma_count_exact_bound(found);
        let frame = Frame {
            atoms: with_loc(found, code_loc),
            min_quality: min_quality(found) as i32,
            exact_atoms: count_exact(found) as usize,
        };
        assert(frame.bounded());
        assert(frame.located(bck));
        assert(frame.made_inexact().bounded());
        assert(frame.made_inexact().located(bck));
        assert(frame.made_inexact().inexact());
    }
}

/// The state with one more node open.
pub open spec fn entered(s: State) -> State {
    State { depth: (s.depth + 1) as u32, ..s }
}

/// True if the state `now` is what the visit of `h` from the state `from`
/// leaves: the code and the atoms of `h` are added, the atoms are within
/// their limits, and an atom is exact only in the top frame and only if
/// `h` is the whole pattern and holds no look-around assertion.
pub open spec fn done(from: State, h: Expr, now: State) -> bool {
    &&& now == from.walked(h)
    &&& now.sound()
    &&& forall|k: int| 0 <= k < now.frames.len() - 1 ==> (#[trigger] now.frames[k]).inexact()
    &&& now.top().inexact() || can_be_exact(from.ctx(), h)
}

/// A state stays sound when its top frame is replaced by what the atoms
/// found at a node make of it.
pub proof fn lemma_settled(
    s: State,
    atoms: Option<Seq<AtomView>>,
    code_loc: Location,
    exact: bool,
)
    requires
        s.sound(),
        atoms matches Some(found) ==> atoms_bounded(found),
        code_loc.bck_seq_id == s.bck.len() - 1,
        code_loc.bck <= s.cur().len(),
    ensures
        s.with_top(rolled_up(s.top(), atoms, code_loc, exact)).sound(),
        s.inexact() && !exact ==> s.with_top(rolled_up(s.top(), atoms, code_loc, exact)).inexact(),
        s.inexact() ==> forall|k: int|
            0 <= k < s.frames.len() - 1 ==> (#[trigger] s.with_top(
                rolled_up(s.top(), atoms, code_loc, exact),
            ).frames[k]).inexact(),
{
    lemma_rolled_up(s.top(), atoms, code_loc, exact, s.bck);
    let t = s.with_top(rolled_up(s.top(), atoms, code_loc, exact));
    assert forall|k: int| 0 <= k < t.frames.len() implies (#[trigger] t.frames[k]).located(t.bck)
        && t.frames[k].bounded() by {
        if k < t.frames.len() - 1 {
            assert(t.frames[k] == s.frames[k]);
        }
    }
    if s.inexact() {
        assert forall|k: int| 0 <= k < s.frames.len() - 1 implies (#[trigger] t.frames[k]).inexact() by {
            assert(t.frames[k] == s.frames[k]);
        }
        if !exact {
            assert forall|k: int| 0 <= k < t.frames.len() implies (#[trigger] t.frames[k]).inexact() by {
                if k < t.frames.len() - 1 {
                    assert(t.frames[k] == s.frames[k]);
                }
            }
        }
    }
}

/// The state in which the children of `h` are visited: what the visit of
/// `h` from the state `s` does before them.
pub open spec fn pre_state(s: State, h: Expr) -> State {
    match h {
        Expr::Capture(_) => entered(s.mark(s.loc())),
        Expr::Concat(subs) => if subs@.len() == 0 {
            entered(s)
        } else {
            entered(s.mark(s.loc()).open_chunk())
        },
        Expr::Alternation(subs) => {
            let hole = split_n_hole(subs@.len() as u8);
            entered(s.emit(hole, hole).mark(s.loc()).mark(s.emit(hole, hole).loc()).open_frame())
        },
        Expr::Repetition(rep) => if never_repeats(rep) {
            entered(s)
        } else {
            entered(
                State {
                    bookmarks: s.bookmarks + rep_marks(s, rep),
                    zero_rep_depth: if rep.min == 0 {
                        (s.zero_rep_depth + 1) as u32
                    } else {
                        s.zero_rep_depth
                    },
                    ..s.emit(rep_lead(rep), rep_lead(rep))
                },
            )
        },
        _ => entered(s),
    }
}

/// A state stays sound when a repetition is completed: the atoms that are
/// moved stay within the backward code.
pub proof fn lemma_rep_sound(
    s0: State,
    rep: Repetition,
    bf: Seq<u8>,
    bb: Seq<u8>,
    before: State,
    after: State,
)
    requires
        s0.in_range(),
        after.in_range(),
        before.wf(),
        before.frames_ok(),
        !never_repeats(rep),
        rep.max matches Some(m) ==> rep.min <= m,
        progressed(
            s0,
            rep_lead(rep) + bf,
            rep_lead(rep) + bb,
            rep_marks(s0, rep),
            if rep.min == 0 {
                1
            } else {
                0
            },
            before,
        ),
        progressed(
            s0,
            rep_code(rep.min, rep.max, rep.greedy, bf),
            rep_code(rep.min, rep.max, rep.greedy, bb),
            Seq::empty(),
            0,
            after,
        ),
        after.frames == before.frames.update(
            before.frames.len() - 1,
            rep_frame(before.top(), rep, s0, bb),
        ),
        after.depth == before.depth,
    ensures
        after.frames_ok(),
        before.inexact() ==> after.inexact(),
{
    let top = before.top();
    let last = before.frames.len() - 1;
    assert(before.cur().len() <= after.cur().len() && (rep.min >= 2 ==> before.cur().len()
        + rep_shift(rep, bb) <= after.cur().len())) by {
        if rep.min >= 2 {
            assert(rep_lead(rep) + bb =~= bb);
            assert(repeated(bb, rep.min as nat) == repeated(bb, (rep.min - 1) as nat) + bb);
        } else if rep.min == 1 {
            assert(rep_lead(rep) + bb =~= bb);
            assert(repeated(bb, 1) == repeated(bb, 0) + bb);
        } else if rep.max is Some {
            let m = rep.max->0;
            assert(optional_copies(stay_split(rep.greedy), bb, m as nat).len() >= JUMP_SIZE
                + bb.len()) by {
                assert(crate::instr::offset_bytes(
                    (m * (JUMP_SIZE + bb.len())) as i16,
                ).len() == 2);
            }
        }
    }
    assert forall|k: int| 0 <= k < after.frames.len() implies (#[trigger] after.frames[k]).located(
        after.bck,
    ) && after.frames[k].bounded() by {
        if k < last {
            assert(after.frames[k] == before.frames[k]);
            lemma_located_grows(before.frames[k], before.bck, after.bck);
        } else {
            lemma_located_grows(top, before.bck, after.bck);
            let f = rep_frame(top, rep, s0, bb);
            if rep.min >= 2 {
                assert forall|i: int| 0 <= i < f.atoms.len() implies (#[trigger] f.atoms[i]).code_loc.bck_seq_id
                    < after.bck.len() && f.atoms[i].code_loc.bck
                    <= after.bck[f.atoms[i].code_loc.bck_seq_id as int].len() by {
                    let a = top.atoms[i];
                    assert(a.code_loc.bck_seq_id < before.bck.len());
                    assert(a.code_loc.bck <= before.bck[a.code_loc.bck_seq_id as int].len());
                }
            }
        }
    }
    if before.inexact() {
        assert forall|k: int| 0 <= k < after.frames.len() implies (#[trigger] after.frames[k]).inexact() by {
            if k < last {
                assert(after.frames[k] == before.frames[k]);
            } else {
                assert(before.frames[last].inexact());
                let f = rep_frame(top, rep, s0, bb);
                assert forall|i: int| 0 <= i < f.atoms.len() implies !(#[trigger] f.atoms[i]).atom.exact by {
                    assert(!top.atoms[i].atom.exact);
                }
            }
        }
    }
}

/// The atoms of several frames together stand where the atoms of the
/// frames stand, have no backtrack, and are inexact if those of the frames
/// are. Where there are no more than `MAX_ATOMS_PER_REGEXP` of them, the
/// frame that holds them is within its limits.
pub proof fn lemma_joined_all(frames: Seq<Frame>, bck: Seq<Seq<u8>>)
    requires
        forall|i: int|
            0 <= i < frames.len() ==> (#[trigger] frames[i]).located(bck) && frames[i].bounded(),
    ensures
        joined_all(frames).located(bck),
        joined_all(frames).atoms.len() <= MAX_ATOMS_PER_REGEXP ==> joined_all(frames).bounded(),
        (forall|i: int| 0 <= i < frames.len() ==> (#[trigger] frames[i]).inexact()) ==> joined_all(
            frames,
        ).inexact(),
    decreases frames.len(),
{
    if frames.len() > 1 {
        let rest = frames.drop_last();
        let last = frames.last();
        assert forall|i: int| 0 <= i < rest.len() implies (#[trigger] rest[i]).located(bck)
            && rest[i].bounded() by {
            assert(rest[i] == frames[i]);
        }
        lemma_joined_all(rest, bck);
        let all = joined_all(rest);
        let both = all.joined(last);
        assert(last.located(bck) && last.bounded());
        assert forall|i: int| 0 <= i < both.atoms.len() implies (#[trigger] both.atoms[i]).code_loc.bck_seq_id
            < bck.len() && both.atoms[i].code_loc.bck <= bck[both.atoms[i].code_loc.bck_seq_id as int].len() by {
            if i < all.atoms.len() {
                assert(both.atoms[i] == all.atoms[i]);
            } else {
                assert(both.atoms[i] == last.atoms[i - all.atoms.len()]);
            }
        }
        if both.atoms.len() <= MAX_ATOMS_PER_REGEXP {
            assert forall|i: int| 0 <= i < both.atoms.len() implies (#[trigger] both.atoms[i]).atom.backtrack
                == 0 by {
                if i < all.atoms.len() {
                    assert(both.atoms[i] == all.atoms[i]);
                } else {
                    assert(both.atoms[i] == last.atoms[i - all.atoms.len()]);
                }
            }
        }
        if forall|i: int| 0 <= i < frames.len() ==> (#[trigger] frames[i]).inexact() {
            assert forall|i: int| 0 <= i < rest.len() implies (#[trigger] rest[i]).inexact() by {
                assert(rest[i] == frames[i]);
            }
            assert(last.inexact());
            assert forall|i: int| 0 <= i < both.atoms.len() implies !(#[trigger] both.atoms[i]).atom.exact by {
                if i < all.atoms.len() {
                    assert(both.atoms[i] == all.atoms[i]);
                } else {
                    assert(both.atoms[i] == last.atoms[i - all.atoms.len()]);
                }
            }
        }
    } else if frames.len() == 1 {
        assert(frames[0].located(bck) && frames[0].bounded());
        if forall|i: int| 0 <= i < frames.len() ==> (#[trigger] frames[i]).inexact() {
            assert(frames[0].inexact());
        }
    }
}

/// The frames stay within their limits when the frames of the
/// alternatives of an alternation are merged.
pub proof fn lemma_alt_sound(before: State, n: int)
    requires
        before.wf(),
        before.frames_ok(),
        n >= 1,
        before.frames.len() >= n + 1,
    ensures
        (State { frames: alt_frames(before.frames, n), ..before }).frames_ok(),
        before.inexact() ==> (State { frames: alt_frames(before.frames, n), ..before }).inexact(),
{
    let frames = before.frames;
    let tops = frames.subrange(frames.len() - n, frames.len() as int);
    let after = State { frames: alt_frames(frames, n), ..before };
    assert forall|i: int| 0 <= i < tops.len() implies (#[trigger] tops[i]).located(before.bck)
        && tops[i].bounded() by {
        assert(tops[i] == frames[frames.len() - n + i]);
    }
    lemma_joined_all(tops, before.bck);
    assert forall|k: int| 0 <= k < after.frames.len() implies (#[trigger] after.frames[k]).located(
        after.bck,
    ) && after.frames[k].bounded() by {
        if k < after.frames.len() - 1 {
            assert(after.frames[k] == frames[k]);
        } else {
            assert(frames[frames.len() - n - 1].located(before.bck));
        }
    }
    if before.inexact() {
        assert forall|i: int| 0 <= i < tops.len() implies (#[trigger] tops[i]).inexact() by {
            assert(tops[i] == frames[frames.len() - n + i]);
        }
        assert forall|k: int| 0 <= k < after.frames.len() implies (#[trigger] after.frames[k]).inexact() by {
            if k < after.frames.len() - 1 {
                assert(after.frames[k] == frames[k]);
            } else {
                assert(frames[frames.len() - n - 1].inexact());
            }
        }
    }
}

/// The frames stay within their limits when the chunks of a concatenation
/// are copied to the sequence below them, as long as no atom of the frames
/// below the top stands in a chunk.
pub proof fn lemma_concat_sound(before: State, n: int)
    requires
        before.wf(),
        before.frames_ok(),
        n >= 0,
        before.bck.len() >= n + 1,
        concat_done(before, n).in_range(),
        forall|k: int|
            0 <= k < before.frames.len() - 1 ==> (#[trigger] before.frames[k]).located(
                before.bck.take(before.bck.len() - n),
            ),
    ensures
        concat_done(before, n).frames_ok(),
        before.inexact() ==> concat_done(before, n).inexact(),
{
    let after = concat_done(before, n);
    let p = before.bck.len() - n - 1;
    let chunks = before.bck.subrange(p + 1, before.bck.len() as int);
    let top = before.top();
    assert(chunks.subrange(0, n) =~= chunks);
    assert forall|k: int| 0 <= k < after.frames.len() implies (#[trigger] after.frames[k]).located(
        after.bck,
    ) && after.frames[k].bounded() by {
        if k < after.frames.len() - 1 {
            assert(after.frames[k] == before.frames[k]);
            lemma_located_grows(before.frames[k], before.bck.take(p + 1), after.bck);
        } else {
            let f = after.frames[k];
            assert(top.located(before.bck) && top.bounded());
            assert forall|i: int| 0 <= i < f.atoms.len() implies (#[trigger] f.atoms[i]).code_loc.bck_seq_id
                < after.bck.len() && f.atoms[i].code_loc.bck
                <= after.bck[f.atoms[i].code_loc.bck_seq_id as int].len() by {
                let a = top.atoms[i];
                let id = a.code_loc.bck_seq_id as int;
                assert(id < before.bck.len());
                assert(a.code_loc.bck <= before.bck[id].len());
                if id > p {
                    let j = id - p - 1;
                    assert(before.bck[id] == chunks[j]);
                    lemma_spliced_from_step(chunks, j);
                    lemma_spliced_from_grows(chunks, j);
                }
            }
        }
    }
    if before.inexact() {
        assert forall|k: int| 0 <= k < after.frames.len() implies (#[trigger] after.frames[k]).inexact() by {
            if k < after.frames.len() - 1 {
                assert(after.frames[k] == before.frames[k]);
            } else {
                assert(top.inexact());
                let f = after.frames[k];
                assert forall|i: int| 0 <= i < f.atoms.len() implies !(#[trigger] f.atoms[i]).atom.exact by {
                    assert(!top.atoms[i].atom.exact);
                }
            }
        }
    }
}

/// True if the state `now` is what the visit of the alternatives `subs`
/// of an alternation leaves, from the state `from` before the
/// alternation: the split and the jumps are emitted without offsets, the
/// bookmarks say where they and the alternatives stand, and each
/// alternative has a frame with its atoms.
pub open spec fn alt_ready(from: State, subs: Seq<Expr>, now: State) -> bool {
    let n = subs.len() as int;
    let fb = fwd_bodies(subs);
    let bb = bck_bodies(subs);
    &&& progressed(
        from,
        split_n_hole(n as u8) + raw_alts(fb, n - 1) + fb[n - 1],
        split_n_hole(n as u8) + raw_alts(bb, n - 1) + bb[n - 1],
        alt_marks(from.loc(), fb, bb, n),
        0,
        now,
    )
    &&& now.frames == from.frames + alt_tops(from.ctx(), fb, bb, subs)
    &&& now.depth == from.depth + 1
}

/// True if the state `now` is what the visit of the children `subs` of a
/// concatenation leaves, from the state `from` before the concatenation:
/// the forward code of the children is emitted, the backward code of each
/// child stands in a chunk of its own, and a bookmark says where each
/// child starts in the forward code.
pub open spec fn concat_ready(from: State, subs: Seq<Expr>, now: State) -> bool {
    let n = subs.len() as int;
    &&& now.fwd == from.fwd + fwd_concat(subs)
    &&& now.bck == from.bck + bck_bodies(subs)
    &&& now.bookmarks.len() == from.bookmarks.len() + n
    &&& now.bookmarks.take(from.bookmarks.len() as int) == from.bookmarks
    &&& forall|i: int|
        0 <= i < n ==> (#[trigger] now.bookmarks[from.bookmarks.len() + i]).fwd == from.fwd.len()
            + fwd_concat(subs.take(i)).len()
    &&& now.frames == from.frames.update(from.frames.len() - 1, concat_top(from.ctx(), subs))
    &&& now.depth == from.depth + 1
    &&& now.zero_rep_depth == from.zero_rep_depth
}

/// There is one frame for each alternative.
pub proof fn lemma_alt_tops_len(c: Ctx, fb: Seq<Seq<u8>>, bb: Seq<Seq<u8>>, subs: Seq<Expr>)
    ensures
        alt_tops(c, fb, bb, subs).len() == subs.len(),
    decreases subs.len(),
{
    if subs.len() > 0 {
        lemma_alt_tops_len(c, fb, bb, subs.drop_last());
    }
}

/// True if the state `now` is what the visit of the children of `h`
/// leaves, from the state `from` before `h`.
pub open spec fn before_post(from: State, h: Expr, now: State) -> bool {
    match h {
        Expr::Capture(sub) => done(pre_state(from, h), *sub, now),
        Expr::Concat(subs) => if subs@.len() == 0 {
            now == entered(from)
        } else {
            concat_ready(from, subs@, now) && now.frames_ok() && now.inexact()
        },
        Expr::Alternation(subs) => alt_ready(from, subs@, now) && now.frames_ok() && now.inexact(),
        Expr::Repetition(rep) => if never_repeats(rep) {
            now == entered(from)
        } else {
            done(pre_state(from, h), *rep.sub, now)
        },
        _ => now == entered(from),
    }
}

/// True if the offsets of the node itself fit: those of the split and the
/// jumps of an alternation, and those of the splits and the jump of a
/// repetition.
pub open spec fn node_fits(h: Expr) -> bool {
    match h {
        Expr::Alternation(subs) => alt_fits(fwd_bodies(subs@)) && alt_fits(bck_bodies(subs@)),
        Expr::Repetition(rep) => never_repeats(rep) || (rep_fits(
            rep.min,
            rep.max,
            fwd_code(*rep.sub).len(),
        ) && rep_fits(rep.min, rep.max, bck_code(*rep.sub).len())),
        _ => true,
    }
}

/// The values of a list of atoms with their locations.
pub open spec fn regexp_atom_views(atoms: Seq<RegexpAtom>) -> Seq<RegexpAtomView> {
    Seq::new(atoms.len(), |i: int| atoms[i]@)
}

/// True if the state `now` is what the visit of the first `i` children
/// of a concatenation leaves: before the first child the chunk for it is
/// open, and after a child its code is emitted.
pub open spec fn concat_going(from: State, subs: Seq<Expr>, i: int, now: State) -> bool {
    if i == 0 {
        now == entered(from.mark(from.loc()).open_chunk())
    } else {
        concat_ready(from, subs.take(i), now) && now.frames_ok() && now.inexact()
    }
}

/// The state in which a child of a concatenation is visited: it is sound,
/// has room for the child, and gives the child the context that the
/// atoms of the concatenation are stated with.
pub open spec fn concat_child_ready(from: State, subs: Seq<Expr>, i: int, start: State) -> bool {
    &&& start.sound()
    &&& start.inexact()
    &&& start.room_for(subs[i])
    &&& start.fwd == from.fwd + fwd_concat(subs.take(i))
    &&& start.bck == (from.bck + bck_bodies(subs.take(i))).push(Seq::empty())
    &&& start.bookmarks.len() == from.bookmarks.len() + i + 1
    &&& start.bookmarks.take(from.bookmarks.len() as int) == from.bookmarks
    &&& forall|j: int|
        0 <= j <= i ==> (#[trigger] start.bookmarks[from.bookmarks.len() + j]).fwd == from.fwd.len()
            + fwd_concat(subs.take(j)).len()
    &&& start.frames == from.frames.update(
        from.frames.len() - 1,
        concat_top(from.ctx(), subs.take(i)),
    )
    &&& start.depth == from.depth + 1
    &&& start.zero_rep_depth == from.zero_rep_depth
}

/// An expression of a list that does not fit keeps the list from fitting.
pub proof fn lemma_all_fit_index(subs: Seq<Expr>, i: int)
    requires
        0 <= i < subs.len(),
        !fits(subs[i]),
    ensures
        !all_fit(subs),
    decreases subs.len(),
{
    if i < subs.len() - 1 {
        lemma_all_fit_index(subs.drop_last(), i);
    }
}

/// Before the first child of a concatenation.
pub proof fn lemma_concat_start(from: State, subs: Seq<Expr>, now: State)
    requires
        from.in_range(),
        from.sound(),
        now == entered(from.mark(from.loc()).open_chunk()),
    ensures
        concat_going(from, subs, 0, now),
        all_fit(subs.take(0)),
{
    assert(subs.take(0) =~= Seq::<Expr>::empty());
}

/// The state before a child of a concatenation is visited.
pub proof fn lemma_concat_child(from: State, subs: Seq<Expr>, i: int, before: State, start: State)
    requires
        0 <= i < subs.len(),
        from.in_range(),
        from.sound(),
        from.inexact(),
        from.depth + 1 + i + subs[i].size() <= u32::MAX,
        from.bck.len() + 1 + i + subs[i].size() <= u32::MAX,
        before.in_range(),
        concat_going(from, subs, i, before),
        i == 0 ==> start == before,
        i > 0 ==> start == before.mark(before.loc()).open_chunk(),
    ensures
        concat_child_ready(from, subs, i, start),
{
    lemma_bodies_len(subs.take(i));
    if i == 0 {
        assert(subs.take(0) =~= Seq::<Expr>::empty());
        assert(from.fwd + fwd_concat(subs.take(0)) =~= from.fwd);
        assert((from.bck + bck_bodies(subs.take(0))).push(Seq::empty()) =~= start.bck);
        assert(start.bookmarks.take(from.bookmarks.len() as int) =~= from.bookmarks);
        assert(from.frames.update(from.frames.len() - 1, concat_top(from.ctx(), subs.take(0)))
            =~= start.frames);
        lemma_sound_grows(from, State { depth: from.depth, ..start });
        assert(start.frames_ok()) by {
            assert forall|k: int| 0 <= k < start.frames.len() implies (#[trigger] start.frames[k]).located(
                start.bck,
            ) && start.frames[k].bounded() by {
                lemma_located_grows(from.frames[k], from.bck, start.bck);
            }
        }
    } else {
        assert(start.bookmarks.take(from.bookmarks.len() as int) =~= before.bookmarks.take(
            from.bookmarks.len() as int,
        ));
        assert(start.frames_ok()) by {
            assert forall|k: int| 0 <= k < start.frames.len() implies (#[trigger] start.frames[k]).located(
                start.bck,
            ) && start.frames[k].bounded() by {
                lemma_located_grows(before.frames[k], before.bck, start.bck);
            }
        }
        assert forall|j: int| 0 <= j <= i implies (#[trigger] start.bookmarks[from.bookmarks.len()
            + j]).fwd == from.fwd.len() + fwd_concat(subs.take(j)).len() by {
            if j < i {
                assert(start.bookmarks[from.bookmarks.len() + j] == before.bookmarks[from.bookmarks.len()
                    + j]);
                assert(subs.take(i).take(j) =~= subs.take(j));
            }
        }
    }
}

/// The state after a child of a concatenation was visited.
pub proof fn lemma_concat_step(from: State, subs: Seq<Expr>, i: int, start: State, now: State)
    requires
        0 <= i < subs.len(),
        from.in_range(),
        from.sound(),
        start.in_range(),
        concat_child_ready(from, subs, i, start),
        done(start, subs[i], now),
    ensures
        concat_going(from, subs, i + 1, now),
{
    let prefix = subs.take(i + 1);
    assert(prefix.drop_last() =~= subs.take(i));
    assert(prefix.last() == subs[i]);
    lemma_bodies_len(subs.take(i));
    lemma_bodies_len(prefix);
    assert(now.fwd =~= from.fwd + fwd_concat(prefix));
    assert(start.cur() + bck_code(subs[i]) =~= bck_code(subs[i]));
    assert(now.bck =~= from.bck + bck_bodies(prefix));
    assert(now.bookmarks.take(from.bookmarks.len() as int) =~= from.bookmarks);
    assert forall|j: int| 0 <= j < i + 1 implies (#[trigger] now.bookmarks[from.bookmarks.len()
        + j]).fwd == from.fwd.len() + fwd_concat(prefix.take(j)).len() by {
        assert(prefix.take(j) =~= subs.take(j));
    }
    assert(start.ctx() == (Ctx {
        top: concat_top(from.ctx(), prefix.drop_last()),
        loc: Location {
            fwd: (from.ctx().loc.fwd + fwd_concat(prefix.drop_last()).len()) as usize,
            bck_seq_id: (from.ctx().loc.bck_seq_id + prefix.len()) as u64,
            bck: 0,
        },
        depth: (from.ctx().depth + 1) as u32,
        zero_rep_depth: from.ctx().zero_rep_depth,
    }));
    assert(now.frames =~= from.frames.update(
        from.frames.len() - 1,
        concat_top(from.ctx(), prefix),
    ));
    assert(now.inexact()) by {
        assert forall|k: int| 0 <= k < now.frames.len() implies (#[trigger] now.frames[k]).inexact() by {}
    }
}

/// True if the state `now` is what the visit of the first `i`
/// alternatives of an alternation leaves: before the first alternative
/// the split is emitted, and after an alternative its code is.
pub open spec fn alt_going(from: State, subs: Seq<Expr>, i: int, now: State) -> bool {
    let n = subs.len() as int;
    let fb = fwd_bodies(subs);
    let bb = bck_bodies(subs);
    let hole = split_n_hole(n as u8);
    if i == 0 {
        now == entered(
            from.emit(hole, hole).mark(from.loc()).mark(from.emit(hole, hole).loc()).open_frame(),
        )
    } else {
        &&& progressed(
            from,
            hole + raw_alts(fb, i - 1) + fb[i - 1],
            hole + raw_alts(bb, i - 1) + bb[i - 1],
            alt_marks(from.loc(), fb, bb, i),
            0,
            now,
        )
        &&& now.frames == from.frames + alt_tops(from.ctx(), fb, bb, subs.take(i))
        &&& now.depth == from.depth + 1
        &&& now.frames_ok()
        &&& now.inexact()
    }
}

/// The state in which an alternative is visited: it is sound, has room
/// for the alternative, and gives it an empty frame and the location at
/// which it starts.
pub open spec fn alt_child_ready(from: State, subs: Seq<Expr>, i: int, start: State) -> bool {
    let n = subs.len() as int;
    let fb = fwd_bodies(subs);
    let bb = bck_bodies(subs);
    let hole = split_n_hole(n as u8);
    &&& start.sound()
    &&& start.inexact()
    &&& start.room_for(subs[i])
    &&& progressed(
        from,
        hole + raw_alts(fb, i),
        hole + raw_alts(bb, i),
        alt_marks(from.loc(), fb, bb, i + 1),
        0,
        start,
    )
    &&& start.frames == (from.frames + alt_tops(from.ctx(), fb, bb, subs.take(i))).push(
        Frame::empty(),
    )
    &&& start.depth == from.depth + 1
}

/// The state before an alternative is visited.
pub proof fn lemma_alt_child(from: State, subs: Seq<Expr>, i: int, before: State, start: State)
    requires
        0 <= i < subs.len(),
        subs.len() <= MAX_ALTERNATIVES,
        from.in_range(),
        from.sound(),
        from.inexact(),
        from.depth + 1 + subs[i].size() <= u32::MAX,
        from.bck.len() + subs[i].size() <= u32::MAX,
        before.in_range(),
        start.in_range(),
        alt_going(from, subs, i, before),
        i == 0 ==> start == before,
        i > 0 ==> start == before.emit(instr_code(JUMP), instr_code(JUMP)).mark(before.loc()).mark(
            before.emit(instr_code(JUMP), instr_code(JUMP)).loc(),
        ).open_frame(),
    ensures
        alt_child_ready(from, subs, i, start),
{
    let n = subs.len() as int;
    let fb = fwd_bodies(subs);
    let bb = bck_bodies(subs);
    let hole = split_n_hole(n as u8);
    lemma_bodies_len(subs);
    lemma_alt_tops_len(from.ctx(), fb, bb, subs.take(i));
    lemma_alt_start(fb, i);
    lemma_alt_start(bb, i);
    if i == 0 {
        assert(subs.take(0) =~= Seq::<Expr>::empty());
        assert(start.fwd =~= from.fwd + (hole + raw_alts(fb, 0)));
        assert(start.cur() =~= from.cur() + (hole + raw_alts(bb, 0)));
        assert(start.bck =~= from.bck.update(
            from.bck.len() - 1,
            from.cur() + (hole + raw_alts(bb, 0)),
        ));
        assert(start.bookmarks =~= from.bookmarks + alt_marks(from.loc(), fb, bb, 1));
        assert(start.frames =~= (from.frames + alt_tops(from.ctx(), fb, bb, subs.take(0))).push(
            Frame::empty(),
        ));
        assert(start.frames_ok()) by {
            assert forall|k: int| 0 <= k < start.frames.len() implies (#[trigger] start.frames[k]).located(
                start.bck,
            ) && start.frames[k].bounded() by {
                if k < from.frames.len() {
                    lemma_located_grows(from.frames[k], from.bck, start.bck);
                }
            }
        }
        assert(start.inexact()) by {
            assert forall|k: int| 0 <= k < start.frames.len() implies (#[trigger] start.frames[k]).inexact() by {
                if k < from.frames.len() {
                    assert(start.frames[k] == from.frames[k]);
                }
            }
        }
    } else {
        lemma_alt_start(fb, i - 1);
        lemma_alt_start(bb, i - 1);
        assert(start.fwd =~= from.fwd + (hole + raw_alts(fb, i)));
        assert(start.cur() =~= from.cur() + (hole + raw_alts(bb, i)));
        assert(start.bck =~= from.bck.update(
            from.bck.len() - 1,
            from.cur() + (hole + raw_alts(bb, i)),
        ));
        assert(before.loc() == alt_jump_loc(from.loc(), fb, bb, i - 1));
        assert(before.emit(instr_code(JUMP), instr_code(JUMP)).loc() == alt_start_loc(
            from.loc(),
            fb,
            bb,
            i,
        ));
        assert(start.bookmarks =~= from.bookmarks + alt_marks(from.loc(), fb, bb, i + 1));
        assert(start.frames_ok()) by {
            assert forall|k: int| 0 <= k < start.frames.len() implies (#[trigger] start.frames[k]).located(
                start.bck,
            ) && start.frames[k].bounded() by {
                if k < before.frames.len() {
                    lemma_located_grows(before.frames[k], before.bck, start.bck);
                }
            }
        }
        assert(start.inexact()) by {
            assert forall|k: int| 0 <= k < start.frames.len() implies (#[trigger] start.frames[k]).inexact() by {
                if k < before.frames.len() {
                    assert(start.frames[k] == before.frames[k]);
                }
            }
        }
    }
}

/// The state after an alternative was visited.
pub proof fn lemma_alt_step(from: State, subs: Seq<Expr>, i: int, start: State, now: State)
    requires
        0 <= i < subs.len(),
        subs.len() <= MAX_ALTERNATIVES,
        from.in_range(),
        from.sound(),
        start.in_range(),
        alt_child_ready(from, subs, i, start),
        done(start, subs[i], now),
    ensures
        alt_going(from, subs, i + 1, now),
{
    let n = subs.len() as int;
    let fb = fwd_bodies(subs);
    let bb = bck_bodies(subs);
    let hole = split_n_hole(n as u8);
    let prefix = subs.take(i + 1);
    lemma_bodies_len(subs);
    lemma_alt_tops_len(from.ctx(), fb, bb, subs.take(i));
    lemma_alt_start(fb, i);
    lemma_alt_start(bb, i);
    assert(prefix.drop_last() =~= subs.take(i));
    assert(prefix.last() == subs[i]);
    assert(now.fwd =~= from.fwd + (hole + raw_alts(fb, i) + fb[i]));
    assert(now.cur() =~= from.cur() + (hole + raw_alts(bb, i) + bb[i]));
    assert(now.bck =~= from.bck.update(
        from.bck.len() - 1,
        from.cur() + (hole + raw_alts(bb, i) + bb[i]),
    ));
    assert(start.ctx() == (Ctx {
        top: Frame::empty(),
        loc: alt_start_loc(from.ctx().loc, fb, bb, prefix.len() - 1),
        depth: (from.ctx().depth + 1) as u32,
        zero_rep_depth: from.ctx().zero_rep_depth,
    }));
    assert(now.frames =~= from.frames + alt_tops(from.ctx(), fb, bb, prefix));
    assert(now.inexact()) by {
        assert forall|k: int| 0 <= k < now.frames.len() implies (#[trigger] now.frames[k]).inexact() by {}
    }
}

} // verus!
