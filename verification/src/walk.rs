//! Which atoms the compiler keeps for an expression, stated on the
//! expression and on what the walk has found before it.

use vstd::prelude::*;
use crate::atoms::{best_window, window, AtomView, DESIRED_ATOM_SIZE, MAX_ATOMS_PER_REGEXP};
use crate::code::{bck_bodies, bck_code, fwd_bodies, fwd_concat, never_repeats, spliced_from};
use crate::hir::{Expr, Repetition};
use crate::instr::{literal_code, JUMP_SIZE};
use crate::literal_seq::{
    atoms_of, expr_literals, made_inexact, seq_atoms, simplified, spec_concat_seq,
    spec_seq_quality, SeqQuality, SeqView,
};
use crate::location::Location;
use crate::regexp_atoms::Frame;
use crate::state::{alt_start_loc, concat_starts, joined_all, rep_lead, rep_shift, rolled_up};

verus! {

/// What the atoms of an expression depend on besides the expression.
pub struct Ctx {
    /// The best atoms found before the expression.
    pub top: Frame,
    /// The location at which the code of the expression starts.
    pub loc: Location,
    /// The number of nodes around the expression.
    pub depth: u32,
    /// The number of repetitions around the expression that may match
    /// nothing.
    pub zero_rep_depth: u32,
}

/// The location `df` bytes further in the forward code and `db` bytes
/// further in the backward code.
pub open spec fn moved(loc: Location, df: int, db: int) -> Location {
    Location {
        fwd: (loc.fwd + df) as usize,
        bck_seq_id: loc.bck_seq_id,
        bck: (loc.bck + db) as usize,
    }
}

/// True if atoms found at the expression can be exact: the expression is
/// the whole pattern and holds no look-around assertion.
pub open spec fn can_be_exact(c: Ctx, h: Expr) -> bool {
    c.depth == 0 && !h.has_look()
}

/// The best atoms after an expression: those found below it, or the atoms
/// found at the expression itself if they are better. Below a repetition
/// that may match nothing, no atoms are taken.
pub open spec fn settle(
    c: Ctx,
    h: Expr,
    below: Frame,
    atoms: Option<Seq<AtomView>>,
    code_loc: Location,
) -> Frame {
    if c.zero_rep_depth > 0 {
        below
    } else {
        rolled_up(below, atoms, code_loc, can_be_exact(c, h))
    }
}

/// The atoms that the literal extractor gives for an expression.
pub open spec fn extracted_atoms(h: Expr) -> Option<Seq<AtomView>> {
    seq_atoms(simplified(expr_literals(h)))
}

/// The atom taken from a literal: its best window, without backtrack.
pub open spec fn literal_atom(bytes: Seq<u8>) -> AtomView {
    let start = best_window(bytes, DESIRED_ATOM_SIZE as int);
    AtomView {
        bytes: window(bytes, start, DESIRED_ATOM_SIZE as int),
        exact: window(bytes, start, DESIRED_ATOM_SIZE as int).len() == bytes.len(),
        backtrack: 0,
    }
}

/// The location of the atom of a literal whose code starts at `loc`: in
/// the forward code behind the code of the bytes before the atom, in the
/// backward code before it.
pub open spec fn literal_loc(loc: Location, bytes: Seq<u8>) -> Location {
    let skip = literal_code(bytes.take(best_window(bytes, DESIRED_ATOM_SIZE as int))).len();
    moved(loc, skip as int, literal_code(bytes.reverse()).len() - skip)
}

/// The literals that the extractor gives for each expression of a list.
pub open spec fn child_literals(subs: Seq<Expr>) -> Seq<SeqView> {
    Seq::new(subs.len(), |i: int| expr_literals(subs[i]))
}

/// The best way to take atoms from a concatenation, among those that start
/// at one of its first `k` children: the quality of the literals that
/// begin a match of the children from that child on, the atoms made of
/// them, and the index of the child. Atoms that start behind the first
/// child are inexact.
pub open spec fn concat_pick(views: Seq<SeqView>, k: int) -> (SeqQuality, Option<(Seq<AtomView>, int)>)
    decreases k,
{
    if k <= 0 {
        (SeqQuality { min_atom_quality: i32::MIN, seq_len: usize::MAX }, None)
    } else {
        let prev = concat_pick(views, k - 1);
        let i = k - 1;
        match spec_concat_seq(views.skip(i)) {
            Some(v) => {
                match spec_seq_quality(v) {
                    Some(q) => {
                        if q.spec_better_than(prev.0) {
                            (
                                q,
                                Some(
                                    (
                                        atoms_of(
                                            if i > 0 {
                                                made_inexact(v.lits)
                                            } else {
                                                v.lits
                                            },
                                        ),
                                        i,
                                    ),
                                ),
                            )
                        } else {
                            prev
                        }
                    },
                    None => prev,
                }
            },
            None => prev,
        }
    }
}

/// The location of child `i` of a concatenation whose code starts at
/// `loc`: in the forward code behind the children before it, in the
/// backward code behind the children after it and itself.
pub open spec fn concat_child_loc(loc: Location, subs: Seq<Expr>, i: int) -> Location {
    moved(loc, fwd_concat(subs.take(i)).len() as int, spliced_from(bck_bodies(subs), i).len() as int)
}

/// The atoms found at a concatenation, and their location.
pub open spec fn concat_atoms(loc: Location, subs: Seq<Expr>) -> (Option<Seq<AtomView>>, Location) {
    match concat_pick(child_literals(subs), subs.len() as int).1 {
        Some((atoms, i)) => (Some(atoms), concat_child_loc(loc, subs, i)),
        None => (None, loc),
    }
}

/// The frame below an alternation after it: the atoms of the alternatives
/// together, if there are no more than `MAX_ATOMS_PER_REGEXP` and the
/// worst of them is better than the worst in the frame; else the frame as
/// it was.
pub open spec fn alt_parent(parent: Frame, tops: Seq<Frame>) -> Frame {
    let all = joined_all(tops);
    if all.atoms.len() <= MAX_ATOMS_PER_REGEXP && parent.min_quality < all.min_quality {
        all
    } else {
        parent
    }
}

/// The location that stands for a repetition whose code starts at `loc`:
/// the first body, or the first split if the repetition has no bounds; in
/// the backward code the end.
pub open spec fn rep_code_loc(loc: Location, rep: Repetition, len: int) -> Location {
    moved(
        loc,
        if rep.min == 0 && rep.max is Some {
            JUMP_SIZE as int
        } else {
            0
        },
        len,
    )
}

/// The best atoms after the expression `h`, for the context `c` in which
/// it stands.
pub open spec fn top_after(c: Ctx, h: Expr) -> Frame
    decreases h,
{
    match h {
        Expr::Empty => settle(
            c,
            h,
            c.top,
            Some(seq![AtomView { bytes: Seq::empty(), exact: true, backtrack: 0 }]),
            c.loc,
        ),
        Expr::Literal(bytes) => settle(
            c,
            h,
            c.top,
            Some(seq![literal_atom(bytes@)]),
            literal_loc(c.loc, bytes@),
        ),
        Expr::Class(_) => settle(
            c,
            h,
            c.top,
            extracted_atoms(h),
            moved(c.loc, 0, bck_code(h).len() as int),
        ),
        Expr::Look(_) => settle(
            c,
            h,
            c.top,
            extracted_atoms(h),
            moved(c.loc, 0, bck_code(h).len() as int),
        ),
        Expr::Capture(sub) => settle(
            c,
            h,
            top_after(Ctx { depth: (c.depth + 1) as u32, ..c }, *sub),
            extracted_atoms(h),
            moved(c.loc, 0, bck_code(h).len() as int),
        ),
        Expr::Concat(subs) => {
            if subs@.len() == 0 {
                c.top
            } else {
                let found = concat_atoms(c.loc, subs@);
                settle(
                    c,
                    h,
                    concat_top(c, subs@).relocated(
                        c.loc.bck_seq_id,
                        concat_starts(c.loc.bck as nat, bck_bodies(subs@)),
                    ),
                    found.0,
                    found.1,
                )
            }
        },
        Expr::Alternation(subs) => settle(
            c,
            h,
            alt_parent(c.top, alt_tops(c, fwd_bodies(subs@), bck_bodies(subs@), subs@)),
            extracted_atoms(h),
            moved(c.loc, 0, bck_code(h).len() as int),
        ),
        Expr::Repetition(rep) => {
            if never_repeats(rep) {
                settle(
                    c,
                    h,
                    c.top,
                    Some(seq![AtomView { bytes: Seq::empty(), exact: true, backtrack: 0 }]),
                    c.loc,
                )
            } else {
                let lead = rep_lead(rep).len() as int;
                let below = top_after(
                    Ctx {
                        top: c.top,
                        loc: moved(c.loc, lead, lead),
                        depth: (c.depth + 1) as u32,
                        zero_rep_depth: if rep.min == 0 {
                            (c.zero_rep_depth + 1) as u32
                        } else {
                            c.zero_rep_depth
                        },
                    },
                    *rep.sub,
                );
                settle(
                    c,
                    h,
                    if rep.min >= 2 {
                        below.shifted(
                            c.loc.bck_seq_id,
                            c.loc.bck,
                            rep_shift(rep, bck_code(*rep.sub)) as usize,
                        )
                    } else {
                        below
                    },
                    extracted_atoms(h),
                    rep_code_loc(c.loc, rep, bck_code(h).len() as int),
                )
            }
        },
    }
}

/// The best atoms after the children `subs` of a concatenation, before
/// their chunks are copied: each child starts with the atoms that were
/// best after the child before it, and writes its backward code to a
/// chunk of its own.
pub open spec fn concat_top(c: Ctx, subs: Seq<Expr>) -> Frame
    decreases subs,
{
    if subs.len() == 0 {
        c.top
    } else {
        top_after(
            Ctx {
                top: concat_top(c, subs.drop_last()),
                loc: Location {
                    fwd: (c.loc.fwd + fwd_concat(subs.drop_last()).len()) as usize,
                    bck_seq_id: (c.loc.bck_seq_id + subs.len()) as u64,
                    bck: 0,
                },
                depth: (c.depth + 1) as u32,
                zero_rep_depth: c.zero_rep_depth,
            },
            subs.last(),
        )
    }
}

/// The best atoms of each of the alternatives `subs`, the first of an
/// alternation whose alternatives have the codes `fb` and `bb`: each
/// alternative starts without atoms.
pub open spec fn alt_tops(c: Ctx, fb: Seq<Seq<u8>>, bb: Seq<Seq<u8>>, subs: Seq<Expr>) -> Seq<Frame>
    decreases subs,
{
    if subs.len() == 0 {
        Seq::empty()
    } else {
        alt_tops(c, fb, bb, subs.drop_last()).push(
            top_after(
                Ctx {
                    top: Frame::empty(),
                    loc: alt_start_loc(c.loc, fb, bb, subs.len() - 1),
                    depth: (c.depth + 1) as u32,
                    zero_rep_depth: c.zero_rep_depth,
                },
                subs.last(),
            ),
        )
    }
}

} // verus!
