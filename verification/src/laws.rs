//! What holds of the code and the atoms of every expression.

use vstd::prelude::*;
use crate::atoms::{
    atom_quality, lemma_best_window_upto, lemma_bytes_quality_bounds, AtomView, DESIRED_ATOM_SIZE,
};
use crate::code::{lemma_optional_copies_len, lemma_product_grows,
    all_fit, alt_code, alt_fits, alt_offsets, alt_start, alt_tail, bck_bodies, bck_code,
    bck_concat, fits, fwd_bodies, fwd_code, fwd_concat, never_repeats, optional_copies, rep_code,
    rep_fits, repeated, stay_split,
};
use crate::hir::{Expr, Repetition};
use crate::instr::{lemma_offsets_bytes_len,instr_code, literal_code, JUMP_SIZE, MATCH};
use crate::literal_seq::min_quality;
use crate::location::{fits_offset, Location};
use crate::program::{
    alt_instrs, alt_tail_instrs, back, bodies_instrs, class_instr, concat_instrs, encode,
    boundary, encode_all, instrs, lands, linked, position, literal_instrs, look_instr, no_match, optional_instrs, rep_instrs,
    repeated_instrs, resolved, size, sizes, stay, Instr,
};
use crate::regexp_atoms::RegexpAtomView;
use crate::state::{with_loc, State};
use crate::walk::{literal_atom, literal_loc, top_after};

verus! {

/// The bytes of two lists of instructions in a row are the bytes of the
/// first followed by those of the second.
pub proof fn lemma_encode_concat(a: Seq<Instr>, b: Seq<Instr>)
    ensures
        encode_all(a + b) == encode_all(a) + encode_all(b),
    decreases b.len(),
{
    if b.len() == 0 {
        assert(a + b =~= a);
        assert(encode_all(a) + encode_all(b) =~= encode_all(a));
    } else {
        assert((a + b).drop_last() =~= a + b.drop_last());
        lemma_encode_concat(a, b.drop_last());
        assert(encode_all(a) + (encode_all(b.drop_last()) + encode(b.last())) =~= (encode_all(a)
            + encode_all(b.drop_last())) + encode(b.last()));
    }
}

/// The bytes of a single instruction.
pub proof fn lemma_encode_one(i: Instr)
    ensures
        encode_all(seq![i]) == encode(i),
{
    assert(seq![i].drop_last() =~= Seq::<Instr>::empty());
    assert(encode_all(Seq::<Instr>::empty()) + encode(i) =~= encode(i));
}

/// The bytes of the instructions of a literal are the code of the literal.
pub proof fn lemma_literal_instrs(bytes: Seq<u8>)
    ensures
        encode_all(literal_instrs(bytes)) == literal_code(bytes),
    decreases bytes.len(),
{
    if bytes.len() > 0 {
        lemma_literal_instrs(bytes.drop_last());
        assert(literal_instrs(bytes).drop_last() =~= literal_instrs(bytes.drop_last()));
    } else {
        assert(literal_instrs(bytes) =~= Seq::<Instr>::empty());
    }
}

/// The bytes of a repeated list of instructions.
pub proof fn lemma_repeated_instrs(body: Seq<Instr>, n: nat)
    ensures
        encode_all(repeated_instrs(body, n)) == repeated(encode_all(body), n),
    decreases n,
{
    if n > 0 {
        lemma_repeated_instrs(body, (n - 1) as nat);
        lemma_encode_concat(repeated_instrs(body, (n - 1) as nat), body);
    }
}

/// The bytes of copies that can be left out.
pub proof fn lemma_optional_instrs(greedy: bool, body: Seq<Instr>, k: nat)
    ensures
        encode_all(optional_instrs(greedy, body, k)) == optional_copies(
            stay_split(greedy),
            encode_all(body),
            k,
        ),
    decreases k,
{
    if k > 0 {
        lemma_optional_instrs(greedy, body, (k - 1) as nat);
        let first = stay(greedy, (k * (JUMP_SIZE + size(body))) as i16);
        lemma_encode_one(first);
        lemma_encode_concat(seq![first], body);
        lemma_encode_concat(seq![first] + body, optional_instrs(greedy, body, (k - 1) as nat));
    }
}

/// The bytes of the instructions of a repetition are the code of the
/// repetition.
pub proof fn lemma_rep_instrs(min: u32, max: Option<u32>, greedy: bool, body: Seq<Instr>)
    ensures
        encode_all(rep_instrs(min, max, greedy, body)) == rep_code(
            min,
            max,
            greedy,
            encode_all(body),
        ),
{
    match max {
        None => {
            if min == 0 {
                let first = stay(greedy, (size(body) + 2 * JUMP_SIZE) as i16);
                let last = Instr::Jump((-(size(body) + JUMP_SIZE)) as i16);
                lemma_encode_one(first);
                lemma_encode_one(last);
                lemma_encode_concat(seq![first], body);
                lemma_encode_concat(seq![first] + body, seq![last]);
            } else if min == 1 {
                let last = back(greedy, (-size(body)) as i16);
                lemma_encode_one(last);
                lemma_encode_concat(body, seq![last]);
            } else {
                let copies = repeated_instrs(body, (min - 1) as nat);
                let mid = back(greedy, (-size(body)) as i16);
                lemma_repeated_instrs(body, (min - 1) as nat);
                lemma_encode_one(mid);
                lemma_encode_concat(copies, seq![mid]);
                lemma_encode_concat(copies + seq![mid], body);
            }
        },
        Some(m) => {
            if m != 0 {
                lemma_repeated_instrs(body, min as nat);
                lemma_optional_instrs(greedy, body, (m - min) as nat);
                lemma_encode_concat(
                    repeated_instrs(body, min as nat),
                    optional_instrs(greedy, body, (m - min) as nat),
                );
            }
        },
    }
}

/// The bytes of the alternatives from an index on.
pub proof fn lemma_alt_tail_instrs(bodies: Seq<Seq<Instr>>, k: int)
    requires
        0 <= k,
    ensures
        encode_all(alt_tail_instrs(bodies, k)) == alt_tail(sizes(bodies), k),
    decreases bodies.len() - k,
{
    if k < bodies.len() - 1 {
        lemma_alt_tail_instrs(bodies, k + 1);
        let jump = Instr::Jump((JUMP_SIZE + size(alt_tail_instrs(bodies, k + 1))) as i16);
        lemma_encode_one(jump);
        lemma_encode_concat(bodies[k], seq![jump]);
        lemma_encode_concat(bodies[k] + seq![jump], alt_tail_instrs(bodies, k + 1));
    }
}

/// The bytes of the instructions of an alternation are the code of the
/// alternation.
pub proof fn lemma_alt_instrs(bodies: Seq<Seq<Instr>>)
    ensures
        encode_all(alt_instrs(bodies)) == alt_code(sizes(bodies)),
{
    let split = Instr::SplitN(Seq::new(bodies.len(), |k: int| alt_start(sizes(bodies), k) as i16));
    lemma_alt_tail_instrs(bodies, 0);
    lemma_encode_one(split);
    lemma_encode_concat(seq![split], alt_tail_instrs(bodies, 0));
    assert(Seq::new(bodies.len(), |k: int| alt_start(sizes(bodies), k) as i16) =~= alt_offsets(
        sizes(bodies),
    ));
}

/// The bytes of the instructions of an expression are its code, in either
/// direction.
pub proof fn lemma_program(h: Expr, backward: bool)
    ensures
        encode_all(instrs(h, backward)) == if backward {
            bck_code(h)
        } else {
            fwd_code(h)
        },
    decreases h,
{
    match h {
        Expr::Empty => {},
        Expr::Literal(bytes) => {
            lemma_literal_instrs(
                if backward {
                    bytes@.reverse()
                } else {
                    bytes@
                },
            );
        },
        Expr::Class(c) => {
            lemma_encode_one(class_instr(c));
        },
        Expr::Look(look) => {
            lemma_encode_one(look_instr(look));
        },
        Expr::Capture(sub) => {
            lemma_program(*sub, backward);
        },
        Expr::Concat(subs) => {
            lemma_programs(subs@, backward);
        },
        Expr::Alternation(subs) => {
            lemma_programs(subs@, backward);
            lemma_alt_instrs(bodies_instrs(subs@, backward));
        },
        Expr::Repetition(rep) => {
            if !never_repeats(rep) {
                lemma_program(*rep.sub, backward);
                lemma_rep_instrs(rep.min, rep.max, rep.greedy, instrs(*rep.sub, backward));
            }
        },
    }
}

/// The bytes of the instructions of each expression of a list are its
/// code, and those of their concatenation are the code of the
/// concatenation.
pub proof fn lemma_programs(subs: Seq<Expr>, backward: bool)
    ensures
        sizes(bodies_instrs(subs, backward)) == if backward {
            bck_bodies(subs)
        } else {
            fwd_bodies(subs)
        },
        encode_all(concat_instrs(subs, backward)) == if backward {
            bck_concat(subs)
        } else {
            fwd_concat(subs)
        },
    decreases subs,
{
    if subs.len() > 0 {
        lemma_programs(subs.drop_last(), backward);
        lemma_program(subs.last(), backward);
        if backward {
            lemma_encode_concat(
                instrs(subs.last(), backward),
                concat_instrs(subs.drop_last(), backward),
            );
        } else {
            lemma_encode_concat(
                concat_instrs(subs.drop_last(), backward),
                instrs(subs.last(), backward),
            );
        }
        let all = bodies_instrs(subs, backward);
        let rest = bodies_instrs(subs.drop_last(), backward);
        assert(sizes(all) =~= sizes(rest).push(encode_all(instrs(subs.last(), backward))));
    } else {
        assert(sizes(bodies_instrs(subs, backward)) =~= Seq::<Seq<u8>>::empty());
    }
}

/// True if no instruction of the list is `Match`, and every jump and
/// n-way split of it has its offsets.
pub open spec fn clean(p: Seq<Instr>) -> bool {
    no_match(p) && resolved(p)
}

/// Two clean lists in a row are clean.
pub proof fn lemma_clean_concat(a: Seq<Instr>, b: Seq<Instr>)
    requires
        clean(a),
        clean(b),
    ensures
        clean(a + b),
{
    assert forall|i: int| 0 <= i < (a + b).len() implies !(#[trigger] (a + b)[i] is Match) by {
        if i < a.len() {
            assert((a + b)[i] == a[i]);
        } else {
            assert((a + b)[i] == b[i - a.len()]);
        }
    }
    assert forall|i: int| 0 <= i < (a + b).len() implies match #[trigger] (a + b)[i] {
        Instr::Jump(o) => o != 0,
        Instr::SplitN(offsets) => forall|k: int| 0 <= k < offsets.len() ==> offsets[k] > 0,
        _ => true,
    } by {
        if i < a.len() {
            assert((a + b)[i] == a[i]);
        } else {
            assert((a + b)[i] == b[i - a.len()]);
        }
    }
}

/// A clean list repeated is clean.
pub proof fn lemma_clean_repeated(body: Seq<Instr>, n: nat)
    requires
        clean(body),
    ensures
        clean(repeated_instrs(body, n)),
    decreases n,
{
    if n > 0 {
        lemma_clean_repeated(body, (n - 1) as nat);
        lemma_clean_concat(repeated_instrs(body, (n - 1) as nat), body);
    }
}

/// Copies of a clean list that can be left out are clean.
pub proof fn lemma_clean_optional(greedy: bool, body: Seq<Instr>, k: nat)
    requires
        clean(body),
    ensures
        clean(optional_instrs(greedy, body, k)),
    decreases k,
{
    if k > 0 {
        lemma_clean_optional(greedy, body, (k - 1) as nat);
        let first = seq![stay(greedy, (k * (JUMP_SIZE + size(body))) as i16)];
        assert(clean(first));
        lemma_clean_concat(first, body);
        lemma_clean_concat(first + body, optional_instrs(greedy, body, (k - 1) as nat));
    }
}

/// The instructions of a repetition of a clean body are clean, if the
/// offsets of the repetition fit.
pub proof fn lemma_clean_rep(min: u32, max: Option<u32>, greedy: bool, body: Seq<Instr>)
    requires
        clean(body),
        rep_fits(min, max, size(body)),
    ensures
        clean(rep_instrs(min, max, greedy, body)),
{
    match max {
        None => {
            if min == 0 {
                let first = seq![stay(greedy, (size(body) + 2 * JUMP_SIZE) as i16)];
                let last = seq![Instr::Jump((-(size(body) + JUMP_SIZE)) as i16)];
                assert(clean(first));
                assert(clean(last));
                lemma_clean_concat(first, body);
                lemma_clean_concat(first + body, last);
            } else if min == 1 {
                let last = seq![back(greedy, (-size(body)) as i16)];
                assert(clean(last));
                lemma_clean_concat(body, last);
            } else {
                let copies = repeated_instrs(body, (min - 1) as nat);
                let mid = seq![back(greedy, (-size(body)) as i16)];
                lemma_clean_repeated(body, (min - 1) as nat);
                assert(clean(mid));
                lemma_clean_concat(copies, mid);
                lemma_clean_concat(copies + mid, body);
            }
        },
        Some(m) => {
            if m != 0 {
                lemma_clean_repeated(body, min as nat);
                lemma_clean_optional(greedy, body, (m - min) as nat);
                lemma_clean_concat(
                    repeated_instrs(body, min as nat),
                    optional_instrs(greedy, body, (m - min) as nat),
                );
            } else {
                assert(clean(Seq::<Instr>::empty()));
            }
        },
    }
}

/// The alternatives from an index on are clean, if they are clean each
/// and the offsets of their jumps fit.
pub proof fn lemma_clean_alt_tail(bodies: Seq<Seq<Instr>>, k: int)
    requires
        0 <= k,
        forall|i: int| 0 <= i < bodies.len() ==> clean(#[trigger] bodies[i]),
        forall|j: int|
            0 < j < bodies.len() ==> fits_offset(
                JUMP_SIZE + (#[trigger] alt_tail(sizes(bodies), j)).len(),
            ),
    ensures
        clean(alt_tail_instrs(bodies, k)),
    decreases bodies.len() - k,
{
    if k >= bodies.len() {
        assert(clean(Seq::<Instr>::empty()));
    } else if k < bodies.len() - 1 {
        lemma_clean_alt_tail(bodies, k + 1);
        lemma_alt_tail_instrs(bodies, k + 1);
        let jump = seq![Instr::Jump((JUMP_SIZE + size(alt_tail_instrs(bodies, k + 1))) as i16)];
        assert(fits_offset(JUMP_SIZE + alt_tail(sizes(bodies), k + 1).len()));
        assert(clean(jump));
        lemma_clean_concat(bodies[k], jump);
        lemma_clean_concat(bodies[k] + jump, alt_tail_instrs(bodies, k + 1));
    }
}

/// The distance from an n-way split to any of its alternatives is
/// positive.
pub proof fn lemma_alt_start_positive(bodies: Seq<Seq<u8>>, k: int)
    ensures
        alt_start(bodies, k) >= 3,
    decreases k,
{
    if k > 0 {
        lemma_alt_start_positive(bodies, k - 1);
    }
}

/// The instructions of an alternation are clean, if its alternatives are
/// and its offsets fit.
pub proof fn lemma_clean_alt(bodies: Seq<Seq<Instr>>)
    requires
        forall|i: int| 0 <= i < bodies.len() ==> clean(#[trigger] bodies[i]),
        alt_fits(sizes(bodies)),
    ensures
        clean(alt_instrs(bodies)),
{
    let offsets = Seq::new(bodies.len(), |k: int| alt_start(sizes(bodies), k) as i16);
    let split = seq![Instr::SplitN(offsets)];
    assert forall|k: int| 0 <= k < offsets.len() implies offsets[k] > 0 by {
        lemma_alt_start_positive(sizes(bodies), k);
        assert(fits_offset(alt_start(sizes(bodies), k)));
    }
    assert(clean(split));
    lemma_clean_alt_tail(bodies, 0);
    lemma_clean_concat(split, alt_tail_instrs(bodies, 0));
}

/// The instructions of an expression hold no `Match`, and where the
/// expression fits, every jump and n-way split among them has its
/// offsets.
pub proof fn lemma_clean(h: Expr, backward: bool)
    requires
        fits(h),
    ensures
        clean(instrs(h, backward)),
    decreases h,
{
    match h {
        Expr::Empty => {
            assert(clean(Seq::<Instr>::empty()));
        },
        Expr::Literal(bytes) => {},
        Expr::Class(c) => {},
        Expr::Look(look) => {},
        Expr::Capture(sub) => {
            lemma_clean(*sub, backward);
        },
        Expr::Concat(subs) => {
            lemma_clean_all(subs@, backward);
        },
        Expr::Alternation(subs) => {
            lemma_clean_all(subs@, backward);
            lemma_programs(subs@, backward);
            lemma_clean_alt(bodies_instrs(subs@, backward));
        },
        Expr::Repetition(rep) => {
            if !never_repeats(rep) {
                lemma_clean(*rep.sub, backward);
                lemma_program(*rep.sub, backward);
                lemma_clean_rep(rep.min, rep.max, rep.greedy, instrs(*rep.sub, backward));
            } else {
                assert(clean(Seq::<Instr>::empty()));
            }
        },
    }
}

/// The instructions of each expression of a list that fits are clean, and
/// so are those of their concatenation.
pub proof fn lemma_clean_all(subs: Seq<Expr>, backward: bool)
    requires
        all_fit(subs),
    ensures
        bodies_instrs(subs, backward).len() == subs.len(),
        forall|i: int|
            0 <= i < subs.len() ==> clean(#[trigger] bodies_instrs(subs, backward)[i]),
        clean(concat_instrs(subs, backward)),
    decreases subs,
{
    if subs.len() > 0 {
        lemma_clean_all(subs.drop_last(), backward);
        lemma_clean(subs.last(), backward);
        if backward {
            lemma_clean_concat(
                instrs(subs.last(), backward),
                concat_instrs(subs.drop_last(), backward),
            );
        } else {
            lemma_clean_concat(
                concat_instrs(subs.drop_last(), backward),
                instrs(subs.last(), backward),
            );
        }
        let all = bodies_instrs(subs, backward);
        let rest = bodies_instrs(subs.drop_last(), backward);
        assert forall|i: int| 0 <= i < subs.len() implies clean(#[trigger] all[i]) by {
            if i < subs.len() - 1 {
                assert(all[i] == rest[i]);
            }
        }
    } else {
        assert(clean(Seq::<Instr>::empty()));
    }
}

/// Where the instructions of two lists in a row stand.
pub proof fn lemma_position_concat(a: Seq<Instr>, b: Seq<Instr>, i: int)
    requires
        0 <= i <= a.len() + b.len(),
    ensures
        i <= a.len() ==> position(a + b, i) == position(a, i),
        i >= a.len() ==> position(a + b, i) == size(a) + position(b, i - a.len()),
{
    if i <= a.len() {
        assert((a + b).take(i) =~= a.take(i));
    }
    if i >= a.len() {
        assert((a + b).take(i) =~= a + b.take(i - a.len()));
        lemma_encode_concat(a, b.take(i - a.len()));
        assert(a.take(a.len() as int) =~= a);
    }
}

/// A list starts at the offset 0 and ends at its size.
pub proof fn lemma_boundary_ends(p: Seq<Instr>)
    ensures
        boundary(p, 0),
        boundary(p, size(p) as int),
        position(p, 0) == 0,
        position(p, p.len() as int) == size(p),
{
    assert(p.take(0) =~= Seq::<Instr>::empty());
    assert(p.take(p.len() as int) =~= p);
    assert(position(p, 0) == 0);
    assert(position(p, p.len() as int) == size(p));
}

/// The places at which the instructions of a part of a list stand are
/// places at which instructions of the list stand.
pub proof fn lemma_boundary_part(pre: Seq<Instr>, mid: Seq<Instr>, post: Seq<Instr>, at: int)
    requires
        boundary(mid, at),
    ensures
        boundary(pre + mid + post, size(pre) + at),
{
    let i = choose|i: int| 0 <= i <= mid.len() && #[trigger] position(mid, i) == at;
    lemma_position_concat(pre, mid, pre.len() + i);
    lemma_position_concat(pre + mid, post, pre.len() + i);
    assert(position(pre + mid + post, pre.len() + i) == size(pre) + at);
}

/// Where the instructions of a part of a list stand.
pub proof fn lemma_position_part(pre: Seq<Instr>, mid: Seq<Instr>, post: Seq<Instr>, i: int)
    requires
        0 <= i <= mid.len(),
    ensures
        position(pre + mid + post, pre.len() + i) == size(pre) + position(mid, i),
{
    lemma_position_concat(pre, mid, pre.len() + i);
    lemma_position_concat(pre + mid, post, pre.len() + i);
}

/// The branches of a part of a list that lead to places within the part
/// lead to places within the list.
pub proof fn lemma_lands_part(pre: Seq<Instr>, mid: Seq<Instr>, post: Seq<Instr>, i: int)
    requires
        0 <= i < mid.len(),
        lands(mid, i),
    ensures
        lands(pre + mid + post, pre.len() + i),
{
    let p = pre + mid + post;
    lemma_position_part(pre, mid, post, i);
    assert(p[pre.len() + i] == mid[i]);
    match mid[i] {
        Instr::Jump(o) => {
            lemma_boundary_part(pre, mid, post, position(mid, i) + o);
        },
        Instr::SplitA(o) => {
            lemma_boundary_part(pre, mid, post, position(mid, i) + o);
        },
        Instr::SplitB(o) => {
            lemma_boundary_part(pre, mid, post, position(mid, i) + o);
        },
        Instr::SplitN(offsets) => {
            assert forall|k: int| 0 <= k < offsets.len() implies boundary(
                p,
                position(p, pre.len() + i) + #[trigger] offsets[k],
            ) by {
                lemma_boundary_part(pre, mid, post, position(mid, i) + offsets[k]);
            }
        },
        _ => {},
    }
}

/// Two linked lists in a row are linked.
pub proof fn lemma_linked_concat(a: Seq<Instr>, b: Seq<Instr>)
    requires
        linked(a),
        linked(b),
    ensures
        linked(a + b),
{
    let e = Seq::<Instr>::empty();
    assert forall|i: int| 0 <= i < (a + b).len() implies #[trigger] lands(a + b, i) by {
        if i < a.len() {
            assert(e + a + b =~= a + b);
            assert(size(e) == 0);
            lemma_lands_part(e, a, b, i);
        } else {
            assert(a + b + e =~= a + b);
            lemma_lands_part(a, b, e, i - a.len());
        }
    }
}

/// A list of one instruction that is no branch is linked.
pub proof fn lemma_linked_plain(x: Instr)
    requires
        !(x is Jump) && !(x is SplitA) && !(x is SplitB) && !(x is SplitN),
    ensures
        linked(seq![x]),
{
}

/// A linked list repeated is linked.
pub proof fn lemma_linked_repeated(body: Seq<Instr>, n: nat)
    requires
        linked(body),
    ensures
        linked(repeated_instrs(body, n)),
    decreases n,
{
    if n > 0 {
        lemma_linked_repeated(body, (n - 1) as nat);
        lemma_linked_concat(repeated_instrs(body, (n - 1) as nat), body);
    }
}

/// A list made of a linked part, a branch and another linked part is
/// linked, if the branch leads to a place within the list.
pub proof fn lemma_linked_around(pre: Seq<Instr>, x: Instr, post: Seq<Instr>)
    requires
        linked(pre),
        linked(post),
        lands(pre + seq![x] + post, pre.len() as int),
    ensures
        linked(pre + seq![x] + post),
{
    let p = pre + seq![x] + post;
    let e = Seq::<Instr>::empty();
    assert forall|i: int| 0 <= i < p.len() implies #[trigger] lands(p, i) by {
        if i < pre.len() {
            assert(e + pre + (seq![x] + post) =~= p);
            assert(size(e) == 0);
            lemma_lands_part(e, pre, seq![x] + post, i);
        } else if i > pre.len() {
            assert((pre + seq![x]) + post + e =~= p);
            lemma_lands_part(pre + seq![x], post, e, i - pre.len() - 1);
        }
    }
}

/// Copies that can be left out are linked: the split before each copy
/// leads behind the last.
pub proof fn lemma_linked_optional(greedy: bool, body: Seq<Instr>, k: nat)
    requires
        linked(body),
        k > 0 ==> fits_offset(k * (JUMP_SIZE + size(body))),
    ensures
        linked(optional_instrs(greedy, body, k)),
    decreases k,
{
    if k > 0 {
        let c = (JUMP_SIZE + size(body)) as nat;
        let rest = optional_instrs(greedy, body, (k - 1) as nat);
        let first = stay(greedy, (k * (JUMP_SIZE + size(body))) as i16);
        let e = Seq::<Instr>::empty();
        let p = optional_instrs(greedy, body, k);
        if k > 1 {
            lemma_product_grows((k - 1) as nat, k, c);
            assert(0 <= (k - 1) * c) by (nonlinear_arith)
                requires
                    k >= 1,
                    c >= 0,
            ;
        }
        lemma_linked_optional(greedy, body, (k - 1) as nat);
        lemma_linked_concat(body, rest);
        assert(e + seq![first] + (body + rest) =~= p);
        lemma_optional_instrs(greedy, body, k);
        lemma_optional_copies_len(stay_split(greedy), encode_all(body), k);
        lemma_boundary_ends(p);
        assert(linked(e));
        assert(lands(p, 0));
        lemma_linked_around(e, first, body + rest);
    }
}

/// The instructions of a repetition of a linked body are linked, if the
/// offsets of the repetition fit.
pub proof fn lemma_linked_rep(min: u32, max: Option<u32>, greedy: bool, body: Seq<Instr>)
    requires
        linked(body),
        rep_fits(min, max, size(body)),
        max matches Some(m) ==> min <= m,
    ensures
        linked(rep_instrs(min, max, greedy, body)),
{
    let p = rep_instrs(min, max, greedy, body);
    let e = Seq::<Instr>::empty();
    lemma_rep_instrs(min, max, greedy, body);
    lemma_boundary_ends(p);
    match max {
        None => {
            if min == 0 {
                let first = stay(greedy, (size(body) + 2 * JUMP_SIZE) as i16);
                let last = Instr::Jump((-(size(body) + JUMP_SIZE)) as i16);
                assert(crate::instr::offset_bytes((size(body) + 2 * JUMP_SIZE) as i16).len() == 2);
                assert(crate::instr::offset_bytes((-(size(body) + JUMP_SIZE)) as i16).len() == 2);
                lemma_encode_one(first);
                assert forall|i: int| 0 <= i < p.len() implies #[trigger] lands(p, i) by {
                    if i == 0 {
                        assert(position(p, 0) == 0);
                    } else if i <= body.len() {
                        lemma_lands_part(seq![first], body, seq![last], i - 1);
                    } else {
                        lemma_position_part(seq![first] + body, seq![last], e, 0);
                        assert(seq![first] + body + seq![last] + e =~= p);
                        lemma_encode_concat(seq![first], body);
                        assert(position(seq![last], 0) == 0) by {
                            lemma_boundary_ends(seq![last]);
                        }
                    }
                }
            } else if min == 1 {
                let last = back(greedy, (-size(body)) as i16);
                assert(body + seq![last] + e =~= p);
                lemma_position_part(body, seq![last], e, 0);
                lemma_boundary_ends(seq![last]);
                assert(lands(body + seq![last] + e, body.len() as int));
                assert(linked(e));
                lemma_linked_around(body, last, e);
            } else {
                let copies = repeated_instrs(body, (min - 1) as nat);
                let before = repeated_instrs(body, (min - 2) as nat);
                let mid = back(greedy, (-size(body)) as i16);
                lemma_linked_repeated(body, (min - 1) as nat);
                lemma_position_part(copies, seq![mid], body, 0);
                lemma_boundary_ends(seq![mid]);
                assert(copies == before + body);
                lemma_encode_concat(before, body);
                lemma_position_concat(copies, seq![mid] + body, before.len() as int);
                assert(copies + (seq![mid] + body) =~= p);
                lemma_position_concat(before, body, before.len() as int);
                lemma_boundary_ends(body);
                assert(position(p, before.len() as int) == size(before));
                assert(lands(copies + seq![mid] + body, copies.len() as int));
                lemma_linked_around(copies, mid, body);
            }
        },
        Some(m) => {
            if m != 0 {
                lemma_linked_repeated(body, min as nat);
                lemma_linked_optional(greedy, body, (m - min) as nat);
                lemma_linked_concat(
                    repeated_instrs(body, min as nat),
                    optional_instrs(greedy, body, (m - min) as nat),
                );
            }
        },
    }
}

/// The alternatives from an index on are linked, if they are linked each
/// and the offsets of their jumps fit: each jump leads behind the last
/// alternative.
pub proof fn lemma_linked_alt_tail(bodies: Seq<Seq<Instr>>, k: int)
    requires
        0 <= k,
        forall|i: int| 0 <= i < bodies.len() ==> linked(#[trigger] bodies[i]),
        forall|j: int|
            0 < j < bodies.len() ==> fits_offset(
                JUMP_SIZE + (#[trigger] alt_tail(sizes(bodies), j)).len(),
            ),
    ensures
        linked(alt_tail_instrs(bodies, k)),
    decreases bodies.len() - k,
{
    if k < bodies.len() - 1 {
        lemma_linked_alt_tail(bodies, k + 1);
        lemma_alt_tail_instrs(bodies, k + 1);
        lemma_alt_tail_instrs(bodies, k);
        let rest = alt_tail_instrs(bodies, k + 1);
        let jump = Instr::Jump((JUMP_SIZE + size(rest)) as i16);
        let p = alt_tail_instrs(bodies, k);
        assert(fits_offset(JUMP_SIZE + alt_tail(sizes(bodies), k + 1).len()));
        assert(crate::instr::offset_bytes((JUMP_SIZE + size(rest)) as i16).len() == 2);
        lemma_position_part(bodies[k], seq![jump], rest, 0);
        lemma_boundary_ends(seq![jump]);
        lemma_boundary_ends(p);
        assert(lands(bodies[k] + seq![jump] + rest, bodies[k].len() as int));
        lemma_linked_around(bodies[k], jump, rest);
    }
}

/// Each alternative from an index on starts at a place at which an
/// instruction stands.
pub proof fn lemma_alt_boundary(bodies: Seq<Seq<Instr>>, j: int, k: int)
    requires
        0 <= j <= k < bodies.len(),
    ensures
        boundary(
            alt_tail_instrs(bodies, j),
            alt_start(sizes(bodies), k) - alt_start(sizes(bodies), j),
        ),
    decreases k - j,
{
    let p = alt_tail_instrs(bodies, j);
    lemma_boundary_ends(p);
    if j < k {
        lemma_alt_boundary(bodies, j + 1, k);
        let rest = alt_tail_instrs(bodies, j + 1);
        let jump = Instr::Jump((JUMP_SIZE + size(rest)) as i16);
        let e = Seq::<Instr>::empty();
        assert((bodies[j] + seq![jump]) + rest + e =~= p);
        lemma_encode_concat(bodies[j], seq![jump]);
        lemma_encode_one(jump);
        assert(crate::instr::offset_bytes((JUMP_SIZE + size(rest)) as i16).len() == 2);
        lemma_boundary_part(
            bodies[j] + seq![jump],
            rest,
            e,
            alt_start(sizes(bodies), k) - alt_start(sizes(bodies), j + 1),
        );
    }
}

/// The instructions of an alternation are linked, if its alternatives are
/// and its offsets fit: the split leads to each alternative.
pub proof fn lemma_linked_alt(bodies: Seq<Seq<Instr>>)
    requires
        forall|i: int| 0 <= i < bodies.len() ==> linked(#[trigger] bodies[i]),
        alt_fits(sizes(bodies)),
    ensures
        linked(alt_instrs(bodies)),
{
    let offsets = Seq::new(bodies.len(), |k: int| alt_start(sizes(bodies), k) as i16);
    let split = Instr::SplitN(offsets);
    let tail = alt_tail_instrs(bodies, 0);
    let e = Seq::<Instr>::empty();
    let p = alt_instrs(bodies);
    lemma_linked_alt_tail(bodies, 0);
    lemma_offsets_bytes_len(offsets);
    lemma_encode_one(split);
    lemma_boundary_ends(p);
    assert(e + seq![split] + tail =~= p);
    assert forall|k: int| 0 <= k < offsets.len() implies boundary(
        p,
        position(p, 0) + #[trigger] offsets[k],
    ) by {
        lemma_alt_boundary(bodies, 0, k);
        assert(fits_offset(alt_start(sizes(bodies), k)));
        lemma_boundary_part(
            seq![split],
            tail,
            e,
            alt_start(sizes(bodies), k) - alt_start(sizes(bodies), 0),
        );
        assert(seq![split] + tail + e =~= p);
    }
    assert(lands(e + seq![split] + tail, 0));
    assert(linked(e));
    lemma_linked_around(e, split, tail);
}

/// The jumps and splits of an expression that fits lead to instructions
/// of the expression or to its end.
pub proof fn lemma_linked(h: Expr, backward: bool)
    requires
        h.wf(),
        fits(h),
    ensures
        linked(instrs(h, backward)),
    decreases h,
{
    match h {
        Expr::Empty => {},
        Expr::Literal(bytes) => {},
        Expr::Class(c) => {
            assert(lands(seq![class_instr(c)], 0));
        },
        Expr::Look(look) => {
            assert(lands(seq![look_instr(look)], 0));
        },
        Expr::Capture(sub) => {
            lemma_linked(*sub, backward);
        },
        Expr::Concat(subs) => {
            lemma_linked_all(subs@, backward);
        },
        Expr::Alternation(subs) => {
            lemma_linked_all(subs@, backward);
            lemma_programs(subs@, backward);
            lemma_linked_alt(bodies_instrs(subs@, backward));
        },
        Expr::Repetition(rep) => {
            if !never_repeats(rep) {
                lemma_linked(*rep.sub, backward);
                lemma_program(*rep.sub, backward);
                lemma_linked_rep(rep.min, rep.max, rep.greedy, instrs(*rep.sub, backward));
            }
        },
    }
}

/// The instructions of each expression of a list are linked, and so are
/// those of their concatenation.
pub proof fn lemma_linked_all(subs: Seq<Expr>, backward: bool)
    requires
        forall|i: int| 0 <= i < subs.len() ==> (#[trigger] subs[i]).wf(),
        all_fit(subs),
    ensures
        bodies_instrs(subs, backward).len() == subs.len(),
        forall|i: int|
            0 <= i < subs.len() ==> linked(#[trigger] bodies_instrs(subs, backward)[i]),
        linked(concat_instrs(subs, backward)),
    decreases subs,
{
    if subs.len() > 0 {
        assert forall|i: int| 0 <= i < subs.drop_last().len() implies (#[trigger] subs.drop_last()[i]).wf() by {
            assert(subs.drop_last()[i] == subs[i]);
        }
        lemma_linked_all(subs.drop_last(), backward);
        assert(subs.last() == subs[subs.len() - 1]);
        lemma_linked(subs.last(), backward);
        if backward {
            lemma_linked_concat(
                instrs(subs.last(), backward),
                concat_instrs(subs.drop_last(), backward),
            );
        } else {
            lemma_linked_concat(
                concat_instrs(subs.drop_last(), backward),
                instrs(subs.last(), backward),
            );
        }
        let all = bodies_instrs(subs, backward);
        let rest = bodies_instrs(subs.drop_last(), backward);
        assert forall|i: int| 0 <= i < subs.len() implies linked(#[trigger] all[i]) by {
            if i < subs.len() - 1 {
                assert(all[i] == rest[i]);
            }
        }
    }
}

/// Both streams that `compile` returns end with exactly one `MATCH`: each
/// is the encoding of a list of instructions whose last is `Match` and
/// which holds no other.
pub proof fn law_one_match(h: Expr)
    requires
        fits(h),
    ensures
        fwd_code(h) + instr_code(MATCH) == encode_all(instrs(h, false).push(Instr::Match)),
        bck_code(h) + instr_code(MATCH) == encode_all(instrs(h, true).push(Instr::Match)),
        no_match(instrs(h, false)),
        no_match(instrs(h, true)),
{
    lemma_program(h, false);
    lemma_program(h, true);
    lemma_clean(h, false);
    lemma_clean(h, true);
    assert(instrs(h, false).push(Instr::Match).drop_last() =~= instrs(h, false));
    assert(instrs(h, true).push(Instr::Match).drop_last() =~= instrs(h, true));
}

/// Every jump and every split in the code of an expression that compiles
/// has its offsets. Each leads to an instruction of the code or to its
/// end; no jump has the offset 0 with which it was emitted, and every
/// offset of an n-way split leads forward.
pub proof fn law_branches_resolved(h: Expr)
    requires
        h.wf(),
        fits(h),
    ensures
        resolved(instrs(h, false)),
        resolved(instrs(h, true)),
        linked(instrs(h, false)),
        linked(instrs(h, true)),
        encode_all(instrs(h, false)) == fwd_code(h),
        encode_all(instrs(h, true)) == bck_code(h),
{
    lemma_program(h, false);
    lemma_program(h, true);
    lemma_clean(h, false);
    lemma_clean(h, true);
    lemma_linked(h, false);
    lemma_linked(h, true);
}

/// A repetition of at most zero times has no code.
pub proof fn law_zero_repetition(rep: Repetition)
    requires
        never_repeats(rep),
    ensures
        fwd_code(Expr::Repetition(rep)) == Seq::<u8>::empty(),
        bck_code(Expr::Repetition(rep)) == Seq::<u8>::empty(),
        fits(Expr::Repetition(rep)),
{
}

/// A copy of a piece of code holds the same bytes as the piece, and so the
/// same offsets, which are relative to the instructions that hold them:
/// in code that is followed by a copy of one of its parts, the copy reads
/// as the part does.
pub proof fn law_clone_keeps_offsets(code: Seq<u8>, start: int, end: int)
    requires
        0 <= start <= end <= code.len(),
    ensures
        (code + code.subrange(start, end)).subrange(
            code.len() as int,
            code.len() + (end - start),
        ) == code.subrange(start, end),
{
    assert((code + code.subrange(start, end)).subrange(
        code.len() as int,
        code.len() + (end - start),
    ) =~= code.subrange(start, end));
}

/// The empty expression has no code, and its one atom is the empty string,
/// exact, at the start of the code.
pub proof fn law_empty()
    ensures
        fwd_code(Expr::Empty) == Seq::<u8>::empty(),
        bck_code(Expr::Empty) == Seq::<u8>::empty(),
        top_after(State::initial().ctx(), Expr::Empty).atoms == seq![
            RegexpAtomView {
                atom: AtomView { bytes: Seq::empty(), exact: true, backtrack: 0 },
                code_loc: Location { fwd: 0, bck_seq_id: 0, bck: 0 },
            },
        ],
{
    let c = State::initial().ctx();
    let found = seq![AtomView { bytes: Seq::<u8>::empty(), exact: true, backtrack: 0 }];
    assert(found.drop_last() =~= Seq::<AtomView>::empty());
    assert(min_quality(found) == 0) by {
        assert(min_quality(found.drop_last()) == i32::MAX);
        assert(atom_quality(found.last().bytes) == 0);
    }
    assert(top_after(c, Expr::Empty).atoms =~= with_loc(found, c.loc));
    assert(with_loc(found, c.loc) =~= seq![
        RegexpAtomView {
            atom: AtomView { bytes: Seq::empty(), exact: true, backtrack: 0 },
            code_loc: Location { fwd: 0, bck_seq_id: 0, bck: 0 },
        },
    ]);
}

/// A literal of `DESIRED_ATOM_SIZE` bytes or more, compiled alone, has
/// exactly one atom. The atom has `DESIRED_ATOM_SIZE` bytes and no
/// backtrack, and it is exact if and only if it is the whole literal.
pub proof fn law_literal_atom(h: Expr)
    requires
        h matches Expr::Literal(bytes) && bytes@.len() >= DESIRED_ATOM_SIZE,
    ensures
        top_after(State::initial().ctx(), h).atoms.len() == 1,
        top_after(State::initial().ctx(), h).atoms[0].atom.bytes.len() == DESIRED_ATOM_SIZE,
        top_after(State::initial().ctx(), h).atoms[0].atom.backtrack == 0,
        top_after(State::initial().ctx(), h).atoms[0].atom.exact <==> (h matches Expr::Literal(
            bytes,
        ) && bytes@.len() == DESIRED_ATOM_SIZE),
{
    let c = State::initial().ctx();
    let bytes = h->Literal_0@;
    let atom = literal_atom(bytes);
    let found = seq![atom];
    lemma_best_window_upto(
        bytes,
        DESIRED_ATOM_SIZE as int,
        crate::atoms::last_window_start(bytes, DESIRED_ATOM_SIZE as int),
    );
    lemma_bytes_quality_bounds(atom.bytes);
    assert(found.drop_last() =~= Seq::<AtomView>::empty());
    assert(min_quality(found) == atom_quality(atom.bytes)) by {
        assert(min_quality(found.drop_last()) == i32::MAX);
    }
    assert(top_after(c, h).atoms =~= with_loc(found, literal_loc(c.loc, bytes)));
}

/// True if `b` is the mirror image of `a`: the same expression read from
/// right to left. Literals have their bytes in reverse order and
/// concatenations their children; everything else stays as it is.
pub open spec fn mirrored(a: Expr, b: Expr) -> bool
    decreases a,
{
    match a {
        Expr::Empty => b is Empty,
        Expr::Literal(x) => b matches Expr::Literal(y) && y@ == x@.reverse(),
        Expr::Class(c) => b == a,
        Expr::Look(look) => b == a,
        Expr::Capture(sub) => b matches Expr::Capture(other) && mirrored(*sub, *other),
        Expr::Concat(xs) => b matches Expr::Concat(ys) && mirrored_reverse(xs@, ys@),
        Expr::Alternation(xs) => b matches Expr::Alternation(ys) && mirrored_all(xs@, ys@),
        Expr::Repetition(rep) => b matches Expr::Repetition(other) && other.min == rep.min
            && other.max == rep.max && other.greedy == rep.greedy && mirrored(
            *rep.sub,
            *other.sub,
        ),
    }
}

/// True if each expression of `ys` is the mirror image of the one at the
/// same place in `xs`.
pub open spec fn mirrored_all(xs: Seq<Expr>, ys: Seq<Expr>) -> bool
    decreases xs,
{
    xs.len() == ys.len() && (xs.len() == 0 || (mirrored_all(xs.drop_last(), ys.drop_last())
        && mirrored(xs.last(), ys.last())))
}

/// True if `ys` holds the mirror images of the expressions of `xs`, from
/// the last to the first.
pub open spec fn mirrored_reverse(xs: Seq<Expr>, ys: Seq<Expr>) -> bool
    decreases xs,
{
    xs.len() == ys.len() && (xs.len() == 0 || (mirrored_reverse(xs.drop_last(), ys.skip(1))
        && mirrored(xs.last(), ys[0])))
}

/// The forward code of a concatenation starts with that of its first
/// child, and the backward code ends with it.
pub proof fn lemma_concat_front(subs: Seq<Expr>)
    requires
        subs.len() > 0,
    ensures
        fwd_concat(subs) == fwd_code(subs[0]) + fwd_concat(subs.skip(1)),
        bck_concat(subs) == bck_concat(subs.skip(1)) + bck_code(subs[0]),
        all_fit(subs) == (fits(subs[0]) && all_fit(subs.skip(1))),
    decreases subs.len(),
{
    if subs.len() == 1 {
        assert(subs.drop_last() =~= Seq::<Expr>::empty());
        assert(subs.skip(1) =~= Seq::<Expr>::empty());
        assert(fwd_concat(subs) =~= fwd_code(subs[0]) + fwd_concat(subs.skip(1)));
        assert(bck_concat(subs) =~= bck_concat(subs.skip(1)) + bck_code(subs[0]));
    } else {
        let rest = subs.drop_last();
        lemma_concat_front(rest);
        assert(subs.skip(1).drop_last() =~= rest.skip(1));
        assert(subs.skip(1).last() == subs.last());
        assert(fwd_concat(subs) =~= fwd_code(subs[0]) + fwd_concat(subs.skip(1)));
        assert(bck_concat(subs) =~= bck_concat(subs.skip(1)) + bck_code(subs[0]));
    }
}

/// The backward code of an expression is the forward code of its mirror
/// image, and its forward code is the backward code of its mirror image:
/// the two streams that are compiled for an expression are the code of
/// the same expression, read in the two directions. One of them fits if
/// and only if the other does.
pub proof fn law_backward_is_forward_of_mirror(a: Expr, b: Expr)
    requires
        mirrored(a, b),
    ensures
        bck_code(a) == fwd_code(b),
        fwd_code(a) == bck_code(b),
        fits(a) == fits(b),
    decreases a,
{
    match a {
        Expr::Empty => {},
        Expr::Literal(x) => {
            let y = b->Literal_0;
            assert(y@.reverse() =~= x@);
        },
        Expr::Class(c) => {},
        Expr::Look(look) => {},
        Expr::Capture(sub) => {
            law_backward_is_forward_of_mirror(*sub, *b->Capture_0);
        },
        Expr::Concat(xs) => {
            lemma_mirror_reverse(xs@, b->Concat_0@);
        },
        Expr::Alternation(xs) => {
            lemma_mirror_all(xs@, b->Alternation_0@);
        },
        Expr::Repetition(rep) => {
            law_backward_is_forward_of_mirror(*rep.sub, *b->Repetition_0.sub);
        },
    }
}

/// The codes of the alternatives of an alternation and of its mirror
/// image.
pub proof fn lemma_mirror_all(xs: Seq<Expr>, ys: Seq<Expr>)
    requires
        mirrored_all(xs, ys),
    ensures
        bck_bodies(xs) == fwd_bodies(ys),
        fwd_bodies(xs) == bck_bodies(ys),
        all_fit(xs) == all_fit(ys),
    decreases xs,
{
    if xs.len() > 0 {
        lemma_mirror_all(xs.drop_last(), ys.drop_last());
        law_backward_is_forward_of_mirror(xs.last(), ys.last());
    }
}

/// The codes of a concatenation and of its mirror image.
pub proof fn lemma_mirror_reverse(xs: Seq<Expr>, ys: Seq<Expr>)
    requires
        mirrored_reverse(xs, ys),
    ensures
        bck_concat(xs) == fwd_concat(ys),
        fwd_concat(xs) == bck_concat(ys),
        all_fit(xs) == all_fit(ys),
    decreases xs,
{
    if xs.len() > 0 {
        lemma_mirror_reverse(xs.drop_last(), ys.skip(1));
        law_backward_is_forward_of_mirror(xs.last(), ys[0]);
        lemma_concat_front(ys);
    }
}

} // verus!
