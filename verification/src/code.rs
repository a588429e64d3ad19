//! What the compiler emits for an expression, stated on the expression
//! alone. Every offset in the code is relative to the instruction that
//! holds it, so the code of an expression does not depend on where it
//! stands.

use vstd::prelude::*;
use crate::hir::{ClassBytes, Expr, Look, Repetition};
use crate::instr::{
    branch_code, class_code, has_offset, instr_code, lemma_offsets_bytes_len, literal_code,
    masked_byte_code, offset_bytes, offsets_bytes, overwrite, split_n_code, zeros, ANY_BYTE, END,
    JUMP, JUMP_SIZE, OPCODE_PREFIX, SPLIT_A, SPLIT_B, SPLIT_N, START, WORD_BOUNDARY,
    WORD_BOUNDARY_NEG,
};
use crate::location::fits_offset;

verus! {

/// `body`, `n` times in a row.
pub open spec fn repeated(body: Seq<u8>, n: nat) -> Seq<u8>
    decreases n,
{
    if n == 0 {
        Seq::empty()
    } else {
        repeated(body, (n - 1) as nat) + body
    }
}

/// `k` copies of `body` that can each be left out: before each copy a
/// split with opcode `op` that leads behind the last copy.
pub open spec fn optional_copies(op: u8, body: Seq<u8>, k: nat) -> Seq<u8>
    decreases k,
{
    if k == 0 {
        Seq::empty()
    } else {
        branch_code(op, (k * (JUMP_SIZE + body.len())) as i16) + body + optional_copies(
            op,
            body,
            (k - 1) as nat,
        )
    }
}

/// The split that keeps a repetition going: `SPLIT_A` for a greedy one.
pub open spec fn stay_split(greedy: bool) -> u8 {
    if greedy {
        SPLIT_A
    } else {
        SPLIT_B
    }
}

/// The split at the end of a loop that leads back to its start: `SPLIT_B`
/// for a greedy one.
pub open spec fn back_split(greedy: bool) -> u8 {
    if greedy {
        SPLIT_B
    } else {
        SPLIT_A
    }
}

/// The code of a repetition whose sub-expression has the code `body`.
pub open spec fn rep_code(min: u32, max: Option<u32>, greedy: bool, body: Seq<u8>) -> Seq<u8> {
    match max {
        None => {
            if min == 0 {
                branch_code(stay_split(greedy), (body.len() + 2 * JUMP_SIZE) as i16) + body
                    + branch_code(JUMP, (-(body.len() + JUMP_SIZE)) as i16)
            } else if min == 1 {
                body + branch_code(back_split(greedy), (-body.len()) as i16)
            } else {
                repeated(body, (min - 1) as nat) + branch_code(
                    back_split(greedy),
                    (-body.len()) as i16,
                ) + body
            }
        },
        Some(max) => {
            if max == 0 {
                Seq::empty()
            } else {
                repeated(body, min as nat) + optional_copies(
                    stay_split(greedy),
                    body,
                    (max - min) as nat,
                )
            }
        },
    }
}

/// True if every offset in the code of a repetition fits, for a
/// sub-expression with `len` bytes of code.
pub open spec fn rep_fits(min: u32, max: Option<u32>, len: nat) -> bool {
    match max {
        None => {
            if min == 0 {
                fits_offset(len + 2 * JUMP_SIZE)
            } else {
                fits_offset(-len)
            }
        },
        Some(max) => max <= min || fits_offset((max - min) * (JUMP_SIZE + len)),
    }
}

/// The number of bytes of an n-way split.
pub open spec fn split_n_size(n: nat) -> nat {
    3 + 2 * n
}

/// The code of the alternatives from index `k` on: each but the last is
/// followed by a jump behind the last.
pub open spec fn alt_tail(bodies: Seq<Seq<u8>>, k: int) -> Seq<u8>
    decreases bodies.len() - k,
{
    if k >= bodies.len() {
        Seq::empty()
    } else if k == bodies.len() - 1 {
        bodies[k]
    } else {
        bodies[k] + branch_code(JUMP, (JUMP_SIZE + alt_tail(bodies, k + 1).len()) as i16)
            + alt_tail(bodies, k + 1)
    }
}

/// The distance from an n-way split to the start of its alternative `k`.
pub open spec fn alt_start(bodies: Seq<Seq<u8>>, k: int) -> int
    decreases k,
{
    if k <= 0 {
        split_n_size(bodies.len()) as int
    } else {
        alt_start(bodies, k - 1) + bodies[k - 1].len() + JUMP_SIZE
    }
}

/// The offsets of an n-way split: one for each alternative.
pub open spec fn alt_offsets(bodies: Seq<Seq<u8>>) -> Seq<i16> {
    Seq::new(bodies.len(), |k: int| alt_start(bodies, k) as i16)
}

/// The code of an alternation whose alternatives have the codes `bodies`.
pub open spec fn alt_code(bodies: Seq<Seq<u8>>) -> Seq<u8> {
    split_n_code(alt_offsets(bodies)) + alt_tail(bodies, 0)
}

/// True if every offset in the code of an alternation fits.
pub open spec fn alt_fits(bodies: Seq<Seq<u8>>) -> bool {
    &&& forall|k: int| 0 <= k < bodies.len() ==> fits_offset(#[trigger] alt_start(bodies, k))
    &&& forall|k: int|
        0 < k < bodies.len() ==> fits_offset(JUMP_SIZE + (#[trigger] alt_tail(bodies, k)).len())
}

/// The opcode of a look-around assertion.
pub open spec fn look_opcode(look: Look) -> u8 {
    match look {
        Look::Start => START,
        Look::End => END,
        Look::WordAscii => WORD_BOUNDARY,
        Look::WordAsciiNegate => WORD_BOUNDARY_NEG,
    }
}

/// The code of a class: `ANY_BYTE` for the class of all bytes, a masked
/// byte where the class is the set of one, and a bitmap otherwise.
pub open spec fn class_node_code(c: ClassBytes) -> Seq<u8> {
    if c.spec_is_any_byte() {
        instr_code(ANY_BYTE)
    } else {
        match c.spec_to_hex_byte() {
            Some(b) => masked_byte_code(b),
            None => class_code(c),
        }
    }
}

/// True if the repetition matches the empty string only: its maximum is 0.
pub open spec fn never_repeats(rep: Repetition) -> bool {
    rep.max == Some(0u32)
}

/// The forward code of an expression.
pub open spec fn fwd_code(h: Expr) -> Seq<u8>
    decreases h,
{
    match h {
        Expr::Empty => Seq::empty(),
        Expr::Literal(bytes) => literal_code(bytes@),
        Expr::Class(c) => class_node_code(c),
        Expr::Look(look) => instr_code(look_opcode(look)),
        Expr::Capture(sub) => fwd_code(*sub),
        Expr::Concat(subs) => fwd_concat(subs@),
        Expr::Alternation(subs) => alt_code(fwd_bodies(subs@)),
        Expr::Repetition(rep) => if never_repeats(rep) {
            Seq::empty()
        } else {
            rep_code(rep.min, rep.max, rep.greedy, fwd_code(*rep.sub))
        },
    }
}

/// The forward code of each expression of a list.
pub open spec fn fwd_bodies(subs: Seq<Expr>) -> Seq<Seq<u8>>
    decreases subs,
{
    if subs.len() == 0 {
        Seq::empty()
    } else {
        fwd_bodies(subs.drop_last()).push(fwd_code(subs.last()))
    }
}

/// The forward code of a concatenation: that of its children, from the
/// first to the last.
pub open spec fn fwd_concat(subs: Seq<Expr>) -> Seq<u8>
    decreases subs,
{
    if subs.len() == 0 {
        Seq::empty()
    } else {
        fwd_concat(subs.drop_last()) + fwd_code(subs.last())
    }
}

/// The backward code of an expression.
pub open spec fn bck_code(h: Expr) -> Seq<u8>
    decreases h,
{
    match h {
        Expr::Empty => Seq::empty(),
        Expr::Literal(bytes) => literal_code(bytes@.reverse()),
        Expr::Class(c) => class_node_code(c),
        Expr::Look(look) => instr_code(look_opcode(look)),
        Expr::Capture(sub) => bck_code(*sub),
        Expr::Concat(subs) => bck_concat(subs@),
        Expr::Alternation(subs) => alt_code(bck_bodies(subs@)),
        Expr::Repetition(rep) => if never_repeats(rep) {
            Seq::empty()
        } else {
            rep_code(rep.min, rep.max, rep.greedy, bck_code(*rep.sub))
        },
    }
}

/// The backward code of each expression of a list.
pub open spec fn bck_bodies(subs: Seq<Expr>) -> Seq<Seq<u8>>
    decreases subs,
{
    if subs.len() == 0 {
        Seq::empty()
    } else {
        bck_bodies(subs.drop_last()).push(bck_code(subs.last()))
    }
}

/// The backward code of a concatenation: that of its children, from the
/// last to the first.
pub open spec fn bck_concat(subs: Seq<Expr>) -> Seq<u8>
    decreases subs,
{
    if subs.len() == 0 {
        Seq::empty()
    } else {
        bck_code(subs.last()) + bck_concat(subs.drop_last())
    }
}

/// True if every offset in the code of the expression fits, in both
/// directions.
pub open spec fn fits(h: Expr) -> bool
    decreases h,
{
    match h {
        Expr::Empty => true,
        Expr::Literal(_) => true,
        Expr::Class(_) => true,
        Expr::Look(_) => true,
        Expr::Capture(sub) => fits(*sub),
        Expr::Concat(subs) => all_fit(subs@),
        Expr::Alternation(subs) => all_fit(subs@) && alt_fits(fwd_bodies(subs@)) && alt_fits(
            bck_bodies(subs@),
        ),
        Expr::Repetition(rep) => never_repeats(rep) || (fits(*rep.sub) && rep_fits(
            rep.min,
            rep.max,
            fwd_code(*rep.sub).len(),
        ) && rep_fits(rep.min, rep.max, bck_code(*rep.sub).len())),
    }
}

/// True if every expression of a list fits.
pub open spec fn all_fit(subs: Seq<Expr>) -> bool
    decreases subs,
{
    subs.len() == 0 || (all_fit(subs.drop_last()) && fits(subs.last()))
}

/// A split or jump whose offset is still to come, followed by `body`.
pub open spec fn block(op: u8, body: Seq<u8>) -> Seq<u8> {
    instr_code(op) + body
}

/// The length of `n` copies is `n` times the length of one.
pub proof fn lemma_repeated_len(body: Seq<u8>, n: nat)
    ensures
        repeated(body, n).len() == n * body.len(),
    decreases n,
{
    if n > 0 {
        lemma_repeated_len(body, (n - 1) as nat);
        assert(n * body.len() == (n - 1) * body.len() + body.len()) by (nonlinear_arith);
    } else {
        assert(0 * body.len() == 0) by (nonlinear_arith);
    }
}

/// `m + n` copies are `m` copies followed by `n` copies.
pub proof fn lemma_repeated_add(body: Seq<u8>, m: nat, n: nat)
    ensures
        repeated(body, m + n) == repeated(body, m) + repeated(body, n),
    decreases n,
{
    if n == 0 {
        assert(repeated(body, m) + repeated(body, 0) =~= repeated(body, m));
    } else {
        lemma_repeated_add(body, m, (n - 1) as nat);
        assert(repeated(body, m + n) == repeated(body, (m + n - 1) as nat) + body);
        assert((repeated(body, m) + repeated(body, (n - 1) as nat)) + body =~= repeated(body, m)
            + (repeated(body, (n - 1) as nat) + body));
    }
}

/// One copy more at the front is one copy more.
pub proof fn lemma_repeated_front(body: Seq<u8>, n: nat)
    ensures
        repeated(body, n + 1) == body + repeated(body, n),
{
    lemma_repeated_add(body, 1, n);
    assert(repeated(body, 1) =~= body) by {
        assert(repeated(body, 0) =~= Seq::<u8>::empty());
    }
}

/// The length of `k` optional copies.
pub proof fn lemma_optional_copies_len(op: u8, body: Seq<u8>, k: nat)
    ensures
        optional_copies(op, body, k).len() == k * (JUMP_SIZE + body.len()),
    decreases k,
{
    if k > 0 {
        lemma_optional_copies_len(op, body, (k - 1) as nat);
        assert(offset_bytes((k * (JUMP_SIZE + body.len())) as i16).len() == 2);
        assert(k * (JUMP_SIZE + body.len()) == (k - 1) * (JUMP_SIZE + body.len()) + (JUMP_SIZE
            + body.len())) by (nonlinear_arith);
    } else {
        assert(0 * (JUMP_SIZE + body.len()) == 0) by (nonlinear_arith);
    }
}

/// More copies make a longer way: the product grows with its first factor.
pub proof fn lemma_product_grows(j: nat, k: nat, c: nat)
    requires
        j <= k,
    ensures
        j * c <= k * c,
{
    assert(j * c <= k * c) by (nonlinear_arith)
        requires
            j <= k,
            c >= 0,
    ;
}

/// Writing an offset into a branch that was emitted without one gives the
/// branch with that offset, and leaves the code around it as it was.
pub proof fn lemma_patch_branch(a: Seq<u8>, op: u8, b: Seq<u8>, o: i16)
    requires
        has_offset(op),
    ensures
        overwrite(a + instr_code(op) + b, a.len() as int + 2, offset_bytes(o)) == a + branch_code(
            op,
            o,
        ) + b,
        (a + instr_code(op) + b)[a.len() as int] == crate::instr::OPCODE_PREFIX,
        (a + instr_code(op) + b)[a.len() as int + 1] == op,
        (a + instr_code(op) + b).len() == (a + branch_code(op, o) + b).len(),
{
    assert(overwrite(a + instr_code(op) + b, a.len() as int + 2, offset_bytes(o)) =~= a + branch_code(
        op,
        o,
    ) + b);
}

/// One step of giving `count` branches in a row their offsets, from the
/// last to the first: with the last `j` done, the branch before them
/// stands at `at`, has the given way to go behind the last body, and
/// writing that offset gives the last `j + 1` done.
pub proof fn lemma_patch_step(p: Seq<u8>, op: u8, body: Seq<u8>, count: nat, j: nat, o: i16)
    requires
        has_offset(op),
        j < count,
    ensures
        ({
            let cur = p + repeated(block(op, body), (count - j) as nat) + optional_copies(op, body, j);
            let at = (p + repeated(block(op, body), (count - j - 1) as nat)).len() as int;
            &&& at + JUMP_SIZE <= cur.len()
            &&& cur[at] == crate::instr::OPCODE_PREFIX
            &&& has_offset(cur[at + 1])
            &&& o == (j + 1) * (JUMP_SIZE + body.len()) ==> overwrite(cur, at + 2, offset_bytes(o))
                == p + repeated(block(op, body), (count - j - 1) as nat) + optional_copies(
                op,
                body,
                j + 1,
            )
            &&& overwrite(cur, at + 2, offset_bytes(o)).len() == cur.len()
        }),
{
    let a = p + repeated(block(op, body), (count - j - 1) as nat);
    let t = body + optional_copies(op, body, j);
    let cur = p + repeated(block(op, body), (count - j) as nat) + optional_copies(op, body, j);
    assert(cur =~= a + instr_code(op) + t);
    lemma_patch_branch(a, op, t, o);
    if o == (j + 1) * (JUMP_SIZE + body.len()) {
        assert(a + branch_code(op, o) + t =~= a + optional_copies(op, body, j + 1));
    }
}

/// With the last `j` of `count` branches in a row done, the way from the
/// branch before them to the end of the code.
pub proof fn lemma_patch_distance(p: Seq<u8>, op: u8, body: Seq<u8>, count: nat, j: nat)
    requires
        has_offset(op),
        j < count,
    ensures
        (p + repeated(block(op, body), (count - j) as nat) + optional_copies(op, body, j)).len() - (
        p + repeated(block(op, body), (count - j - 1) as nat)).len() == (j + 1) * (JUMP_SIZE
            + body.len()),
{
    lemma_optional_copies_len(op, body, j);
    let c = JUMP_SIZE + body.len();
    assert((j + 1) * c == j * c + c) by (nonlinear_arith);
    assert(repeated(block(op, body), (count - j) as nat) == repeated(
        block(op, body),
        (count - j - 1) as nat,
    ) + block(op, body));
}

/// The code of `e*` before its offsets are written: the split, the body
/// and the jump. Writing the offset of the split and then that of the jump
/// gives the code of the loop.
pub proof fn lemma_star_stream(p: Seq<u8>, op: u8, body: Seq<u8>, o1: i16, o2: i16)
    requires
        has_offset(op),
    ensures
        ({
            let raw = p + (instr_code(op) + body) + instr_code(JUMP);
            let half = overwrite(raw, p.len() as int + 2, offset_bytes(o1));
            let jump_at = p.len() as int + JUMP_SIZE + body.len();
            &&& raw.len() == p.len() + 2 * JUMP_SIZE + body.len()
            &&& raw[p.len() as int] == crate::instr::OPCODE_PREFIX
            &&& has_offset(raw[p.len() as int + 1])
            &&& half.len() == raw.len()
            &&& half[jump_at] == crate::instr::OPCODE_PREFIX
            &&& has_offset(half[jump_at + 1])
            &&& overwrite(half, jump_at + 2, offset_bytes(o2)) == p + (branch_code(op, o1) + body
                + branch_code(JUMP, o2))
        }),
{
    let raw = p + (instr_code(op) + body) + instr_code(JUMP);
    assert(raw =~= p + instr_code(op) + (body + instr_code(JUMP)));
    lemma_patch_branch(p, op, body + instr_code(JUMP), o1);
    let half = overwrite(raw, p.len() as int + 2, offset_bytes(o1));
    let a = p + branch_code(op, o1) + body;
    assert(half =~= a + instr_code(JUMP) + Seq::<u8>::empty());
    lemma_patch_branch(a, JUMP, Seq::empty(), o2);
    assert(a + branch_code(JUMP, o2) + Seq::<u8>::empty() =~= p + (branch_code(op, o1) + body
        + branch_code(JUMP, o2)));
}

/// An n-way split for `n` alternatives whose offsets are still to come.
pub open spec fn split_n_hole(n: u8) -> Seq<u8> {
    seq![OPCODE_PREFIX, SPLIT_N, n] + zeros(2 * n as nat)
}

/// The code of the first `k` alternatives, each followed by a jump whose
/// offset is still to come.
pub open spec fn raw_alts(bodies: Seq<Seq<u8>>, k: int) -> Seq<u8>
    decreases k,
{
    if k <= 0 {
        Seq::empty()
    } else {
        raw_alts(bodies, k - 1) + bodies[k - 1] + instr_code(JUMP)
    }
}

/// The distance from an n-way split to an alternative is the size of the
/// split and of the alternatives before it with their jumps.
pub proof fn lemma_alt_start(bodies: Seq<Seq<u8>>, k: int)
    requires
        0 <= k,
        bodies.len() <= 255,
    ensures
        alt_start(bodies, k) == split_n_hole(bodies.len() as u8).len() + raw_alts(bodies, k).len(),
    decreases k,
{
    if k > 0 {
        lemma_alt_start(bodies, k - 1);
    }
}

/// Writing the offset of the jump behind alternative `k - 1`, once the
/// jumps behind the later alternatives have theirs.
pub proof fn lemma_alt_patch_step(p: Seq<u8>, bodies: Seq<Seq<u8>>, k: int, o: i16)
    requires
        0 < k < bodies.len(),
    ensures
        ({
            let cur = p + raw_alts(bodies, k) + alt_tail(bodies, k);
            let at = (p + raw_alts(bodies, k - 1) + bodies[k - 1]).len() as int;
            &&& at + JUMP_SIZE <= cur.len()
            &&& cur[at] == OPCODE_PREFIX
            &&& has_offset(cur[at + 1])
            &&& cur.len() - at == JUMP_SIZE + alt_tail(bodies, k).len()
            &&& overwrite(cur, at + 2, offset_bytes(o)).len() == cur.len()
            &&& o == JUMP_SIZE + alt_tail(bodies, k).len() ==> overwrite(
                cur,
                at + 2,
                offset_bytes(o),
            ) == p + raw_alts(bodies, k - 1) + alt_tail(bodies, k - 1)
        }),
{
    let a = p + raw_alts(bodies, k - 1) + bodies[k - 1];
    let t = alt_tail(bodies, k);
    let cur = p + raw_alts(bodies, k) + alt_tail(bodies, k);
    assert(cur =~= a + instr_code(JUMP) + t);
    lemma_patch_branch(a, JUMP, t, o);
    if o == JUMP_SIZE + alt_tail(bodies, k).len() {
        assert(a + branch_code(JUMP, o) + t =~= p + raw_alts(bodies, k - 1) + alt_tail(
            bodies,
            k - 1,
        ));
    }
}

/// Writing the offsets of an n-way split that was emitted without them.
pub proof fn lemma_patch_split_n(a: Seq<u8>, b: Seq<u8>, offsets: Seq<i16>)
    requires
        offsets.len() <= 255,
    ensures
        ({
            let n = offsets.len() as u8;
            let cur = a + split_n_hole(n) + b;
            &&& cur.len() == a.len() + split_n_size(offsets.len()) + b.len()
            &&& cur[a.len() as int] == OPCODE_PREFIX
            &&& cur[a.len() as int + 1] == SPLIT_N
            &&& cur[a.len() as int + 2] == n
            &&& overwrite(cur, a.len() as int + 3, offsets_bytes(offsets)) == a + split_n_code(
                offsets,
            ) + b
        }),
{
    lemma_offsets_bytes_len(offsets);
    let n = offsets.len() as u8;
    let cur = a + split_n_hole(n) + b;
    assert(overwrite(cur, a.len() as int + 3, offsets_bytes(offsets)) =~= a + split_n_code(
        offsets,
    ) + b);
}

/// The distance from an n-way split to an alternative and the code from
/// that alternative on make up the whole alternation.
pub proof fn lemma_alt_total(bodies: Seq<Seq<u8>>, k: int)
    requires
        0 <= k < bodies.len(),
    ensures
        alt_start(bodies, k) + alt_tail(bodies, k).len() == split_n_size(bodies.len()) + alt_tail(
            bodies,
            0,
        ).len(),
    decreases k,
{
    if k > 0 {
        lemma_alt_total(bodies, k - 1);
        assert(offset_bytes((JUMP_SIZE + alt_tail(bodies, k).len()) as i16).len() == 2);
    }
}

/// The chunks of a concatenation put together from the last to the first.
pub open spec fn spliced(chunks: Seq<Seq<u8>>) -> Seq<u8>
    decreases chunks.len(),
{
    if chunks.len() == 0 {
        Seq::empty()
    } else {
        chunks.last() + spliced(chunks.drop_last())
    }
}

/// The chunks from index `j` on, put together from the last to the first.
pub open spec fn spliced_from(chunks: Seq<Seq<u8>>, j: int) -> Seq<u8> {
    spliced(chunks.subrange(j, chunks.len() as int))
}

/// The first chunk comes last.
pub proof fn lemma_spliced_front(chunks: Seq<Seq<u8>>)
    requires
        chunks.len() > 0,
    ensures
        spliced(chunks) == spliced(chunks.subrange(1, chunks.len() as int)) + chunks[0],
    decreases chunks.len(),
{
    if chunks.len() == 1 {
        assert(chunks.drop_last() =~= Seq::<Seq<u8>>::empty());
        assert(chunks.subrange(1, 1) =~= Seq::<Seq<u8>>::empty());
        assert(spliced(chunks.drop_last()) =~= Seq::<u8>::empty());
        assert(spliced(chunks.subrange(1, 1)) =~= Seq::<u8>::empty());
        assert(spliced(chunks) =~= chunks[0]);
        assert(spliced(chunks.subrange(1, 1)) + chunks[0] =~= chunks[0]);
    } else {
        let rest = chunks.drop_last();
        lemma_spliced_front(rest);
        let tail = chunks.subrange(1, chunks.len() as int);
        assert(tail.drop_last() =~= rest.subrange(1, rest.len() as int));
        assert(tail.last() == chunks.last());
        assert(chunks.last() + (spliced(rest.subrange(1, rest.len() as int)) + chunks[0])
            =~= (chunks.last() + spliced(rest.subrange(1, rest.len() as int))) + chunks[0]);
    }
}

/// One chunk more at the front of those put together comes at the end.
pub proof fn lemma_spliced_from_step(chunks: Seq<Seq<u8>>, j: int)
    requires
        0 <= j < chunks.len(),
    ensures
        spliced_from(chunks, j) == spliced_from(chunks, j + 1) + chunks[j],
{
    let part = chunks.subrange(j, chunks.len() as int);
    lemma_spliced_front(part);
    assert(part.subrange(1, part.len() as int) =~= chunks.subrange(j + 1, chunks.len() as int));
}

/// The backward code of a concatenation is the backward code of its
/// children put together from the last to the first.
pub proof fn lemma_bck_concat_spliced(subs: Seq<Expr>)
    ensures
        bck_concat(subs) == spliced(bck_bodies(subs)),
        bck_bodies(subs).len() == subs.len(),
    decreases subs.len(),
{
    if subs.len() > 0 {
        lemma_bck_concat_spliced(subs.drop_last());
        assert(bck_bodies(subs).drop_last() =~= bck_bodies(subs.drop_last()));
    }
}

/// There is one code for each expression of a list.
pub proof fn lemma_bodies_len(subs: Seq<Expr>)
    ensures
        fwd_bodies(subs).len() == subs.len(),
        bck_bodies(subs).len() == subs.len(),
        forall|i: int| 0 <= i < subs.len() ==> #[trigger] fwd_bodies(subs)[i] == fwd_code(subs[i]),
        forall|i: int| 0 <= i < subs.len() ==> #[trigger] bck_bodies(subs)[i] == bck_code(subs[i]),
    decreases subs.len(),
{
    if subs.len() > 0 {
        lemma_bodies_len(subs.drop_last());
    }
}

} // verus!
