//! The code of an expression as a list of instructions, and its encoding
//! as bytes.

use vstd::prelude::*;
use crate::code::{alt_start, never_repeats};
use crate::hir::{ClassBytes, Expr, HexByte, Look};
use crate::instr::{
    branch_code, byte_code, class_bitmap, instr_code, masked_byte_code, split_n_code, ANY_BYTE,
    CLASS_BITMAP, END, JUMP, JUMP_SIZE, MATCH, OPCODE_PREFIX, SPLIT_A, SPLIT_B, START,
    WORD_BOUNDARY, WORD_BOUNDARY_NEG,
};

verus! {

/// An instruction of the virtual machine.
pub enum Instr {
    /// Ends the program with a match.
    Match,
    /// Matches any byte.
    AnyByte,
    /// Matches one byte.
    Byte(u8),
    /// Matches the bytes that have a value under a mask.
    MaskedByte(HexByte),
    /// Matches the bytes whose bit is set in a bitmap.
    Class(Seq<u8>),
    /// Goes on with the next instruction and, failing that, at the offset.
    SplitA(i16),
    /// Goes on at the offset and, failing that, with the next instruction.
    SplitB(i16),
    /// Goes on at each of the offsets, in their order.
    SplitN(Seq<i16>),
    /// Goes on at the offset.
    Jump(i16),
    /// Matches at the start of the input.
    Start,
    /// Matches at the end of the input.
    End,
    /// Matches at a word boundary.
    WordBoundary,
    /// Matches where there is no word boundary.
    WordBoundaryNeg,
}

/// The bytes of an instruction.
pub open spec fn encode(i: Instr) -> Seq<u8> {
    match i {
        Instr::Match => instr_code(MATCH),
        Instr::AnyByte => instr_code(ANY_BYTE),
        Instr::Byte(b) => byte_code(b),
        Instr::MaskedByte(b) => masked_byte_code(b),
        Instr::Class(bitmap) => seq![OPCODE_PREFIX, CLASS_BITMAP] + bitmap,
        Instr::SplitA(o) => branch_code(SPLIT_A, o),
        Instr::SplitB(o) => branch_code(SPLIT_B, o),
        Instr::SplitN(offsets) => split_n_code(offsets),
        Instr::Jump(o) => branch_code(JUMP, o),
        Instr::Start => instr_code(START),
        Instr::End => instr_code(END),
        Instr::WordBoundary => instr_code(WORD_BOUNDARY),
        Instr::WordBoundaryNeg => instr_code(WORD_BOUNDARY_NEG),
    }
}

/// The bytes of a list of instructions.
pub open spec fn encode_all(p: Seq<Instr>) -> Seq<u8>
    decreases p.len(),
{
    if p.len() == 0 {
        Seq::empty()
    } else {
        encode_all(p.drop_last()) + encode(p.last())
    }
}

/// The number of bytes of a list of instructions.
pub open spec fn size(p: Seq<Instr>) -> nat {
    encode_all(p).len()
}

/// One instruction for each byte of a literal.
pub open spec fn literal_instrs(bytes: Seq<u8>) -> Seq<Instr> {
    Seq::new(bytes.len(), |i: int| Instr::Byte(bytes[i]))
}

/// The instruction of a class.
pub open spec fn class_instr(c: ClassBytes) -> Instr {
    if c.spec_is_any_byte() {
        Instr::AnyByte
    } else {
        match c.spec_to_hex_byte() {
            Some(b) => Instr::MaskedByte(b),
            None => Instr::Class(class_bitmap(c)),
        }
    }
}

/// The instruction of a look-around assertion.
pub open spec fn look_instr(look: Look) -> Instr {
    match look {
        Look::Start => Instr::Start,
        Look::End => Instr::End,
        Look::WordAscii => Instr::WordBoundary,
        Look::WordAsciiNegate => Instr::WordBoundaryNeg,
    }
}

/// The split that keeps a repetition going.
pub open spec fn stay(greedy: bool, o: i16) -> Instr {
    if greedy {
        Instr::SplitA(o)
    } else {
        Instr::SplitB(o)
    }
}

/// The split that leads back to the start of a loop.
pub open spec fn back(greedy: bool, o: i16) -> Instr {
    if greedy {
        Instr::SplitB(o)
    } else {
        Instr::SplitA(o)
    }
}

/// `body`, `n` times in a row.
pub open spec fn repeated_instrs(body: Seq<Instr>, n: nat) -> Seq<Instr>
    decreases n,
{
    if n == 0 {
        Seq::empty()
    } else {
        repeated_instrs(body, (n - 1) as nat) + body
    }
}

/// `k` copies of `body`, before each a split that leads behind the last.
pub open spec fn optional_instrs(greedy: bool, body: Seq<Instr>, k: nat) -> Seq<Instr>
    decreases k,
{
    if k == 0 {
        Seq::empty()
    } else {
        seq![stay(greedy, (k * (JUMP_SIZE + size(body))) as i16)] + body + optional_instrs(
            greedy,
            body,
            (k - 1) as nat,
        )
    }
}

/// The instructions of a repetition of `body`.
pub open spec fn rep_instrs(min: u32, max: Option<u32>, greedy: bool, body: Seq<Instr>) -> Seq<Instr> {
    match max {
        None => {
            if min == 0 {
                seq![stay(greedy, (size(body) + 2 * JUMP_SIZE) as i16)] + body + seq![
                    Instr::Jump((-(size(body) + JUMP_SIZE)) as i16),
                ]
            } else if min == 1 {
                body + seq![back(greedy, (-size(body)) as i16)]
            } else {
                repeated_instrs(body, (min - 1) as nat) + seq![back(greedy, (-size(body)) as i16)]
                    + body
            }
        },
        Some(max) => {
            if max == 0 {
                Seq::empty()
            } else {
                repeated_instrs(body, min as nat) + optional_instrs(
                    greedy,
                    body,
                    (max - min) as nat,
                )
            }
        },
    }
}

/// The bytes of each list of instructions.
pub open spec fn sizes(bodies: Seq<Seq<Instr>>) -> Seq<Seq<u8>> {
    Seq::new(bodies.len(), |i: int| encode_all(bodies[i]))
}

/// The instructions of the alternatives from index `k` on: each but the
/// last is followed by a jump behind the last.
pub open spec fn alt_tail_instrs(bodies: Seq<Seq<Instr>>, k: int) -> Seq<Instr>
    decreases bodies.len() - k,
{
    if k >= bodies.len() {
        Seq::empty()
    } else if k == bodies.len() - 1 {
        bodies[k]
    } else {
        bodies[k] + seq![Instr::Jump((JUMP_SIZE + size(alt_tail_instrs(bodies, k + 1))) as i16)]
            + alt_tail_instrs(bodies, k + 1)
    }
}

/// The instructions of an alternation.
pub open spec fn alt_instrs(bodies: Seq<Seq<Instr>>) -> Seq<Instr> {
    seq![
        Instr::SplitN(Seq::new(bodies.len(), |k: int| alt_start(sizes(bodies), k) as i16)),
    ] + alt_tail_instrs(bodies, 0)
}

/// The instructions of an expression: those of its forward code, or with
/// `backward` those of its backward code.
pub open spec fn instrs(h: Expr, backward: bool) -> Seq<Instr>
    decreases h,
{
    match h {
        Expr::Empty => Seq::empty(),
        Expr::Literal(bytes) => literal_instrs(
            if backward {
                bytes@.reverse()
            } else {
                bytes@
            },
        ),
        Expr::Class(c) => seq![class_instr(c)],
        Expr::Look(look) => seq![look_instr(look)],
        Expr::Capture(sub) => instrs(*sub, backward),
        Expr::Concat(subs) => concat_instrs(subs@, backward),
        Expr::Alternation(subs) => alt_instrs(bodies_instrs(subs@, backward)),
        Expr::Repetition(rep) => if never_repeats(rep) {
            Seq::empty()
        } else {
            rep_instrs(rep.min, rep.max, rep.greedy, instrs(*rep.sub, backward))
        },
    }
}

/// The instructions of each expression of a list.
pub open spec fn bodies_instrs(subs: Seq<Expr>, backward: bool) -> Seq<Seq<Instr>>
    decreases subs,
{
    if subs.len() == 0 {
        Seq::empty()
    } else {
        bodies_instrs(subs.drop_last(), backward).push(instrs(subs.last(), backward))
    }
}

/// The instructions of a concatenation: those of its children, from the
/// first to the last, or with `backward` from the last to the first.
pub open spec fn concat_instrs(subs: Seq<Expr>, backward: bool) -> Seq<Instr>
    decreases subs,
{
    if subs.len() == 0 {
        Seq::empty()
    } else if backward {
        instrs(subs.last(), backward) + concat_instrs(subs.drop_last(), backward)
    } else {
        concat_instrs(subs.drop_last(), backward) + instrs(subs.last(), backward)
    }
}

/// True if no instruction of the list is `Match`.
pub open spec fn no_match(p: Seq<Instr>) -> bool {
    forall|i: int| 0 <= i < p.len() ==> !(#[trigger] p[i] is Match)
}

/// True if no jump of the list has the offset 0 and no n-way split has an
/// offset that is 0 or less. A two-way split can have the offset 0: the
/// split that closes a loop around a sub-expression without code leads to
/// itself.
pub open spec fn resolved(p: Seq<Instr>) -> bool {
    forall|i: int|
        0 <= i < p.len() ==> match #[trigger] p[i] {
            Instr::Jump(o) => o != 0,
            Instr::SplitN(offsets) => forall|k: int| 0 <= k < offsets.len() ==> offsets[k] > 0,
            _ => true,
        }
}

/// The offset in the code at which instruction `i` of the list stands, or
/// for `i` the length of the list the offset at which the code ends.
pub open spec fn position(p: Seq<Instr>, i: int) -> int {
    size(p.take(i)) as int
}

/// True if an instruction of the list stands at the offset `at`, or the
/// code ends there.
pub open spec fn boundary(p: Seq<Instr>, at: int) -> bool {
    exists|i: int| 0 <= i <= p.len() && #[trigger] position(p, i) == at
}

/// True if every offset of instruction `i` leads to an instruction of the
/// list or to its end.
pub open spec fn lands(p: Seq<Instr>, i: int) -> bool {
    match p[i] {
        Instr::Jump(o) => boundary(p, position(p, i) + o),
        Instr::SplitA(o) => boundary(p, position(p, i) + o),
        Instr::SplitB(o) => boundary(p, position(p, i) + o),
        Instr::SplitN(offsets) => forall|k: int|
            0 <= k < offsets.len() ==> boundary(p, position(p, i) + #[trigger] offsets[k]),
        _ => true,
    }
}

/// True if every jump and every split of the list leads to an instruction
/// of the list or to its end.
pub open spec fn linked(p: Seq<Instr>) -> bool {
    forall|i: int| 0 <= i < p.len() ==> #[trigger] lands(p, i)
}

} // verus!
