//! The instruction stream: an append-only byte buffer with typed emit and
//! patch primitives, and the byte-level encoding of every instruction.

use vstd::prelude::*;
use crate::hir::{ClassBytes, HexByte};

verus! {

/// Byte that introduces every instruction other than a plain literal byte.
pub const OPCODE_PREFIX: u8 = 0xAA;

/// Matches unconditionally and ends the program.
pub const MATCH: u8 = 0x00;

/// Matches any byte.
pub const ANY_BYTE: u8 = 0x01;

/// Matches a byte under a mask; followed by the value and the mask.
pub const MASKED_BYTE: u8 = 0x02;

/// Matches a byte class; followed by a bitmap of 32 bytes.
pub const CLASS_BITMAP: u8 = 0x03;

/// Forks execution, preferring the path that continues with the next
/// instruction; followed by one offset.
pub const SPLIT_A: u8 = 0x05;

/// Forks execution, preferring the path at the offset; followed by one
/// offset.
pub const SPLIT_B: u8 = 0x06;

/// Forks execution into several paths; followed by a count and that many
/// offsets.
pub const SPLIT_N: u8 = 0x07;

/// Continues at the offset that follows.
pub const JUMP: u8 = 0x08;

/// Matches at the start of the input.
pub const START: u8 = 0x09;

/// Matches at the end of the input.
pub const END: u8 = 0x0A;

/// Matches at an ASCII word boundary.
pub const WORD_BOUNDARY: u8 = 0x0B;

/// Matches anywhere but at an ASCII word boundary.
pub const WORD_BOUNDARY_NEG: u8 = 0x0C;

/// Number of bytes that an offset occupies in the stream.
pub const OFFSET_SIZE: usize = 2;

/// Number of bytes of a jump or of a two-way split: prefix, opcode, offset.
pub const JUMP_SIZE: usize = 4;

/// Number of bytes in the bitmap of a class instruction.
pub const BITMAP_SIZE: usize = 32;

/// The two bytes that encode `o`: two's complement, least significant first.
pub open spec fn offset_bytes(o: i16) -> Seq<u8> {
    let u: int = if o >= 0 { o as int } else { o + 0x1_0000 };
    seq![(u % 256) as u8, (u / 256) as u8]
}

/// `n` zero bytes.
pub open spec fn zeros(n: nat) -> Seq<u8> {
    Seq::new(n, |i: int| 0u8)
}

/// True for the opcodes that carry exactly one offset.
pub open spec fn has_offset(op: u8) -> bool {
    op == SPLIT_A || op == SPLIT_B || op == JUMP
}

/// What `emit_instr` appends for opcode `op`: the prefix, the opcode, and a
/// zeroed offset where the opcode carries one.
pub open spec fn instr_code(op: u8) -> Seq<u8> {
    if has_offset(op) {
        seq![OPCODE_PREFIX, op, 0u8, 0u8]
    } else {
        seq![OPCODE_PREFIX, op]
    }
}

/// The code of a literal byte: the byte itself, doubled where it equals the
/// prefix.
pub open spec fn byte_code(b: u8) -> Seq<u8> {
    if b == OPCODE_PREFIX {
        seq![OPCODE_PREFIX, OPCODE_PREFIX]
    } else {
        seq![b]
    }
}

/// The code of a literal, its bytes taken in the order given.
pub open spec fn literal_code(bytes: Seq<u8>) -> Seq<u8>
    decreases bytes.len(),
{
    if bytes.len() == 0 {
        Seq::empty()
    } else {
        literal_code(bytes.drop_last()) + byte_code(bytes.last())
    }
}

/// The code of a jump or two-way split with opcode `op` and offset `o`.
pub open spec fn branch_code(op: u8, o: i16) -> Seq<u8> {
    seq![OPCODE_PREFIX, op] + offset_bytes(o)
}

/// The bytes of a list of offsets, one after the other.
pub open spec fn offsets_bytes(offsets: Seq<i16>) -> Seq<u8>
    decreases offsets.len(),
{
    if offsets.len() == 0 {
        Seq::empty()
    } else {
        offsets_bytes(offsets.drop_last()) + offset_bytes(offsets.last())
    }
}

/// The code of an n-way split with the given offsets, one per alternative.
pub open spec fn split_n_code(offsets: Seq<i16>) -> Seq<u8> {
    seq![OPCODE_PREFIX, SPLIT_N, offsets.len() as u8] + offsets_bytes(offsets)
}

/// The code of a masked byte.
pub open spec fn masked_byte_code(b: HexByte) -> Seq<u8> {
    seq![OPCODE_PREFIX, MASKED_BYTE, b.value, b.mask]
}

/// The weight of bit `j` in a byte.
pub open spec fn bit_weight(j: int) -> int {
    if j == 0 {
        1
    } else if j == 1 {
        2
    } else if j == 2 {
        4
    } else if j == 3 {
        8
    } else if j == 4 {
        16
    } else if j == 5 {
        32
    } else if j == 6 {
        64
    } else {
        128
    }
}

/// The value of the lowest `bits` bits of byte `k` of the bitmap of `c`: bit
/// `j` of byte `k` is set exactly when the byte value `8 * k + j` is in the
/// class.
pub open spec fn bitmap_bits(c: ClassBytes, k: int, bits: int) -> int
    decreases bits,
{
    if bits <= 0 {
        0
    } else {
        bitmap_bits(c, k, bits - 1) + if c.spec_contains((8 * k + bits - 1) as u8) {
            bit_weight(bits - 1)
        } else {
            0
        }
    }
}

/// The bitmap of a class: 32 bytes, one bit per byte value.
pub open spec fn class_bitmap(c: ClassBytes) -> Seq<u8> {
    Seq::new(BITMAP_SIZE as nat, |k: int| bitmap_bits(c, k, 8) as u8)
}

/// The code of a class given as a bitmap.
pub open spec fn class_code(c: ClassBytes) -> Seq<u8> {
    seq![OPCODE_PREFIX, CLASS_BITMAP] + class_bitmap(c)
}

/// `s` with the bytes from `at` on replaced by those of `b`.
pub open spec fn overwrite(s: Seq<u8>, at: int, b: Seq<u8>) -> Seq<u8> {
    s.subrange(0, at) + b + s.subrange(at + b.len(), s.len() as int)
}

/// The code of a literal grows by the code of the byte added at its end.
pub proof fn lemma_literal_code_push(bytes: Seq<u8>, b: u8)
    ensures
        literal_code(bytes.push(b)) == literal_code(bytes) + byte_code(b),
{
    assert(bytes.push(b).drop_last() =~= bytes);
}

/// The code of two literals in a row is the code of their concatenation.
pub proof fn lemma_literal_code_concat(a: Seq<u8>, b: Seq<u8>)
    ensures
        literal_code(a + b) == literal_code(a) + literal_code(b),
    decreases b.len(),
{
    if b.len() == 0 {
        assert(a + b =~= a);
        assert(literal_code(a) + literal_code(b) =~= literal_code(a));
    } else {
        assert((a + b).drop_last() =~= a + b.drop_last());
        lemma_literal_code_concat(a, b.drop_last());
        assert(literal_code(a) + (literal_code(b.drop_last()) + byte_code(b.last()))
            =~= (literal_code(a) + literal_code(b.drop_last())) + byte_code(b.last()));
    }
}

/// The code of a literal is as long in either direction.
pub proof fn lemma_literal_code_reverse_len(bytes: Seq<u8>)
    ensures
        literal_code(bytes.reverse()).len() == literal_code(bytes).len(),
    decreases bytes.len(),
{
    if bytes.len() > 0 {
        let rest = bytes.drop_last();
        lemma_literal_code_reverse_len(rest);
        assert(bytes.reverse() =~= seq![bytes.last()] + rest.reverse());
        lemma_literal_code_concat(seq![bytes.last()], rest.reverse());
        assert(seq![bytes.last()].drop_last() =~= Seq::<u8>::empty());
        assert(literal_code(Seq::<u8>::empty()) =~= Seq::<u8>::empty());
        assert(seq![bytes.last()].last() == bytes.last());
        assert(literal_code(seq![bytes.last()]) =~= byte_code(bytes.last()));
    } else {
        assert(bytes.reverse() =~= bytes);
    }
}

/// The code of the first bytes of a literal is no longer than the code of
/// the literal.
pub proof fn lemma_literal_code_prefix(bytes: Seq<u8>, n: int)
    requires
        0 <= n <= bytes.len(),
    ensures
        literal_code(bytes.take(n)).len() <= literal_code(bytes).len(),
{
    assert(bytes =~= bytes.take(n) + bytes.skip(n));
    lemma_literal_code_concat(bytes.take(n), bytes.skip(n));
}

/// The bytes of a list of offsets: two for each.
pub proof fn lemma_offsets_bytes_len(offsets: Seq<i16>)
    ensures
        offsets_bytes(offsets).len() == 2 * offsets.len(),
    decreases offsets.len(),
{
    if offsets.len() > 0 {
        lemma_offsets_bytes_len(offsets.drop_last());
    }
}

/// An append-only sequence of instructions, identified by `seq_id`.
pub struct InstrSeq {
    seq_id: u64,
    seq: Vec<u8>,
}

impl View for InstrSeq {
    type V = Seq<u8>;

    closed spec fn view(&self) -> Seq<u8> {
        self.seq@
    }
}

/// Writes the two bytes of `o` into a pair.
fn offset_to_bytes(o: i16) -> (r: (u8, u8))
    ensures
        seq![r.0, r.1] == offset_bytes(o),
{
    let u: u32 = if o >= 0 { o as u32 } else { (o as i32 + 0x1_0000) as u32 };
    ((u % 256) as u8, (u / 256) as u8)
}

impl InstrSeq {
    /// The identifier that the sequence was created with.
    pub closed spec fn id(&self) -> u64 {
        self.seq_id
    }

    /// A sequence is never longer than the machine can count.
    pub proof fn lemma_length_fits(&self)
        ensures
            self@.len() <= usize::MAX,
    {
        assert(self.seq.len() == self.seq@.len());
    }

    /// Creates an empty sequence with the given identifier.
    pub fn new(seq_id: u64) -> (s: InstrSeq)
        ensures
            s@ == Seq::<u8>::empty(),
            s.id() == seq_id,
    {
        InstrSeq { seq_id, seq: Vec::new() }
    }

    /// The identifier of the sequence.
    pub fn seq_id(&self) -> (r: u64)
        ensures
            r == self.id(),
    {
        self.seq_id
    }

    /// The offset at which the next instruction will be written.
    pub fn location(&self) -> (r: usize)
        ensures
            r == self@.len(),
    {
        self.seq.len()
    }

    /// Appends the instruction with opcode `instr`, with a zeroed offset
    /// where it carries one, and returns the offset of its first byte.
    pub fn emit_instr(&mut self, instr: u8) -> (loc: usize)
        requires
            instr != SPLIT_N,
        ensures
            loc == old(self)@.len(),
            final(self)@ == old(self)@ + instr_code(instr),
            final(self).id() == old(self).id(),
    {
        let loc = self.seq.len();
        self.seq.push(OPCODE_PREFIX);
        self.seq.push(instr);
        if instr == SPLIT_A || instr == SPLIT_B || instr == JUMP {
            self.seq.push(0);
            self.seq.push(0);
        }
        assert(self.seq@ =~= old(self).seq@ + instr_code(instr));
        loc
    }

    /// Appends an n-way split for `n` alternatives with zeroed offsets, and
    /// returns the offset of its first byte.
    pub fn emit_split_n(&mut self, n: u8) -> (loc: usize)
        ensures
            loc == old(self)@.len(),
            final(self)@ == old(self)@ + seq![OPCODE_PREFIX, SPLIT_N, n] + zeros(2 * n as nat),
            final(self).id() == old(self).id(),
    {
        let loc = self.seq.len();
        self.seq.push(OPCODE_PREFIX);
        self.seq.push(SPLIT_N);
        self.seq.push(n);
        let mut i: usize = 0;
        while i < 2 * (n as usize)
            invariant
                i <= 2 * n,
                self.seq_id == old(self).seq_id,
                self.seq@ == old(self).seq@ + seq![OPCODE_PREFIX, SPLIT_N, n] + zeros(i as nat),
            decreases 2 * n - i,
        {
            self.seq.push(0);
            i += 1;
            assert(self.seq@ =~= old(self).seq@ + seq![OPCODE_PREFIX, SPLIT_N, n] + zeros(
                i as nat,
            ));
        }
        loc
    }

    /// Appends the code of a literal and returns the offset of its first
    /// byte. With `backward` the bytes are taken from the last to the first.
    pub fn emit_literal(&mut self, literal: &[u8], backward: bool) -> (loc: usize)
        ensures
            loc == old(self)@.len(),
            final(self)@ == old(self)@ + literal_code(
                if backward {
                    literal@.reverse()
                } else {
                    literal@
                },
            ),
            final(self).id() == old(self).id(),
    {
        let loc = self.seq.len();
        let n = literal.len();
        let ghost bytes = if backward {
            literal@.reverse()
        } else {
            literal@
        };
        let mut i: usize = 0;
        while i < n
            invariant
                i <= n,
                n == literal@.len(),
                bytes == if backward {
                    literal@.reverse()
                } else {
                    literal@
                },
                self.seq_id == old(self).seq_id,
                self.seq@ == old(self).seq@ + literal_code(bytes.take(i as int)),
            decreases n - i,
        {
            let b = if backward {
                literal[n - 1 - i]
            } else {
                literal[i]
            };
            proof {
                assert(b == bytes[i as int]);
                assert(bytes.take(i + 1) =~= bytes.take(i as int).push(b));
                lemma_literal_code_push(bytes.take(i as int), b);
            }
            self.seq.push(b);
            if b == OPCODE_PREFIX {
                self.seq.push(b);
            }
            i += 1;
            assert(self.seq@ =~= old(self).seq@ + literal_code(bytes.take(i as int)));
        }
        assert(bytes.take(n as int) =~= bytes);
        loc
    }

    /// Appends a masked byte and returns the offset of its first byte.
    pub fn emit_masked_byte(&mut self, b: HexByte) -> (loc: usize)
        ensures
            loc == old(self)@.len(),
            final(self)@ == old(self)@ + masked_byte_code(b),
            final(self).id() == old(self).id(),
    {
        let loc = self.seq.len();
        self.seq.push(OPCODE_PREFIX);
        self.seq.push(MASKED_BYTE);
        self.seq.push(b.value);
        self.seq.push(b.mask);
        assert(self.seq@ =~= old(self).seq@ + masked_byte_code(b));
        loc
    }

    /// Appends a class as a bitmap and returns the offset of its first byte.
    pub fn emit_class(&mut self, c: &ClassBytes) -> (loc: usize)
        ensures
            loc == old(self)@.len(),
            final(self)@ == old(self)@ + class_code(*c),
            final(self).id() == old(self).id(),
    {
        let loc = self.seq.len();
        self.seq.push(OPCODE_PREFIX);
        self.seq.push(CLASS_BITMAP);
        let mut k: usize = 0;
        while k < BITMAP_SIZE
            invariant
                k <= BITMAP_SIZE,
                self.seq_id == old(self).seq_id,
                self.seq@ == old(self).seq@ + seq![OPCODE_PREFIX, CLASS_BITMAP] + class_bitmap(
                    *c,
                ).take(k as int),
            decreases BITMAP_SIZE - k,
        {
            let mut byte: u8 = 0;
            let mut weight: u8 = 1;
            let mut j: usize = 0;
            while j < 8
                invariant
                    j <= 8,
                    k < BITMAP_SIZE,
                    byte == bitmap_bits(*c, k as int, j as int),
                    j < 8 ==> weight == bit_weight(j as int),
                    j < 8 ==> byte < weight,
                decreases 8 - j,
            {
                if c.contains((8 * k + j) as u8) {
                    byte += weight;
                }
                if j < 7 {
                    weight *= 2;
                }
                j += 1;
            }
            self.seq.push(byte);
            k += 1;
            assert(self.seq@ =~= old(self).seq@ + seq![OPCODE_PREFIX, CLASS_BITMAP]
                + class_bitmap(*c).take(k as int));
        }
        assert(class_bitmap(*c).take(BITMAP_SIZE as int) =~= class_bitmap(*c));
        assert(self.seq@ =~= old(self).seq@ + class_code(*c));
        loc
    }

    /// Appends a copy of the code in `start..end` and returns the offset of
    /// the first byte of the copy. Offsets in the code are relative to the
    /// instruction that holds them, so the copy is left as it is and every
    /// jump or split in it leads to the same place within the copy.
    pub fn emit_clone(&mut self, start: usize, end: usize) -> (loc: usize)
        requires
            start <= end <= old(self)@.len(),
        ensures
            loc == old(self)@.len(),
            final(self)@ == old(self)@ + old(self)@.subrange(start as int, end as int),
            final(self).id() == old(self).id(),
    {
        let loc = self.seq.len();
        let mut i: usize = start;
        while i < end
            invariant
                start <= i <= end <= old(self).seq@.len(),
                self.seq_id == old(self).seq_id,
                self.seq@ == old(self).seq@ + old(self).seq@.subrange(start as int, i as int),
            decreases end - i,
        {
            let b = self.seq[i];
            self.seq.push(b);
            i += 1;
            assert(self.seq@ =~= old(self).seq@ + old(self).seq@.subrange(
                start as int,
                i as int,
            ));
        }
        loc
    }

    /// Writes `offset` into the jump or two-way split at `location`.
    pub fn patch_instr(&mut self, location: usize, offset: i16)
        requires
            location + JUMP_SIZE <= old(self)@.len(),
            old(self)@[location as int] == OPCODE_PREFIX,
            has_offset(old(self)@[location + 1]),
        ensures
            final(self)@ == overwrite(old(self)@, location + 2, offset_bytes(offset)),
            final(self).id() == old(self).id(),
    {
        let pair = offset_to_bytes(offset);
        let len = self.seq.len();
        assert(location + JUMP_SIZE <= len);
        self.seq[location + 2] = pair.0;
        self.seq[location + 3] = pair.1;
        assert(offset_bytes(offset) =~= seq![pair.0, pair.1]);
        assert(self.seq@ =~= overwrite(old(self).seq@, location + 2, offset_bytes(offset)));
    }

    /// Writes `offsets` into the n-way split at `location`, which must have
    /// been emitted for as many alternatives as there are offsets.
    pub fn patch_split_n(&mut self, location: usize, offsets: &Vec<i16>)
        requires
            location + 3 + 2 * offsets@.len() <= old(self)@.len(),
            old(self)@[location as int] == OPCODE_PREFIX,
            old(self)@[location + 1] == SPLIT_N,
            old(self)@[location + 2] == offsets@.len(),
        ensures
            final(self)@ == overwrite(old(self)@, location + 3, offsets_bytes(offsets@)),
            final(self).id() == old(self).id(),
    {
        let n = offsets.len();
        let len = self.seq.len();
        let mut i: usize = 0;
        while i < n
            invariant
                i <= n,
                n == offsets@.len(),
                location + 3 + 2 * n <= old(self).seq@.len(),
                old(self).seq@.len() == len,
                self.seq_id == old(self).seq_id,
                self.seq@ == overwrite(
                    old(self).seq@,
                    location + 3,
                    offsets_bytes(offsets@.take(i as int)),
                ),
                offsets_bytes(offsets@.take(i as int)).len() == 2 * i,
            decreases n - i,
        {
            let pair = offset_to_bytes(offsets[i]);
            proof {
                assert(offsets@.take(i + 1).drop_last() =~= offsets@.take(i as int));
                assert(offset_bytes(offsets@[i as int]) =~= seq![pair.0, pair.1]);
            }
            self.seq[location + 3 + 2 * i] = pair.0;
            self.seq[location + 3 + 2 * i + 1] = pair.1;
            i += 1;
            assert(self.seq@ =~= overwrite(
                old(self).seq@,
                location + 3,
                offsets_bytes(offsets@.take(i as int)),
            ));
        }
        assert(offsets@.take(n as int) =~= offsets@);
    }

    /// Appends the code of another sequence.
    pub fn append(&mut self, other: &InstrSeq)
        ensures
            final(self)@ == old(self)@ + other@,
            final(self).id() == old(self).id(),
    {
        let n = other.seq.len();
        let mut i: usize = 0;
        while i < n
            invariant
                i <= n,
                n == other.seq@.len(),
                self.seq_id == old(self).seq_id,
                self.seq@ == old(self).seq@ + other.seq@.take(i as int),
            decreases n - i,
        {
            self.seq.push(other.seq[i]);
            i += 1;
            assert(self.seq@ =~= old(self).seq@ + other.seq@.take(i as int));
        }
        assert(other.seq@.take(n as int) =~= other.seq@);
    }

    /// The byte at offset `i`.
    pub fn byte_at(&self, i: usize) -> (b: u8)
        requires
            i < self@.len(),
        ensures
            b == self@[i as int],
    {
        self.seq[i]
    }

    /// The code as a vector of bytes.
    pub fn into_bytes(self) -> (r: Vec<u8>)
        ensures
            r@ == self@,
    {
        self.seq
    }
}

/// The number of bytes in the code of a literal: one per byte, and one more
/// for each byte equal to the prefix.
pub fn literal_code_length(literal: &[u8]) -> (r: usize)
    requires
        literal_code(literal@).len() <= usize::MAX,
    ensures
        r == literal_code(literal@).len(),
{
    let n = literal.len();
    let mut length: usize = 0;
    let mut i: usize = 0;
    while i < n
        invariant
            i <= n,
            n == literal@.len(),
            length == literal_code(literal@.take(i as int)).len(),
            literal_code(literal@).len() <= usize::MAX,
        decreases n - i,
    {
        proof {
            assert(literal@.take(i + 1) =~= literal@.take(i as int).push(literal@[i as int]));
            lemma_literal_code_push(literal@.take(i as int), literal@[i as int]);
            assert(literal@ =~= literal@.take(i + 1) + literal@.skip(i + 1));
            lemma_literal_code_concat(literal@.take(i + 1), literal@.skip(i + 1));
        }
        if literal[i] == OPCODE_PREFIX {
            length += 2;
        } else {
            length += 1;
        }
        i += 1;
    }
    assert(literal@.take(n as int) =~= literal@);
    length
}

} // verus!
