//! Atoms: short byte strings taken from a pattern, which a multi-pattern
//! search looks for in the input before the virtual machine is run.

use vstd::prelude::*;

verus! {

/// The length that an atom should have.
pub const DESIRED_ATOM_SIZE: usize = 4;

/// The largest number of atoms that one regular expression may have.
pub const MAX_ATOMS_PER_REGEXP: usize = 4096;

/// A short byte string that occurs in a pattern.
#[derive(Debug, PartialEq, Eq)]
pub struct Atom {
    /// The bytes of the atom.
    pub bytes: Vec<u8>,
    /// True if finding the atom is enough to know that the pattern matches.
    pub exact: bool,
    /// Number of bytes of the pattern that come before the atom.
    pub backtrack: u16,
}

/// The mathematical value of an atom.
pub struct AtomView {
    pub bytes: Seq<u8>,
    pub exact: bool,
    pub backtrack: u16,
}

impl View for Atom {
    type V = AtomView;

    open spec fn view(&self) -> AtomView {
        AtomView { bytes: self.bytes@, exact: self.exact, backtrack: self.backtrack }
    }
}

/// True for the bytes that are very frequent in files of any kind.
pub open spec fn is_common_byte(b: u8) -> bool {
    b == 0x00 || b == 0x20 || b == 0x90 || b == 0xCC || b == 0xFF
}

/// True for the ASCII letters.
pub open spec fn is_letter(b: u8) -> bool {
    (0x41 <= b <= 0x5A) || (0x61 <= b <= 0x7A)
}

/// True for the ASCII digits.
pub open spec fn is_digit(b: u8) -> bool {
    0x30 <= b <= 0x39
}

/// What one byte adds to the quality of an atom: least for common bytes,
/// less for letters than for other bytes, most for digits.
pub open spec fn byte_quality(b: u8) -> int {
    if is_common_byte(b) {
        12
    } else if is_letter(b) {
        18
    } else if is_digit(b) {
        22
    } else {
        20
    }
}

/// The sum of what each byte value that occurs in `bytes` adds to the
/// quality: a value that occurs more than once counts once.
pub open spec fn bytes_quality(bytes: Seq<u8>) -> int
    decreases bytes.len(),
{
    if bytes.len() == 0 {
        0
    } else {
        bytes_quality(bytes.drop_last()) + if bytes.drop_last().contains(bytes.last()) {
            0
        } else {
            byte_quality(bytes.last())
        }
    }
}

/// The quality of an atom with the given bytes: the sum over the byte
/// values that occur in it, held at `i32::MAX`.
pub open spec fn atom_quality(bytes: Seq<u8>) -> int {
    if bytes_quality(bytes) > i32::MAX {
        i32::MAX as int
    } else {
        bytes_quality(bytes)
    }
}

/// The part of `s` that starts at `start` and has `size` bytes, or fewer
/// where `s` ends before.
pub open spec fn window(s: Seq<u8>, start: int, size: int) -> Seq<u8> {
    if start + size <= s.len() {
        s.subrange(start, start + size)
    } else {
        s.subrange(start, s.len() as int)
    }
}

/// The last offset at which a window of `size` bytes is tried in `s`: the
/// last at which it fits, the first byte if it fits nowhere, and at most
/// what the backtrack counter can hold.
pub open spec fn last_window_start(s: Seq<u8>, size: int) -> int {
    if s.len() <= size {
        0
    } else if s.len() - size > u16::MAX {
        u16::MAX as int
    } else {
        s.len() - size
    }
}

/// The quality is never negative, it is positive where there is a byte,
/// and no byte adds more than 22 to it.
pub proof fn lemma_bytes_quality_bounds(bytes: Seq<u8>)
    ensures
        0 <= bytes_quality(bytes) <= 22 * bytes.len(),
        bytes.len() > 0 ==> 12 <= bytes_quality(bytes),
    decreases bytes.len(),
{
    if bytes.len() > 0 {
        lemma_bytes_quality_bounds(bytes.drop_last());
        if bytes.len() == 1 {
            assert(!bytes.drop_last().contains(bytes.last()));
        }
    }
}

/// What one byte adds to the quality of an atom.
fn quality_of_byte(b: u8) -> (q: i32)
    ensures
        q == byte_quality(b),
{
    if b == 0x00 || b == 0x20 || b == 0x90 || b == 0xCC || b == 0xFF {
        12
    } else if (0x41 <= b && b <= 0x5A) || (0x61 <= b && b <= 0x7A) {
        18
    } else if 0x30 <= b && b <= 0x39 {
        22
    } else {
        20
    }
}

/// The quality of an atom made of the bytes `start..end` of `s`.
pub fn quality_of_range(s: &[u8], start: usize, end: usize) -> (q: i32)
    requires
        start <= end <= s@.len(),
    ensures
        q == atom_quality(s@.subrange(start as int, end as int)),
{
    let mut q: i32 = 0;
    let mut i: usize = start;
    while i < end
        invariant
            start <= i <= end <= s@.len(),
            q == atom_quality(s@.subrange(start as int, i as int)),
        decreases end - i,
    {
        let ghost before = s@.subrange(start as int, i as int);
        let mut seen = false;
        let mut j: usize = start;
        while j < i
            invariant
                start <= j <= i < end <= s@.len(),
                before == s@.subrange(start as int, i as int),
                seen == exists|k: int| 0 <= k < j - start && before[k] == s@[i as int],
            decreases i - j,
        {
            if s[j] == s[i] {
                assert(before[j - start] == s@[i as int]);
                seen = true;
            }
            j += 1;
        }
        let add = if seen {
            0
        } else {
            quality_of_byte(s[i])
        };
        proof {
            let after = s@.subrange(start as int, i + 1);
            assert(after.drop_last() =~= before);
            assert(after.last() == s@[i as int]);
            assert(seen == before.contains(s@[i as int]));
            lemma_bytes_quality_bounds(before);
        }
        if q > i32::MAX - add {
            q = i32::MAX;
        } else {
            q = q + add;
        }
        i += 1;
    }
    q
}

impl Atom {
    /// An exact atom with the given bytes.
    pub fn exact(bytes: Vec<u8>) -> (a: Atom)
        ensures
            a@ == (AtomView { bytes: bytes@, exact: true, backtrack: 0 }),
    {
        Atom { bytes, exact: true, backtrack: 0 }
    }

    /// An inexact atom with the given bytes.
    pub fn inexact(bytes: Vec<u8>) -> (a: Atom)
        ensures
            a@ == (AtomView { bytes: bytes@, exact: false, backtrack: 0 }),
    {
        Atom { bytes, exact: false, backtrack: 0 }
    }

    /// The atom made of the bytes `start..end` of `s`, or of those up to the
    /// end of `s` where it ends before `end`. Its backtrack is `start`, and
    /// it is exact if it covers the whole of `s`.
    pub fn from_slice_range(s: &[u8], start: u16, size: usize) -> (a: Atom)
        requires
            start <= s@.len(),
        ensures
            a@ == (AtomView {
                bytes: window(s@, start as int, size as int),
                exact: window(s@, start as int, size as int).len() == s@.len(),
                backtrack: start,
            }),
    {
        let first = start as usize;
        let end = if size <= s.len() - first {
            first + size
        } else {
            s.len()
        };
        let mut bytes: Vec<u8> = Vec::new();
        let mut i: usize = first;
        while i < end
            invariant
                first <= i <= end <= s@.len(),
                bytes@ == s@.subrange(first as int, i as int),
            decreases end - i,
        {
            bytes.push(s[i]);
            i += 1;
            assert(bytes@ =~= s@.subrange(first as int, i as int));
        }
        let exact = bytes.len() == s.len();
        Atom { bytes, exact, backtrack: start }
    }

    /// Number of bytes in the atom.
    pub fn len(&self) -> (n: usize)
        ensures
            n == self@.bytes.len(),
    {
        self.bytes.len()
    }

    /// The bytes of the atom.
    pub fn as_bytes(&self) -> (b: &[u8])
        ensures
            b@ == self@.bytes,
    {
        self.bytes.as_slice()
    }

    /// True if the atom is exact.
    pub fn is_exact(&self) -> (r: bool)
        ensures
            r == self@.exact,
    {
        self.exact
    }

    /// Number of bytes of the pattern that come before the atom.
    pub fn backtrack(&self) -> (r: u16)
        ensures
            r == self@.backtrack,
    {
        self.backtrack
    }

    /// Sets the number of bytes that come before the atom.
    pub fn set_backtrack(&mut self, backtrack: u16)
        ensures
            final(self)@ == (AtomView { backtrack, ..old(self)@ }),
    {
        self.backtrack = backtrack;
    }

    /// Sets the exact flag.
    pub fn set_exact(&mut self, exact: bool)
        ensures
            final(self)@ == (AtomView { exact, ..old(self)@ }),
    {
        self.exact = exact;
    }

    /// The quality of the atom: higher is better.
    pub fn quality(&self) -> (q: i32)
        ensures
            q == atom_quality(self@.bytes),
    {
        let q = quality_of_range(self.bytes.as_slice(), 0, self.bytes.len());
        assert(self.bytes@.subrange(0, self.bytes@.len() as int) =~= self.bytes@);
        q
    }
}

/// The best window among those that start at or before `k`: the first of
/// those with the highest quality.
pub open spec fn best_window_upto(s: Seq<u8>, size: int, k: int) -> int
    decreases k,
{
    if k <= 0 {
        0
    } else {
        let prev = best_window_upto(s, size, k - 1);
        if atom_quality(window(s, k, size)) > atom_quality(window(s, prev, size)) {
            k
        } else {
            prev
        }
    }
}

/// The offset of the window that `best_atom_from_slice` takes.
pub open spec fn best_window(s: Seq<u8>, size: int) -> int {
    best_window_upto(s, size, last_window_start(s, size))
}

/// The best window is one of those tried, none of them has a higher
/// quality, and none before it has the same.
pub proof fn lemma_best_window_upto(s: Seq<u8>, size: int, k: int)
    requires
        0 <= k,
    ensures
        0 <= best_window_upto(s, size, k) <= k,
        forall|j: int|
            0 <= j <= k ==> atom_quality(#[trigger] window(s, j, size)) <= atom_quality(
                window(s, best_window_upto(s, size, k), size),
            ),
        forall|j: int|
            0 <= j < best_window_upto(s, size, k) ==> atom_quality(#[trigger] window(s, j, size))
                < atom_quality(window(s, best_window_upto(s, size, k), size)),
    decreases k,
{
    if k > 0 {
        lemma_best_window_upto(s, size, k - 1);
    }
}

/// The atom of at most `desired_size` bytes with the highest quality that
/// can be taken from `s`; of several with the same quality, the first. Its
/// backtrack is the offset in `s` at which it starts.
pub fn best_atom_from_slice(s: &[u8], desired_size: usize) -> (a: Atom)
    ensures
        a@ == (AtomView {
            bytes: window(s@, best_window(s@, desired_size as int), desired_size as int),
            exact: window(s@, best_window(s@, desired_size as int), desired_size as int).len()
                == s@.len(),
            backtrack: best_window(s@, desired_size as int) as u16,
        }),
        0 <= best_window(s@, desired_size as int) <= last_window_start(s@, desired_size as int),
{
    let n = s.len();
    let last: usize = if n <= desired_size {
        0
    } else if n - desired_size > 0xFFFF {
        0xFFFF
    } else {
        n - desired_size
    };
    let first_end = if desired_size <= n {
        desired_size
    } else {
        n
    };
    let mut best: usize = 0;
    let mut best_quality = quality_of_range(s, 0, first_end);
    let mut k: usize = 0;
    while k < last
        invariant
            k <= last <= 0xFFFF,
            n == s@.len(),
            last == last_window_start(s@, desired_size as int),
            last > 0 ==> last + desired_size <= n,
            best == best_window_upto(s@, desired_size as int, k as int),
            best <= k,
            best_quality == atom_quality(window(s@, best as int, desired_size as int)),
        decreases last - k,
    {
        k += 1;
        let q = quality_of_range(s, k, k + desired_size);
        if q > best_quality {
            best_quality = q;
            best = k;
        }
    }
    Atom::from_slice_range(s, best as u16, desired_size)
}

} // verus!
