//! The high-level intermediate representation that the compiler consumes: a
//! tree of literals, byte classes, look-around assertions, captures,
//! concatenations, alternations and repetitions.

use vstd::prelude::*;

verus! {

/// Largest number of alternatives that an alternation can hold: the count
/// in a `SPLIT_N` instruction is one byte.
pub const MAX_ALTERNATIVES: usize = 255;

/// Largest number of nodes in a tree that the compiler accepts.
pub const MAX_NODES: usize = 0x7fff_ffff;

/// An inclusive range of byte values.
#[derive(Clone, Copy, Debug, PartialEq, Eq)]
pub struct ByteRange {
    pub start: u8,
    pub end: u8,
}

/// A set of byte values, given as a list of ranges.
#[derive(Clone, Debug, PartialEq, Eq)]
pub struct ClassBytes {
    pub ranges: Vec<ByteRange>,
}

/// A byte pattern with a mask: it matches the bytes `b` with
/// `b & mask == value`.
#[derive(Clone, Copy, Debug, PartialEq, Eq)]
pub struct HexByte {
    pub value: u8,
    pub mask: u8,
}

/// A look-around assertion.
#[derive(Clone, Copy, Debug, PartialEq, Eq)]
pub enum Look {
    /// The start of the input.
    Start,
    /// The end of the input.
    End,
    /// An ASCII word boundary.
    WordAscii,
    /// Not an ASCII word boundary.
    WordAsciiNegate,
}

/// A repetition of a sub-expression: at least `min` times, at most `max`
/// times where `max` is given.
#[derive(Debug, PartialEq, Eq)]
pub struct Repetition {
    pub min: u32,
    pub max: Option<u32>,
    pub greedy: bool,
    pub sub: Box<Expr>,
}

/// A regular expression.
#[derive(Debug, PartialEq, Eq)]
pub enum Expr {
    /// Matches the empty string.
    Empty,
    /// Matches a fixed byte string.
    Literal(Vec<u8>),
    /// Matches one byte out of a set.
    Class(ClassBytes),
    /// Matches the empty string where the assertion holds.
    Look(Look),
    /// A capture group around a sub-expression.
    Capture(Box<Expr>),
    /// Matches its children one after the other.
    Concat(Vec<Expr>),
    /// Matches any one of its children.
    Alternation(Vec<Expr>),
    /// Matches a sub-expression a number of times.
    Repetition(Repetition),
}

impl ClassBytes {
    /// True if some range of the class holds `b`.
    pub open spec fn spec_contains(&self, b: u8) -> bool {
        exists|i: int|
            0 <= i < self.ranges@.len() && (#[trigger] self.ranges@[i]).start <= b
                && b <= self.ranges@[i].end
    }

    /// True if every range has its start at or below its end.
    pub open spec fn wf(&self) -> bool {
        forall|i: int|
            0 <= i < self.ranges@.len() ==> (#[trigger] self.ranges@[i]).start
                <= self.ranges@[i].end
    }

    /// True if every byte value is in the class.
    pub open spec fn spec_is_any_byte(&self) -> bool {
        forall|b: u8| self.spec_contains(b)
    }

    /// Tests whether `b` is in the class.
    pub fn contains(&self, b: u8) -> (r: bool)
        ensures
            r == self.spec_contains(b),
    {
        let mut i: usize = 0;
        while i < self.ranges.len()
            invariant
                i <= self.ranges@.len(),
                forall|j: int|
                    0 <= j < i ==> !((#[trigger] self.ranges@[j]).start <= b && b
                        <= self.ranges@[j].end),
            decreases self.ranges@.len() - i,
        {
            let r = self.ranges[i];
            if r.start <= b && b <= r.end {
                return true;
            }
            i += 1;
        }
        false
    }

    /// Tests whether the class holds every byte value.
    pub fn is_any_byte(&self) -> (r: bool)
        ensures
            r == self.spec_is_any_byte(),
    {
        let mut b: u8 = 0;
        loop
            invariant
                forall|x: u8| x < b ==> self.spec_contains(x),
            decreases 255 - b,
        {
            if !self.contains(b) {
                return false;
            }
            if b == 255 {
                return true;
            }
            b += 1;
        }
    }
}

/// A pair of value and mask in which the value has no bit outside the mask.
pub open spec fn canonical(value: u8, mask: u8) -> bool {
    value & mask == value
}

/// Where a class is the set of a canonical pair, the pair is given by the
/// smallest and the largest byte of the class.
pub proof fn lemma_masked_determined(c: ClassBytes, v: u8, m: u8, lo: u8, hi: u8)
    requires
        canonical(v, m),
        c.is_masked(v, m),
        c.spec_contains(lo),
        c.spec_contains(hi),
        forall|b: u8| c.spec_contains(b) ==> lo <= b && b <= hi,
    ensures
        v == lo,
        m == !(lo ^ hi),
{
    assert(c.spec_contains(v));
    assert(lo & m == v);
    assert(lo & m <= lo) by (bit_vector);
    let top: u8 = v | !m;
    assert((v | !m) & m == v) by (bit_vector)
        requires
            v & m == v,
    ;
    assert(c.spec_contains(top));
    assert(hi & m == v);
    assert(hi <= (v | !m)) by (bit_vector)
        requires
            hi & m == v,
    ;
    assert(hi == top);
    assert(m == !(v ^ (v | !m))) by (bit_vector)
        requires
            v & m == v,
    ;
}

impl ClassBytes {
    /// True if the class is exactly the set of the bytes `b` with
    /// `b & mask == value`.
    pub open spec fn is_masked(&self, value: u8, mask: u8) -> bool {
        forall|b: u8| self.spec_contains(b) <==> #[trigger] (b & mask) == value
    }

    /// The canonical pair of value and mask whose set is the class, if there
    /// is one.
    pub open spec fn spec_to_hex_byte(&self) -> Option<HexByte> {
        if exists|v: u8, m: u8| canonical(v, m) && self.is_masked(v, m) {
            let (v, m) = choose|v: u8, m: u8| canonical(v, m) && self.is_masked(v, m);
            Some(HexByte { value: v, mask: m })
        } else {
            None
        }
    }

    /// The smallest byte of the class, if it has any.
    pub fn smallest(&self) -> (r: Option<u8>)
        ensures
            r matches Some(lo) ==> self.spec_contains(lo) && forall|b: u8|
                self.spec_contains(b) ==> lo <= b,
            r is None ==> forall|b: u8| !self.spec_contains(b),
    {
        let mut b: u8 = 0;
        loop
            invariant
                forall|x: u8| x < b ==> !self.spec_contains(x),
            decreases 255 - b,
        {
            if self.contains(b) {
                return Some(b);
            }
            if b == 255 {
                return None;
            }
            b += 1;
        }
    }

    /// The largest byte of the class, if it has any.
    pub fn largest(&self) -> (r: Option<u8>)
        ensures
            r matches Some(hi) ==> self.spec_contains(hi) && forall|b: u8|
                self.spec_contains(b) ==> b <= hi,
            r is None ==> forall|b: u8| !self.spec_contains(b),
    {
        let mut b: u8 = 255;
        loop
            invariant
                forall|x: u8| x > b ==> !self.spec_contains(x),
            decreases b,
        {
            if self.contains(b) {
                return Some(b);
            }
            if b == 0 {
                return None;
            }
            b -= 1;
        }
    }

    /// Tests whether the class is the set of the pair `value`, `mask`.
    pub fn matches_mask(&self, value: u8, mask: u8) -> (r: bool)
        ensures
            r == self.is_masked(value, mask),
    {
        let mut b: u8 = 0;
        loop
            invariant
                forall|x: u8| x < b ==> (self.spec_contains(x) <==> #[trigger] (x & mask) == value),
            decreases 255 - b,
        {
            if self.contains(b) != (b & mask == value) {
                return false;
            }
            if b == 255 {
                return true;
            }
            b += 1;
        }
    }

    /// The masked byte that matches exactly the bytes of the class, if there
    /// is one. The pair returned is canonical, and no other canonical pair
    /// has the class as its set.
    pub fn to_hex_byte(&self) -> (r: Option<HexByte>)
        ensures
            r matches Some(h) ==> canonical(h.value, h.mask) && self.is_masked(h.value, h.mask),
            forall|v: u8, m: u8|
                canonical(v, m) && self.is_masked(v, m) ==> r == Some(HexByte { value: v, mask: m }),
            r == self.spec_to_hex_byte(),
    {
        let r = self.find_hex_byte();
        proof {
            if let Some(h) = r {
                assert(canonical(h.value, h.mask) && self.is_masked(h.value, h.mask));
            }
        }
        r
    }

    /// The search behind `to_hex_byte`: the only pair that can have the
    /// class as its set is made of its smallest and its largest byte.
    fn find_hex_byte(&self) -> (r: Option<HexByte>)
        ensures
            r matches Some(h) ==> canonical(h.value, h.mask) && self.is_masked(h.value, h.mask),
            forall|v: u8, m: u8|
                canonical(v, m) && self.is_masked(v, m) ==> r == Some(HexByte { value: v, mask: m }),
    {
        let lo = match self.smallest() {
            Some(lo) => lo,
            None => {
                assert forall|v: u8, m: u8| canonical(v, m) implies !self.is_masked(v, m) by {
                    assert(!self.spec_contains(v));
                }
                return None;
            },
        };
        let hi = match self.largest() {
            Some(hi) => hi,
            None => {
                return None;
            },
        };
        let mask: u8 = !(lo ^ hi);
        proof {
            assert forall|v: u8, m: u8| canonical(v, m) && self.is_masked(v, m) implies v == lo
                && m == mask by {
                lemma_masked_determined(*self, v, m, lo, hi);
            }
        }
        if lo & mask == lo && self.matches_mask(lo, mask) {
            Some(HexByte { value: lo, mask })
        } else {
            None
        }
    }
}

impl Expr {
    /// Number of nodes in the tree.
    pub open spec fn size(self) -> nat
        decreases self,
    {
        match self {
            Expr::Empty => 1,
            Expr::Literal(_) => 1,
            Expr::Class(_) => 1,
            Expr::Look(_) => 1,
            Expr::Capture(sub) => 1 + sub.size(),
            Expr::Concat(subs) => 1 + Self::size_all(subs@),
            Expr::Alternation(subs) => 1 + Self::size_all(subs@),
            Expr::Repetition(rep) => 1 + rep.sub.size(),
        }
    }

    /// Number of nodes in a list of trees.
    pub open spec fn size_all(subs: Seq<Expr>) -> nat
        decreases subs,
    {
        if subs.len() == 0 {
            0
        } else {
            Self::size_all(subs.drop_last()) + subs.last().size()
        }
    }
}

impl Expr {
    /// True if the tree can be compiled: every class range is ordered, every
    /// alternation has between one and `MAX_ALTERNATIVES` children, and no
    /// repetition has its minimum above its maximum.
    pub open spec fn wf(self) -> bool
        decreases self,
    {
        match self {
            Expr::Empty => true,
            Expr::Literal(_) => true,
            Expr::Class(c) => c.wf(),
            Expr::Look(_) => true,
            Expr::Capture(sub) => sub.wf(),
            Expr::Concat(subs) => forall|i: int| 0 <= i < subs@.len() ==> (#[trigger] subs@[i]).wf(),
            Expr::Alternation(subs) => 1 <= subs@.len() <= MAX_ALTERNATIVES && forall|i: int|
                0 <= i < subs@.len() ==> (#[trigger] subs@[i]).wf(),
            Expr::Repetition(rep) => (rep.max matches Some(m) ==> rep.min <= m) && rep.sub.wf(),
        }
    }

    /// True if a look-around assertion occurs anywhere in the tree.
    pub open spec fn has_look(self) -> bool
        decreases self,
    {
        match self {
            Expr::Empty => false,
            Expr::Literal(_) => false,
            Expr::Class(_) => false,
            Expr::Look(_) => true,
            Expr::Capture(sub) => sub.has_look(),
            Expr::Concat(subs) => exists|i: int| 0 <= i < subs@.len() && (#[trigger] subs@[i]).has_look(),
            Expr::Alternation(subs) => exists|i: int|
                0 <= i < subs@.len() && (#[trigger] subs@[i]).has_look(),
            Expr::Repetition(rep) => rep.sub.has_look(),
        }
    }

    /// True if the tree is well formed and small enough to be compiled.
    pub open spec fn valid(self) -> bool {
        self.wf() && self.size() <= MAX_NODES
    }
}

/// Tests whether any tree of a list contains a look-around assertion.
fn any_has_look(subs: &Vec<Expr>) -> (r: bool)
    ensures
        r == exists|i: int| 0 <= i < subs@.len() && (#[trigger] subs@[i]).has_look(),
    decreases subs,
{
    let mut i: usize = 0;
    while i < subs.len()
        invariant
            i <= subs@.len(),
            forall|j: int| 0 <= j < i ==> !(#[trigger] subs@[j]).has_look(),
        decreases subs@.len() - i,
    {
        if subs[i].contains_look() {
            return true;
        }
        i += 1;
    }
    false
}

/// Tests whether every tree of a list is well formed.
fn all_well_formed(subs: &Vec<Expr>) -> (r: bool)
    ensures
        r == forall|i: int| 0 <= i < subs@.len() ==> (#[trigger] subs@[i]).wf(),
    decreases subs,
{
    let mut i: usize = 0;
    while i < subs.len()
        invariant
            i <= subs@.len(),
            forall|j: int| 0 <= j < i ==> (#[trigger] subs@[j]).wf(),
        decreases subs@.len() - i,
    {
        if !subs[i].is_well_formed() {
            return false;
        }
        i += 1;
    }
    true
}

/// Counts the nodes of a list of trees, as long as the count stays at or
/// below `limit`.
fn count_all(subs: &Vec<Expr>, limit: usize) -> (r: Option<usize>)
    ensures
        r matches Some(n) ==> n == Expr::size_all(subs@) && n <= limit,
        r is None ==> Expr::size_all(subs@) > limit,
    decreases subs,
{
    let mut total: usize = 0;
    let mut i: usize = 0;
    while i < subs.len()
        invariant
            i <= subs@.len(),
            total == Expr::size_all(subs@.take(i as int)),
            total <= limit,
        decreases subs@.len() - i,
    {
        proof {
            assert(subs@.take(i + 1).drop_last() =~= subs@.take(i as int));
            lemma_size_all_prefix(subs@, i + 1);
        }
        match subs[i].node_count(limit - total) {
            Some(n) => {
                total += n;
            },
            None => {
                return None;
            },
        }
        i += 1;
    }
    proof {
        assert(subs@.take(i as int) =~= subs@);
    }
    Some(total)
}

/// Every tree has a node, and a list of trees has a node for each.
pub proof fn lemma_size_positive(subs: Seq<Expr>)
    ensures
        Expr::size_all(subs) >= subs.len(),
    decreases subs.len(),
{
    if subs.len() > 0 {
        lemma_size_positive(subs.drop_last());
        assert(subs.last().size() >= 1);
    }
}

/// A tree of a list and the trees before it have no more nodes than the
/// list.
pub proof fn lemma_size_all_index(subs: Seq<Expr>, i: int)
    requires
        0 <= i < subs.len(),
    ensures
        i + subs[i].size() <= Expr::size_all(subs),
{
    lemma_size_all_prefix(subs, i + 1);
    lemma_size_positive(subs.take(i));
    assert(subs.take(i + 1).drop_last() =~= subs.take(i));
    assert(subs.take(i + 1).last() == subs[i]);
}

/// The node count of a prefix of a list is at most that of the list.
pub proof fn lemma_size_all_prefix(subs: Seq<Expr>, n: int)
    requires
        0 <= n <= subs.len(),
    ensures
        Expr::size_all(subs.take(n)) <= Expr::size_all(subs),
    decreases subs.len(),
{
    if n < subs.len() {
        assert(subs.drop_last().take(n) =~= subs.take(n));
        lemma_size_all_prefix(subs.drop_last(), n);
    } else {
        assert(subs.take(n) =~= subs);
    }
}

impl ClassBytes {
    /// Tests whether every range has its start at or below its end.
    pub fn is_well_formed(&self) -> (r: bool)
        ensures
            r == self.wf(),
    {
        let mut i: usize = 0;
        while i < self.ranges.len()
            invariant
                i <= self.ranges@.len(),
                forall|j: int|
                    0 <= j < i ==> (#[trigger] self.ranges@[j]).start <= self.ranges@[j].end,
            decreases self.ranges@.len() - i,
        {
            if self.ranges[i].start > self.ranges[i].end {
                return false;
            }
            i += 1;
        }
        true
    }
}

impl Expr {
    /// Tests whether a look-around assertion occurs anywhere in the tree.
    pub fn contains_look(&self) -> (r: bool)
        ensures
            r == self.has_look(),
        decreases self,
    {
        match self {
            Expr::Empty => false,
            Expr::Literal(_) => false,
            Expr::Class(_) => false,
            Expr::Look(_) => true,
            Expr::Capture(sub) => sub.contains_look(),
            Expr::Concat(subs) => any_has_look(subs),
            Expr::Alternation(subs) => any_has_look(subs),
            Expr::Repetition(rep) => rep.sub.contains_look(),
        }
    }

    /// Tests whether the tree is well formed.
    pub fn is_well_formed(&self) -> (r: bool)
        ensures
            r == self.wf(),
        decreases self,
    {
        match self {
            Expr::Empty => true,
            Expr::Literal(_) => true,
            Expr::Class(c) => c.is_well_formed(),
            Expr::Look(_) => true,
            Expr::Capture(sub) => sub.is_well_formed(),
            Expr::Concat(subs) => all_well_formed(subs),
            Expr::Alternation(subs) => 1 <= subs.len() && subs.len() <= MAX_ALTERNATIVES
                && all_well_formed(subs),
            Expr::Repetition(rep) => {
                let ordered = match rep.max {
                    Some(m) => rep.min <= m,
                    None => true,
                };
                ordered && rep.sub.is_well_formed()
            },
        }
    }

    /// Counts the nodes of the tree, as long as the count stays at or below
    /// `limit`.
    pub fn node_count(&self, limit: usize) -> (r: Option<usize>)
        ensures
            r matches Some(n) ==> n == self.size() && n <= limit,
            r is None ==> self.size() > limit,
        decreases self,
    {
        if limit == 0 {
            return None;
        }
        let below = match self {
            Expr::Empty => Some(0),
            Expr::Literal(_) => Some(0),
            Expr::Class(_) => Some(0),
            Expr::Look(_) => Some(0),
            Expr::Capture(sub) => sub.node_count(limit - 1),
            Expr::Concat(subs) => count_all(subs, limit - 1),
            Expr::Alternation(subs) => count_all(subs, limit - 1),
            Expr::Repetition(rep) => rep.sub.node_count(limit - 1),
        };
        match below {
            Some(n) => Some(n + 1),
            None => None,
        }
    }

    /// Tests whether the tree is well formed and small enough to be
    /// compiled.
    pub fn is_valid(&self) -> (r: bool)
        ensures
            r == self.valid(),
    {
        self.is_well_formed() && self.node_count(MAX_NODES).is_some()
    }
}

} // verus!
