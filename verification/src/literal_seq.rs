//! Sequences of candidate literals: what the literal extractor gives for an
//! expression, and how such sequences are simplified, concatenated and
//! turned into atoms.

use vstd::prelude::*;
use crate::atoms::{
    atom_quality, quality_of_range, Atom, AtomView, DESIRED_ATOM_SIZE, MAX_ATOMS_PER_REGEXP,
};
use crate::hir::{ClassBytes, Expr, Look};

verus! {

/// Largest class that the extractor turns into literals.
pub const LIMIT_CLASS: usize = 256;

/// Largest number of literals that the extractor returns.
pub const LIMIT_TOTAL: usize = 512;

/// A sequence of literals, as the literal extractor of `regex_syntax`
/// returns it.
#[verifier::external_type_specification]
#[verifier::external_body]
pub struct ExLiteralSeq(regex_syntax::hir::literal::Seq);

/// An expression in the form in which `regex_syntax` holds it.
#[verifier::external_type_specification]
#[verifier::external_body]
pub struct ExSyntaxHir(regex_syntax::hir::Hir);

/// True if the sequence is finite, that is, if it enumerates its literals.
pub uninterp spec fn seq_finite(s: regex_syntax::hir::literal::Seq) -> bool;

/// The literals of a finite sequence in their order, each with its bytes
/// and its exact flag.
pub uninterp spec fn seq_lits(s: regex_syntax::hir::literal::Seq) -> Seq<(Seq<u8>, bool)>;

/// What the literal extractor returns for an expression under the given
/// limits: whether the sequence is finite, and its literals.
pub uninterp spec fn extracted(
    h: Expr,
    limit_class: usize,
    limit_total: usize,
    limit_literal_len: usize,
    limit_repeat: usize,
) -> (bool, Seq<(Seq<u8>, bool)>);

/// The literals that are left when adjacent literals with the same bytes
/// are merged into one, which is exact if all of them are.
pub open spec fn merged(lits: Seq<(Seq<u8>, bool)>) -> Seq<(Seq<u8>, bool)>
    decreases lits.len(),
{
    if lits.len() <= 1 {
        lits
    } else {
        let rest = merged(lits.drop_last());
        let last = lits.last();
        if rest.len() > 0 && rest.last().0 == last.0 {
            rest.drop_last().push((last.0, rest.last().1 && last.1))
        } else {
            rest.push(last)
        }
    }
}

/// What the cross product makes of one literal: an inexact literal stays
/// as it is, and an exact one is followed by each literal of `b` in turn.
pub open spec fn cross_one(lit: (Seq<u8>, bool), b: Seq<(Seq<u8>, bool)>) -> Seq<(Seq<u8>, bool)> {
    if lit.1 {
        Seq::new(b.len(), |j: int| (lit.0 + b[j].0, b[j].1))
    } else {
        seq![lit]
    }
}

/// What the cross product makes of each literal of `a`, in their order.
pub open spec fn cross_all(a: Seq<(Seq<u8>, bool)>, b: Seq<(Seq<u8>, bool)>) -> Seq<
    (Seq<u8>, bool),
>
    decreases a.len(),
{
    if a.len() == 0 {
        Seq::empty()
    } else {
        cross_all(a.drop_last(), b) + cross_one(a.last(), b)
    }
}

/// The literals of the cross product of two finite sequences.
pub open spec fn crossed(a: Seq<(Seq<u8>, bool)>, b: Seq<(Seq<u8>, bool)>) -> Seq<
    (Seq<u8>, bool),
> {
    merged(cross_all(a, b))
}

/// Merging adds no literal.
pub proof fn lemma_merged_len(lits: Seq<(Seq<u8>, bool)>)
    ensures
        merged(lits).len() <= lits.len(),
    decreases lits.len(),
{
    if lits.len() > 1 {
        lemma_merged_len(lits.drop_last());
    }
}

/// The cross product has at most as many literals as `a`, or as `a` has
/// times as many as `b` has.
pub proof fn lemma_crossed_len(a: Seq<(Seq<u8>, bool)>, b: Seq<(Seq<u8>, bool)>)
    ensures
        crossed(a, b).len() <= a.len() || crossed(a, b).len() <= a.len() * b.len(),
{
    lemma_cross_all_len(a, b);
    lemma_merged_len(cross_all(a, b));
}

/// Each literal of `a` gives one literal or as many as `b` has.
pub proof fn lemma_cross_all_len(a: Seq<(Seq<u8>, bool)>, b: Seq<(Seq<u8>, bool)>)
    ensures
        b.len() >= 1 ==> cross_all(a, b).len() <= a.len() * b.len(),
        b.len() == 0 ==> cross_all(a, b).len() <= a.len(),
    decreases a.len(),
{
    if a.len() > 0 {
        lemma_cross_all_len(a.drop_last(), b);
        if b.len() >= 1 {
            assert((a.len() - 1) * b.len() + b.len() == a.len() * b.len()) by (nonlinear_arith);
        }
    } else {
        assert(0 * b.len() == 0) by (nonlinear_arith);
    }
}

/// A literal as plain values.
#[derive(Debug, PartialEq, Eq)]
pub struct Lit {
    pub bytes: Vec<u8>,
    pub exact: bool,
}

impl View for Lit {
    type V = (Seq<u8>, bool);

    open spec fn view(&self) -> (Seq<u8>, bool) {
        (self.bytes@, self.exact)
    }
}

/// The values of a list of literals.
pub open spec fn lits_view(v: Seq<Lit>) -> Seq<(Seq<u8>, bool)> {
    Seq::new(v.len(), |i: int| v[i]@)
}

/// The length of the longest literal, 0 if there is none.
pub open spec fn max_len(lits: Seq<(Seq<u8>, bool)>) -> nat
    decreases lits.len(),
{
    if lits.len() == 0 {
        0
    } else {
        let rest = max_len(lits.drop_last());
        if lits.last().0.len() > rest {
            lits.last().0.len()
        } else {
            rest
        }
    }
}

/// True if every literal has at least `n` bytes and all agree on their first
/// `n` bytes.
pub open spec fn common_prefix(lits: Seq<(Seq<u8>, bool)>, n: int) -> bool {
    forall|i: int|
        0 <= i < lits.len() ==> n <= (#[trigger] lits[i]).0.len() && lits[i].0.take(n)
            == lits[0].0.take(n)
}

/// True if no literal is exact.
pub open spec fn all_inexact(lits: Seq<(Seq<u8>, bool)>) -> bool {
    forall|i: int| 0 <= i < lits.len() ==> !(#[trigger] lits[i]).1
}

/// The literals with their exact flags cleared.
pub open spec fn made_inexact(lits: Seq<(Seq<u8>, bool)>) -> Seq<(Seq<u8>, bool)> {
    Seq::new(lits.len(), |i: int| (lits[i].0, false))
}

/// The literals cut to their first `n` bytes; one that was cut is inexact.
pub open spec fn kept_first(lits: Seq<(Seq<u8>, bool)>, n: int) -> Seq<(Seq<u8>, bool)> {
    Seq::new(
        lits.len(),
        |i: int|
            if n >= lits[i].0.len() {
                lits[i]
            } else {
                (lits[i].0.take(n), false)
            },
    )
}

/// `a * b`, held at `usize::MAX`.
pub open spec fn saturating_product(a: nat, b: nat) -> nat {
    if a * b > usize::MAX {
        usize::MAX as nat
    } else {
        a * b
    }
}

/// The expression in the form of `regex_syntax`: `Hir::empty`, `literal`,
/// `class`, `look`, `capture`, `concat`, `alternation` and `repetition`
/// applied to the same parts. Nothing is claimed of the value.
#[verifier::external_body]
fn to_syntax(h: &Expr) -> regex_syntax::hir::Hir {
    match h {
        Expr::Empty => regex_syntax::hir::Hir::empty(),
        Expr::Literal(bytes) => regex_syntax::hir::Hir::literal(bytes.clone()),
        Expr::Class(class) => to_syntax_class(class),
        Expr::Look(look) => to_syntax_look(look),
        Expr::Capture(sub) => to_syntax_capture(to_syntax(sub)),
        Expr::Concat(subs) => regex_syntax::hir::Hir::concat(subs.iter().map(to_syntax).collect()),
        Expr::Alternation(subs) => regex_syntax::hir::Hir::alternation(
            subs.iter().map(to_syntax).collect(),
        ),
        Expr::Repetition(rep) => to_syntax_repetition(rep.min, rep.max, rep.greedy, to_syntax(&rep.sub)),
    }
}

/// The class in the form of `regex_syntax`: `Hir::class` on the byte class
/// that `ClassBytes::new` makes of the same ranges. Nothing is claimed of
/// the value.
#[verifier::external_body]
fn to_syntax_class(class: &ClassBytes) -> regex_syntax::hir::Hir {
    let ranges = class.ranges.iter().map(
        |r| regex_syntax::hir::ClassBytesRange::new(r.start, r.end),
    );
    regex_syntax::hir::Hir::class(
        regex_syntax::hir::Class::Bytes(regex_syntax::hir::ClassBytes::new(ranges)),
    )
}

/// The assertion in the form of `regex_syntax`: `Hir::look` on the variant
/// of the same name. Nothing is claimed of the value.
#[verifier::external_body]
fn to_syntax_look(look: &Look) -> regex_syntax::hir::Hir {
    regex_syntax::hir::Hir::look(
        match look {
            Look::Start => regex_syntax::hir::Look::Start,
            Look::End => regex_syntax::hir::Look::End,
            Look::WordAscii => regex_syntax::hir::Look::WordAscii,
            Look::WordAsciiNegate => regex_syntax::hir::Look::WordAsciiNegate,
        },
    )
}

/// `Hir::capture` of `regex_syntax` on an unnamed group around `sub`.
/// Nothing is claimed of the value.
#[verifier::external_body]
fn to_syntax_capture(sub: regex_syntax::hir::Hir) -> regex_syntax::hir::Hir {
    regex_syntax::hir::Hir::capture(
        regex_syntax::hir::Capture { index: 1, name: None, sub: Box::new(sub) },
    )
}

/// `Hir::repetition` of `regex_syntax` on the same bounds. Nothing is
/// claimed of the value.
#[verifier::external_body]
fn to_syntax_repetition(
    min: u32,
    max: Option<u32>,
    greedy: bool,
    sub: regex_syntax::hir::Hir,
) -> regex_syntax::hir::Hir {
    regex_syntax::hir::Hir::repetition(
        regex_syntax::hir::Repetition { min, max, greedy, sub: Box::new(sub) },
    )
}

/// `Extractor::extract` of `regex_syntax`, with the four limits set, on the
/// expression. The result is a function of the expression and the limits;
/// the contract gives it a name. With a class limit at or below the total
/// limit, every sequence that the extractor builds passes its own check
/// against the total limit, so a finite result has no more literals than
/// that.
#[verifier::external_body]
fn extract_with_limits(
    h: &Expr,
    limit_class: usize,
    limit_total: usize,
    limit_literal_len: usize,
    limit_repeat: usize,
) -> (r: regex_syntax::hir::literal::Seq)
    requires
        1 <= limit_total,
        limit_class <= limit_total,
    ensures
        (seq_finite(r), seq_lits(r)) == extracted(
            *h,
            limit_class,
            limit_total,
            limit_literal_len,
            limit_repeat,
        ),
        seq_finite(r) ==> seq_lits(r).len() <= limit_total,
{
    let mut extractor = regex_syntax::hir::literal::Extractor::new();
    extractor.limit_class(limit_class);
    extractor.limit_total(limit_total);
    extractor.limit_literal_len(limit_literal_len);
    extractor.limit_repeat(limit_repeat);
    extractor.extract(&to_syntax(h))
}

/// `Seq::singleton` on `Literal::exact`: the finite sequence of one exact
/// literal with the given bytes.
#[verifier::external_body]
fn seq_singleton_exact(bytes: Vec<u8>) -> (r: regex_syntax::hir::literal::Seq)
    ensures
        seq_finite(r),
        seq_lits(r) == seq![(bytes@, true)],
{
    regex_syntax::hir::literal::Seq::singleton(regex_syntax::hir::literal::Literal::exact(bytes))
}

/// `Seq::singleton` on `Literal::inexact`: the finite sequence of one
/// inexact literal with the given bytes.
#[verifier::external_body]
fn seq_singleton_inexact(bytes: Vec<u8>) -> (r: regex_syntax::hir::literal::Seq)
    ensures
        seq_finite(r),
        seq_lits(r) == seq![(bytes@, false)],
{
    regex_syntax::hir::literal::Seq::singleton(regex_syntax::hir::literal::Literal::inexact(bytes))
}

/// `Seq::len`: the number of literals of a finite sequence, nothing for an
/// infinite one.
#[verifier::external_body]
fn seq_len(s: &regex_syntax::hir::literal::Seq) -> (r: Option<usize>)
    ensures
        r is Some <==> seq_finite(*s),
        r matches Some(n) ==> n == seq_lits(*s).len(),
{
    s.len()
}

/// `Seq::max_literal_len`: the length of the longest literal of a finite
/// sequence that has one, nothing otherwise.
#[verifier::external_body]
fn seq_max_literal_len(s: &regex_syntax::hir::literal::Seq) -> (r: Option<usize>)
    ensures
        r is Some <==> (seq_finite(*s) && seq_lits(*s).len() > 0),
        r matches Some(n) ==> n == max_len(seq_lits(*s)),
{
    s.max_literal_len()
}

/// `Seq::longest_common_prefix`: for a finite sequence that has a literal,
/// the longest byte string with which all its literals start; nothing
/// otherwise.
#[verifier::external_body]
fn seq_longest_common_prefix(s: &regex_syntax::hir::literal::Seq) -> (r: Option<Vec<u8>>)
    ensures
        r is Some <==> (seq_finite(*s) && seq_lits(*s).len() > 0),
        r matches Some(p) ==> (common_prefix(seq_lits(*s), p@.len() as int) && p@ == seq_lits(
            *s,
        )[0].0.take(p@.len() as int) && !common_prefix(seq_lits(*s), p@.len() as int + 1)),
{
    s.longest_common_prefix().map(|p| p.to_vec())
}

/// `Seq::max_cross_len`: for two finite sequences the product of their
/// lengths, held at `usize::MAX`; nothing if one of them is infinite.
#[verifier::external_body]
fn seq_max_cross_len(
    a: &regex_syntax::hir::literal::Seq,
    b: &regex_syntax::hir::literal::Seq,
) -> (r: Option<usize>)
    ensures
        r is Some <==> (seq_finite(*a) && seq_finite(*b)),
        r matches Some(n) ==> n == saturating_product(seq_lits(*a).len(), seq_lits(*b).len()),
{
    a.max_cross_len(b)
}

/// `Seq::is_inexact`: true for an infinite sequence, and for a finite one
/// that has no exact literal.
#[verifier::external_body]
fn seq_is_inexact(s: &regex_syntax::hir::literal::Seq) -> (r: bool)
    ensures
        r == (!seq_finite(*s) || all_inexact(seq_lits(*s))),
{
    s.is_inexact()
}

/// `Seq::cross_forward` of `a` with a copy of `b`, both finite: `a` stays
/// finite and holds the cross product. An inexact literal of `a` is kept;
/// an exact one is replaced by itself followed by each literal of `b` in
/// turn, exact where that literal is; and adjacent literals with the same
/// bytes are merged.
#[verifier::external_body]
fn seq_cross_forward(
    a: &mut regex_syntax::hir::literal::Seq,
    b: &regex_syntax::hir::literal::Seq,
)
    requires
        seq_finite(*old(a)),
        seq_finite(*b),
    ensures
        seq_finite(*final(a)),
        seq_lits(*final(a)) == crossed(seq_lits(*old(a)), seq_lits(*b)),
{
    a.cross_forward(&mut b.clone());
}

/// `Seq::make_inexact`: clears the exact flag of every literal; the
/// sequence is finite after it exactly if it was before.
#[verifier::external_body]
pub(crate) fn seq_make_inexact(s: &mut regex_syntax::hir::literal::Seq)
    ensures
        seq_finite(*final(s)) == seq_finite(*old(s)),
        seq_finite(*old(s)) ==> seq_lits(*final(s)) == made_inexact(seq_lits(*old(s))),
{
    s.make_inexact();
}

/// `Seq::keep_first_bytes`: cuts every literal to its first `len` bytes
/// and clears the exact flag of those it cut.
#[verifier::external_body]
fn seq_keep_first_bytes(s: &mut regex_syntax::hir::literal::Seq, len: usize)
    ensures
        seq_finite(*final(s)) == seq_finite(*old(s)),
        seq_finite(*old(s)) ==> seq_lits(*final(s)) == kept_first(seq_lits(*old(s)), len as int),
{
    s.keep_first_bytes(len);
}

/// `Seq::dedup`: merges adjacent literals that have the same bytes into
/// one, which is inexact if one of them is.
#[verifier::external_body]
fn seq_dedup(s: &mut regex_syntax::hir::literal::Seq)
    ensures
        seq_finite(*final(s)) == seq_finite(*old(s)),
        seq_finite(*old(s)) ==> seq_lits(*final(s)) == merged(seq_lits(*old(s))),
{
    s.dedup();
}

/// `Seq::literals`: the literals of a finite sequence, each as its bytes
/// and its exact flag; nothing for an infinite one.
#[verifier::external_body]
fn seq_literals(s: &regex_syntax::hir::literal::Seq) -> (r: Option<Vec<Lit>>)
    ensures
        r is Some <==> seq_finite(*s),
        r matches Some(v) ==> lits_view(v@) == seq_lits(*s),
{
    s.literals().map(
        |lits| lits.iter().map(|l| Lit { bytes: l.as_bytes().to_vec(), exact: l.is_exact() }).collect(),
    )
}

/// The mathematical value of a sequence of literals.
pub struct SeqView {
    /// False for the sequence that stands for any literal.
    pub finite: bool,
    /// The literals of a finite sequence, each with its exact flag.
    pub lits: Seq<(Seq<u8>, bool)>,
}

/// The value of a sequence.
pub open spec fn seq_view(s: regex_syntax::hir::literal::Seq) -> SeqView {
    SeqView { finite: seq_finite(s), lits: seq_lits(s) }
}

/// The values of a list of sequences.
pub open spec fn seq_views(seqs: Seq<regex_syntax::hir::literal::Seq>) -> Seq<SeqView> {
    Seq::new(seqs.len(), |i: int| seq_view(seqs[i]))
}

/// What the literal extractor gives for an expression under the limits of
/// this compiler.
pub open spec fn expr_literals(h: Expr) -> SeqView {
    let e = extracted(h, LIMIT_CLASS, LIMIT_TOTAL, DESIRED_ATOM_SIZE, DESIRED_ATOM_SIZE);
    SeqView { finite: e.0, lits: e.1 }
}

/// True if the sequence has 256 literals that differ in their last byte
/// only: all start with the same bytes, one fewer than the longest has, and
/// the longest has more than one byte.
pub open spec fn differ_in_last_byte(v: SeqView) -> bool {
    &&& v.finite
    &&& v.lits.len() == 256
    &&& max_len(v.lits) > 1
    &&& common_prefix(v.lits, max_len(v.lits) - 1)
    &&& !common_prefix(v.lits, max_len(v.lits) as int)
}

/// The sequence simplified: where its 256 literals differ in their last
/// byte only, the one inexact literal that they all start with; else the
/// sequence itself.
pub open spec fn simplified(v: SeqView) -> SeqView {
    if differ_in_last_byte(v) {
        SeqView { finite: true, lits: seq![(v.lits[0].0.take(max_len(v.lits) - 1), false)] }
    } else {
        v
    }
}

/// Literals that agree on their first `n` bytes agree on their first `k`
/// bytes for every `k` up to `n`.
pub proof fn lemma_common_prefix_shorter(lits: Seq<(Seq<u8>, bool)>, n: int, k: int)
    requires
        0 <= k <= n,
        common_prefix(lits, n),
    ensures
        common_prefix(lits, k),
{
    assert forall|i: int| 0 <= i < lits.len() implies k <= (#[trigger] lits[i]).0.len()
        && lits[i].0.take(k) == lits[0].0.take(k) by {
        assert(lits[i].0.take(n) == lits[0].0.take(n));
        assert(lits[i].0.take(k) =~= lits[i].0.take(n).take(k));
        assert(lits[0].0.take(k) =~= lits[0].0.take(n).take(k));
    }
}

/// Replaces 256 literals that differ in their last byte only by the one
/// inexact literal that they all start with, and leaves every other
/// sequence as it is.
pub fn simplify_seq(seq: regex_syntax::hir::literal::Seq) -> (r: regex_syntax::hir::literal::Seq)
    ensures
        seq_view(r) == simplified(seq_view(seq)),
{
    if let Some(len) = seq_len(&seq) {
        if len == 256 {
            if let Some(longest) = seq_max_literal_len(&seq) {
                if longest > 1 {
                    if let Some(prefix) = seq_longest_common_prefix(&seq) {
                        let ghost lits = seq_lits(seq);
                        if prefix.len() == longest - 1 {
                            return seq_singleton_inexact(prefix);
                        }
                        proof {
                            if prefix@.len() < longest - 1 {
                                if common_prefix(lits, longest - 1) {
                                    lemma_common_prefix_shorter(
                                        lits,
                                        longest - 1,
                                        prefix@.len() as int + 1,
                                    );
                                }
                            } else {
                                lemma_common_prefix_shorter(
                                    lits,
                                    prefix@.len() as int,
                                    longest as int,
                                );
                            }
                        }
                    }
                }
            }
        }
    }
    seq
}

/// The atoms of a list of literals: for each literal an atom with its
/// bytes and its exact flag, and no backtrack.
pub open spec fn atoms_of(lits: Seq<(Seq<u8>, bool)>) -> Seq<AtomView> {
    Seq::new(lits.len(), |i: int| AtomView { bytes: lits[i].0, exact: lits[i].1, backtrack: 0 })
}

/// The values of a list of atoms.
pub open spec fn atom_views(atoms: Seq<Atom>) -> Seq<AtomView> {
    Seq::new(atoms.len(), |i: int| atoms[i]@)
}

/// The atoms that a sequence gives: those of its literals if it is finite.
pub open spec fn seq_atoms(v: SeqView) -> Option<Seq<AtomView>> {
    if v.finite {
        Some(atoms_of(v.lits))
    } else {
        None
    }
}

/// Turns a finite sequence into one atom for each of its literals; an
/// infinite sequence gives nothing.
pub fn seq_to_atoms(seq: regex_syntax::hir::literal::Seq) -> (r: Option<Vec<Atom>>)
    ensures
        r is Some <==> seq_view(seq).finite,
        r matches Some(atoms) ==> Some(atom_views(atoms@)) == seq_atoms(seq_view(seq)),
{
    match seq_literals(&seq) {
        None => None,
        Some(mut lits) => {
            let ghost all = lits@;
            let mut atoms: Vec<Atom> = Vec::new();
            let n = lits.len();
            let mut i: usize = n;
            while i > 0
                invariant
                    i <= n,
                    n == all.len(),
                    lits@ == all.take(i as int),
                    atoms@.len() == n - i,
                    forall|j: int|
                        0 <= j < atoms@.len() ==> (#[trigger] atoms@[j])@ == atoms_of(
                            lits_view(all),
                        )[n - 1 - j],
                decreases i,
            {
                let lit = match lits.pop() {
                    Some(lit) => lit,
                    None => {
                        return None;
                    },
                };
                i -= 1;
                assert(lit == all[i as int]);
                assert(lits@ =~= all.take(i as int));
                let atom = if lit.exact {
                    Atom::exact(lit.bytes)
                } else {
                    Atom::inexact(lit.bytes)
                };
                atoms.push(atom);
            }
            let mut ordered: Vec<Atom> = Vec::new();
            let ghost reversed = atoms@;
            let mut k: usize = n;
            while k > 0
                invariant
                    k <= n,
                    n == reversed.len(),
                    atoms@ == reversed.take(k as int),
                    ordered@.len() == n - k,
                    forall|j: int|
                        0 <= j < ordered@.len() ==> #[trigger] ordered@[j] == reversed[n - 1 - j],
                decreases k,
            {
                let atom = match atoms.pop() {
                    Some(atom) => atom,
                    None => {
                        return None;
                    },
                };
                k -= 1;
                assert(atoms@ =~= reversed.take(k as int));
                ordered.push(atom);
            }
            assert(atom_views(ordered@) =~= atoms_of(seq_lits(seq)));
            Some(ordered)
        },
    }
}

/// The lowest quality among the atoms, `i32::MAX` if there is none.
pub open spec fn min_quality(atoms: Seq<AtomView>) -> int
    decreases atoms.len(),
{
    if atoms.len() == 0 {
        i32::MAX as int
    } else {
        let rest = min_quality(atoms.drop_last());
        let last = atom_quality(atoms.last().bytes);
        if last < rest {
            last
        } else {
            rest
        }
    }
}

/// The number of exact atoms.
pub open spec fn count_exact(atoms: Seq<AtomView>) -> nat
    decreases atoms.len(),
{
    if atoms.len() == 0 {
        0
    } else {
        count_exact(atoms.drop_last()) + if atoms.last().exact {
            1nat
        } else {
            0nat
        }
    }
}

/// The number of exact atoms is at most the number of atoms.
pub proof fn lemma_count_exact_bound(atoms: Seq<AtomView>)
    ensures
        count_exact(atoms) <= atoms.len(),
    decreases atoms.len(),
{
    if atoms.len() > 0 {
        lemma_count_exact_bound(atoms.drop_last());
    }
}

/// How good a sequence of literals is as a set of atoms.
#[derive(Clone, Copy, Debug, PartialEq, Eq, Structural)]
pub struct SeqQuality {
    /// The quality of the worst atom.
    pub min_atom_quality: i32,
    /// The number of atoms.
    pub seq_len: usize,
}

impl SeqQuality {
    /// The quality that every other is better than.
    pub fn min() -> (q: SeqQuality)
        ensures
            q == (SeqQuality { min_atom_quality: i32::MIN, seq_len: usize::MAX }),
    {
        SeqQuality { min_atom_quality: i32::MIN, seq_len: usize::MAX }
    }

    /// True if `self` is better than `other`: its worst atom is better, or
    /// as good with fewer atoms.
    pub open spec fn spec_better_than(self, other: SeqQuality) -> bool {
        self.min_atom_quality > other.min_atom_quality || (self.min_atom_quality
            == other.min_atom_quality && self.seq_len < other.seq_len)
    }

    /// Tests whether `self` is better than `other`.
    pub fn better_than(&self, other: &SeqQuality) -> (r: bool)
        ensures
            r == self.spec_better_than(*other),
    {
        self.min_atom_quality > other.min_atom_quality || (self.min_atom_quality
            == other.min_atom_quality && self.seq_len < other.seq_len)
    }
}

/// The quality of a sequence: that of a finite sequence with at least one
/// literal.
pub open spec fn spec_seq_quality(v: SeqView) -> Option<SeqQuality> {
    if v.finite && v.lits.len() > 0 {
        Some(
            SeqQuality {
                min_atom_quality: min_quality(atoms_of(v.lits)) as i32,
                seq_len: v.lits.len() as usize,
            },
        )
    } else {
        None
    }
}

/// Computes the quality of a sequence: the quality of its worst literal
/// taken as an atom, and the number of its literals. An infinite sequence
/// and one without literals have none.
pub fn seq_quality(seq: &regex_syntax::hir::literal::Seq) -> (r: Option<SeqQuality>)
    ensures
        r == spec_seq_quality(seq_view(*seq)),
{
    match seq_literals(seq) {
        None => None,
        Some(lits) => {
            let n = lits.len();
            if n == 0 {
                return None;
            }
            let ghost atoms = atoms_of(seq_lits(*seq));
            let mut lowest: i32 = i32::MAX;
            let mut i: usize = 0;
            while i < n
                invariant
                    i <= n,
                    n == lits@.len(),
                    lits_view(lits@) == seq_lits(*seq),
                    atoms == atoms_of(seq_lits(*seq)),
                    lowest == min_quality(atoms.take(i as int)),
                decreases n - i,
            {
                let bytes = lits[i].bytes.as_slice();
                let q = quality_of_range(bytes, 0, bytes.len());
                proof {
                    assert(bytes@.subrange(0, bytes@.len() as int) =~= bytes@);
                    assert(lits_view(lits@)[i as int] == lits@[i as int]@);
                    assert(atoms.take(i + 1).drop_last() =~= atoms.take(i as int));
                    assert(atoms.take(i + 1).last().bytes == bytes@);
                }
                if q < lowest {
                    lowest = q;
                }
                i += 1;
            }
            proof {
                assert(atoms.take(n as int) =~= atoms);
            }
            Some(SeqQuality { min_atom_quality: lowest, seq_len: n })
        },
    }
}

/// True if no further sequence is crossed into the literals `acc`: the
/// next sequence `v` is infinite, the cross product could have more than
/// `MAX_ATOMS_PER_REGEXP` literals, `v` is the last that would be taken and
/// is made of 256 literals of one byte at most, or `acc` has no exact
/// literal left.
pub open spec fn crossing_stops(acc: Seq<(Seq<u8>, bool)>, v: SeqView, is_last: bool) -> bool {
    ||| !v.finite
    ||| saturating_product(acc.len(), v.lits.len()) > MAX_ATOMS_PER_REGEXP
    ||| (is_last && v.lits.len() == 256 && max_len(v.lits) == 1)
    ||| all_inexact(acc)
}

/// The cross product of `acc` with the sequences from index `k` on, up to
/// index `take` or to the first at which crossing stops; with it the index
/// at which it ended.
pub open spec fn cross_from(
    views: Seq<SeqView>,
    acc: Seq<(Seq<u8>, bool)>,
    k: int,
    take: int,
) -> (Seq<(Seq<u8>, bool)>, int)
    decreases take - k,
{
    if k >= take || crossing_stops(acc, views[k], k + 1 == take) {
        (acc, k)
    } else {
        cross_from(views, crossed(acc, views[k].lits), k + 1, take)
    }
}

/// The number of sequences that `concat_seq` looks at: all of them, and at
/// most `DESIRED_ATOM_SIZE`.
pub open spec fn taken(views: Seq<SeqView>) -> int {
    if views.len() < DESIRED_ATOM_SIZE {
        views.len() as int
    } else {
        DESIRED_ATOM_SIZE as int
    }
}

/// True if the first sequence makes the concatenation useless: it is
/// infinite, or made of 256 literals of one byte at most.
pub open spec fn first_is_useless(views: Seq<SeqView>) -> bool {
    views.len() > 0 && (!views[0].finite || (views[0].lits.len() == 256 && max_len(views[0].lits)
        <= 1))
}

/// What `concat_seq` returns for the given sequences.
pub open spec fn spec_concat_seq(views: Seq<SeqView>) -> Option<SeqView> {
    if first_is_useless(views) {
        None
    } else {
        let (acc, added) = cross_from(views, seq![(Seq::<u8>::empty(), true)], 0, taken(views));
        let marked = if added < views.len() {
            made_inexact(acc)
        } else {
            acc
        };
        Some(
            simplified(
                SeqView { finite: true, lits: merged(kept_first(marked, DESIRED_ATOM_SIZE as int)) },
            ),
        )
    }
}

/// The literals that begin a match of the sequences one after the other:
/// the cross product of the first sequences, at most `DESIRED_ATOM_SIZE` of
/// them, cut to `DESIRED_ATOM_SIZE` bytes, merged and simplified. The
/// result is inexact where a sequence was left out. Nothing is returned
/// where the first sequence is infinite or made of 256 literals of one byte
/// at most.
pub fn concat_seq(seqs: &[regex_syntax::hir::literal::Seq]) -> (r: Option<
    regex_syntax::hir::literal::Seq,
>)
    ensures
        r is Some <==> spec_concat_seq(seq_views(seqs@)) is Some,
        r matches Some(s) ==> Some(seq_view(s)) == spec_concat_seq(seq_views(seqs@)),
        r matches Some(s) ==> seq_view(s).finite && seq_view(s).lits.len() <= MAX_ATOMS_PER_REGEXP,
{
    let ghost views = seq_views(seqs@);
    let n = seqs.len();
    if n > 0 {
        assert(views[0] == seq_view(seqs@[0]));
        match seq_len(&seqs[0]) {
            None => {
                return None;
            },
            Some(len) => {
                if len == 256 {
                    match seq_max_literal_len(&seqs[0]) {
                        Some(longest) => {
                            if longest <= 1 {
                                return None;
                            }
                        },
                        None => {
                            return None;
                        },
                    }
                }
            },
        }
    }
    let take = if n < DESIRED_ATOM_SIZE {
        n
    } else {
        DESIRED_ATOM_SIZE
    };
    let mut result = seq_singleton_exact(Vec::new());
    let ghost start = seq_lits(result);
    assert(start =~= seq![(Seq::<u8>::empty(), true)]);
    let mut added: usize = 0;
    let mut stopped = false;
    while added < take && !stopped
        invariant
            added <= take <= n,
            n == seqs@.len(),
            views == seq_views(seqs@),
            take == taken(views),
            seq_finite(result),
            seq_lits(result).len() <= MAX_ATOMS_PER_REGEXP,
            cross_from(views, seq_lits(result), added as int, take as int) == cross_from(
                views,
                start,
                0,
                take as int,
            ),
            stopped ==> added < take && crossing_stops(
                seq_lits(result),
                views[added as int],
                added + 1 == take,
            ),
        decreases take - added + if stopped { 0int } else { 1int },
    {
        let seq = &seqs[added];
        assert(views[added as int] == seq_view(seqs@[added as int]));
        let too_many = match seq_max_cross_len(&result, seq) {
            None => true,
            Some(len) => len > MAX_ATOMS_PER_REGEXP,
        };
        if too_many {
            stopped = true;
        } else {
            let trailing = if added + 1 == take {
                match seq_len(seq) {
                    Some(len) => len == 256 && match seq_max_literal_len(seq) {
                        Some(longest) => longest == 1,
                        None => false,
                    },
                    None => false,
                }
            } else {
                false
            };
            if trailing || seq_is_inexact(&result) {
                stopped = true;
            } else {
                proof {
                    lemma_crossed_len(seq_lits(result), seq_lits(*seq));
                }
                seq_cross_forward(&mut result, seq);
                added += 1;
            }
        }
    }
    assert(cross_from(views, start, 0, take as int) == (seq_lits(result), added as int));
    if added < n {
        seq_make_inexact(&mut result);
    }
    seq_keep_first_bytes(&mut result, DESIRED_ATOM_SIZE);
    proof {
        lemma_merged_len(seq_lits(result));
    }
    seq_dedup(&mut result);
    Some(simplify_seq(result))
}

/// Runs the literal extractor on an expression, under the limits of this
/// compiler.
pub fn extract_literals(h: &Expr) -> (r: regex_syntax::hir::literal::Seq)
    ensures
        seq_view(r) == expr_literals(*h),
        seq_view(r).finite ==> seq_view(r).lits.len() <= LIMIT_TOTAL,
{
    extract_with_limits(h, LIMIT_CLASS, LIMIT_TOTAL, DESIRED_ATOM_SIZE, DESIRED_ATOM_SIZE)
}

} // verus!
