//! Building graph nodes from a regex.

use vstd::prelude::*;

use utf8_ranges::Utf8Sequences;

use super::fork::Fork;
use super::mir::{lemma_mir_views, mir_views, Mir, MirView};
use super::range::Range;
use super::rope::{Miss, Pattern, Rope};
use super::{combined, forks_mergeable, grows, merge_outcome, Disambiguate, Graph, GraphError, Node, NodeId, NodeView};
use super::rope::RopeView;
use super::fork::ForkView;
use crate::error::Error;
use crate::syntax::{parse_regex, regex_syntax_parse, CharClass, CharClassView, Symbol, Syntax, SyntaxView};
use super::mir::lower;

verus! {

broadcast use vstd::std_specs::vec::group_vec_axioms;

/// The UTF-8 encoding of a scalar value.
pub open spec fn utf8_bytes(c: char) -> Seq<u8> {
    let x = c as u32;
    if x < 0x80 {
        seq![x as u8]
    } else if x < 0x800 {
        seq![(0xC0 | (x >> 6)) as u8, (0x80 | (x & 0x3F)) as u8]
    } else if x < 0x10000 {
        seq![(0xE0 | (x >> 12)) as u8, (0x80 | ((x >> 6) & 0x3F)) as u8, (0x80 | (x & 0x3F)) as u8]
    } else {
        seq![
            (0xF0 | (x >> 18)) as u8,
            (0x80 | ((x >> 12) & 0x3F)) as u8,
            (0x80 | ((x >> 6) & 0x3F)) as u8,
            (0x80 | (x & 0x3F)) as u8,
        ]
    }
}

/// Encode a scalar value as UTF-8.
pub fn encode_utf8(c: char) -> (r: Vec<u8>)
    ensures
        r@ == utf8_bytes(c),
{
    let x = c as u32;
    let r = if x < 0x80 {
        vec![x as u8]
    } else if x < 0x800 {
        vec![(0xC0 | (x >> 6)) as u8, (0x80 | (x & 0x3F)) as u8]
    } else if x < 0x10000 {
        vec![(0xE0 | (x >> 12)) as u8, (0x80 | ((x >> 6) & 0x3F)) as u8, (0x80 | (x & 0x3F)) as u8]
    } else {
        vec![
            (0xF0 | (x >> 18)) as u8,
            (0x80 | ((x >> 12) & 0x3F)) as u8,
            (0x80 | ((x >> 6) & 0x3F)) as u8,
            (0x80 | (x & 0x3F)) as u8,
        ]
    };
    proof {
        assert(r@ =~= utf8_bytes(c));
    }
    r
}

/// A number capped at `usize::MAX`.
pub open spec fn clamp(x: int) -> int {
    if x > usize::MAX {
        usize::MAX as int
    } else {
        x
    }
}

/// A range of one byte weighs 2, a wider one 1.
pub open spec fn range_weight(r: Range) -> int {
    if r.0 == r.1 {
        2
    } else {
        1
    }
}

/// The priority of a run of ranges: the sum of their weights.
pub open spec fn priority(p: Seq<Range>) -> int
    decreases p.len(),
{
    if p.len() == 0 {
        0
    } else {
        priority(p.drop_last()) + range_weight(p.last())
    }
}

/// The priority of a run of ranges, capped at `usize::MAX`.
pub fn priority_of(p: &[Range]) -> (r: usize)
    ensures
        r == clamp(priority(p@)),
{
    let mut total: usize = 0;
    let mut i: usize = 0;
    while i < p.len()
        invariant
            i <= p@.len(),
            total == clamp(priority(p@.take(i as int))),
        decreases p@.len() - i,
    {
        proof {
            assert(p@.take(i + 1).drop_last() == p@.take(i as int));
        }
        let w: usize = if p[i].0 == p[i].1 { 2 } else { 1 };
        total = total.saturating_add(w);
        i = i + 1;
    }
    proof {
        assert(p@.take(p@.len() as int) == p@);
    }
    total
}

/// A class range that stands for one byte range: its start is ASCII and
/// its end is ASCII or the last scalar value.
pub open spec fn one_ascii(r: (char, char)) -> bool {
    &&& (r.0 as u32) < 128
    &&& (r.1 as u32) < 128 || r.1 as u32 == 0x10FFFF
}

/// The byte range an ASCII class range stands for; the last scalar value
/// stands for 255.
pub open spec fn ascii_range(r: (char, char)) -> Range {
    Range(r.0 as u32 as u8, if (r.1 as u32) < 128 { r.1 as u32 as u8 } else { 255u8 })
}

fn to_ascii_range(r: (char, char)) -> (out: Range)
    ensures
        out == ascii_range(r),
{
    let end: u8 = if (r.1 as u32) < 128 { r.1 as u32 as u8 } else { 255u8 };
    Range(r.0 as u32 as u8, end)
}

/// Every range of the class is ASCII in the sense of `one_ascii`.
pub open spec fn ascii_class(rs: Seq<(char, char)>) -> bool {
    forall|i: int| 0 <= i < rs.len() ==> one_ascii(#[trigger] rs[i])
}

/// A class fork's priority: 2 when every range is one byte, 1 otherwise.
pub open spec fn class_len(rs: Seq<Range>) -> int {
    if forall|i: int| 0 <= i < rs.len() ==> (#[trigger] rs[i]).0 == rs[i].1 {
        2
    } else {
        1
    }
}

/// What `utf8_ranges` gives for the scalar values `start..=end`: the
/// sequences of byte ranges whose UTF-8 encodings cover them, in order.
pub uninterp spec fn utf8_sequences_of(start: char, end: char) -> Seq<Seq<Range>>;

/// Collects `utf8_ranges::Utf8Sequences::new(start, end)`, each sequence
/// as its ranges. Claimed: the result is what `utf8_sequences_of` names,
/// and every sequence has one to four ranges, as `Utf8Sequence` has one
/// variant for each of these lengths.
#[verifier::external_body]
fn utf8_sequences(start: char, end: char) -> (r: Vec<Vec<Range>>)
    ensures
        r@.len() == utf8_sequences_of(start, end).len(),
        forall|i: int| 0 <= i < r@.len() ==> #[trigger] r@[i]@ == utf8_sequences_of(start, end)[i],
        forall|i: int| 0 <= i < r@.len() ==> 1 <= (#[trigger] r@[i]@).len() <= 4,
{
    Utf8Sequences::new(start, end).map(|s| s.as_slice().iter().map(|b| Range(b.start, b.end)).collect()).collect()
}

/// All the sequences for the ranges of a class, range after range.
pub open spec fn class_sequences(rs: Seq<(char, char)>) -> Seq<Seq<Range>>
    decreases rs.len(),
{
    if rs.len() == 0 {
        Seq::empty()
    } else {
        class_sequences(rs.drop_last()) + utf8_sequences_of(rs.last().0, rs.last().1)
    }
}

/// The least priority among the sequences, `usize::MAX` when there are none.
pub open spec fn least_priority(q: Seq<Seq<Range>>) -> int
    decreases q.len(),
{
    if q.len() == 0 {
        usize::MAX as int
    } else {
        let p = priority(q.last());
        let rest = least_priority(q.drop_last());
        if p < rest {
            p
        } else {
            rest
        }
    }
}

/// The least priority of some sequences is no more than the priority of
/// each of them, and is the priority of one of them when there is any
/// and they weigh less than `usize::MAX`.
pub proof fn law_least_priority(q: Seq<Seq<Range>>)
    ensures
        forall|i: int| 0 <= i < q.len() ==> least_priority(q) <= priority(#[trigger] q[i]),
        q.len() > 0 && (forall|i: int| 0 <= i < q.len() ==> priority(#[trigger] q[i]) < usize::MAX) ==> exists|i: int|
            0 <= i < q.len() && least_priority(q) == priority(#[trigger] q[i]),
    decreases q.len(),
{
    if q.len() > 0 {
        let d = q.drop_last();
        law_least_priority(d);
        assert forall|i: int| 0 <= i < q.len() implies least_priority(q) <= priority(#[trigger] q[i]) by {
            if i < q.len() - 1 {
                assert(d[i] == q[i]);
            }
        }
        if q.len() > 0 && (forall|i: int| 0 <= i < q.len() ==> priority(#[trigger] q[i]) < usize::MAX) {
            assert(forall|i: int| 0 <= i < d.len() ==> priority(#[trigger] d[i]) < usize::MAX) by {
                assert forall|i: int| 0 <= i < d.len() implies priority(#[trigger] d[i]) < usize::MAX by {
                    assert(d[i] == q[i]);
                }
            }
            assert(priority(q[q.len() - 1]) < usize::MAX);
            if priority(q.last()) < least_priority(d) || d.len() == 0 {
                assert(least_priority(q) == priority(q[q.len() - 1]));
            } else {
                let i = choose|i: int| 0 <= i < d.len() && least_priority(d) == priority(#[trigger] d[i]);
                assert(d[i] == q[i]);
                assert(least_priority(q) == priority(q[i]));
            }
        }
    }
}

/// A class reaching past ASCII weighs as little as the lightest of its
/// UTF-8 byte sequences: no more than any of them, and as much as one of
/// them.
pub proof fn law_utf8_class_priority(rs: Seq<(char, char)>)
    requires
        !ascii_class(rs),
    ensures
        forall|i: int|
            0 <= i < class_sequences(rs).len() ==> mir_len(MirView::Class(CharClassView::Unicode(rs))) <= priority(
                #[trigger] class_sequences(rs)[i],
            ),
        class_sequences(rs).len() > 0 && (forall|i: int|
            0 <= i < class_sequences(rs).len() ==> priority(#[trigger] class_sequences(rs)[i]) < usize::MAX) ==> exists|i: int|
            0 <= i < class_sequences(rs).len() && mir_len(MirView::Class(CharClassView::Unicode(rs))) == priority(
                #[trigger] class_sequences(rs)[i],
            ),
{
    law_least_priority(class_sequences(rs));
}

/// A class of bytes weighs 2 when every one of its ranges is a single
/// byte, however many ranges it has, and 1 when one of them is wider.
pub proof fn law_byte_class_priority(rs: Seq<(u8, u8)>)
    ensures
        (forall|i: int| 0 <= i < rs.len() ==> (#[trigger] rs[i]).0 == rs[i].1) ==> mir_len(MirView::Class(CharClassView::Bytes(rs))) == 2,
        (exists|i: int| 0 <= i < rs.len() && (#[trigger] rs[i]).0 != rs[i].1) ==> mir_len(MirView::Class(CharClassView::Bytes(rs))) == 1,
{
    let m = rs.map_values(|r: (u8, u8)| Range(r.0, r.1));
    assert forall|i: int| 0 <= i < rs.len() implies #[trigger] m[i] == Range(rs[i].0, rs[i].1) by {}
    if exists|i: int| 0 <= i < rs.len() && (#[trigger] rs[i]).0 != rs[i].1 {
        let i = choose|i: int| 0 <= i < rs.len() && (#[trigger] rs[i]).0 != rs[i].1;
        assert(m[i].0 != m[i].1);
    }
}

/// A class of ASCII characters weighs 2 when every one of its ranges is a
/// single character, however many ranges it has, and 1 when one of them
/// is wider.
pub proof fn law_ascii_class_priority(rs: Seq<(char, char)>)
    requires
        forall|i: int| 0 <= i < rs.len() ==> ((#[trigger] rs[i]).0 as u32) < 128 && (rs[i].1 as u32) < 128,
    ensures
        (forall|i: int| 0 <= i < rs.len() ==> (#[trigger] rs[i]).0 == rs[i].1) ==> mir_len(MirView::Class(CharClassView::Unicode(rs))) == 2,
        (exists|i: int| 0 <= i < rs.len() && ((#[trigger] rs[i]).0 as u32) != (rs[i].1 as u32)) ==> mir_len(
            MirView::Class(CharClassView::Unicode(rs)),
        ) == 1,
{
    assert(ascii_class(rs));
    let m = rs.map_values(|r: (char, char)| ascii_range(r));
    assert forall|i: int| 0 <= i < rs.len() implies #[trigger] m[i] == ascii_range(rs[i]) by {}
    if exists|i: int| 0 <= i < rs.len() && ((#[trigger] rs[i]).0 as u32) != (rs[i].1 as u32) {
        let i = choose|i: int| 0 <= i < rs.len() && ((#[trigger] rs[i]).0 as u32) != (rs[i].1 as u32);
        assert(m[i].0 != m[i].1);
    }
}

/// The byte ranges a member of a concatenation is folded into a rope as,
/// if it is a literal, an ASCII class of one range, or a byte class of one
/// range.
pub open spec fn byte_ranges(m: MirView) -> Option<Seq<Range>> {
    match m {
        MirView::Literal(Symbol::Unicode(c)) => Some(utf8_bytes(c).map_values(|b: u8| Range(b, b))),
        MirView::Literal(Symbol::Byte(b)) => Some(seq![Range(b, b)]),
        MirView::Class(CharClassView::Unicode(rs)) => if rs.len() == 1 && one_ascii(rs[0]) {
            Some(seq![ascii_range(rs[0])])
        } else {
            None
        },
        MirView::Class(CharClassView::Bytes(rs)) => if rs.len() == 1 {
            Some(seq![Range(rs[0].0, rs[0].1)])
        } else {
            None
        },
        _ => None,
    }
}

/// The priority of what a regex matches: twice its length in bytes where
/// every byte is fixed, less where a byte may vary. A concatenation sums
/// its members, an alternation takes the least of its members, and
/// anything that may be skipped counts nothing.
pub open spec fn mir_len(m: MirView) -> int
    decreases m,
{
    match m {
        MirView::Empty => 0,
        MirView::Loop(_) => 0,
        MirView::Maybe(_) => 0,
        MirView::Concat(s) => sum_len(s),
        MirView::Alternation(s) => if s.len() == 0 {
            0
        } else {
            least_len(s)
        },
        MirView::Literal(Symbol::Unicode(c)) => 2 * utf8_bytes(c).len() as int,
        MirView::Literal(Symbol::Byte(_)) => 2,
        MirView::Class(CharClassView::Unicode(rs)) => if ascii_class(rs) {
            class_len(rs.map_values(|r: (char, char)| ascii_range(r)))
        } else {
            least_priority(class_sequences(rs))
        },
        MirView::Class(CharClassView::Bytes(rs)) => class_len(rs.map_values(|r: (u8, u8)| Range(r.0, r.1))),
    }
}

/// The sum of the priorities of a sequence of regexes.
pub open spec fn sum_len(s: Seq<MirView>) -> int
    decreases s,
{
    if s.len() == 0 {
        0
    } else {
        sum_len(s.drop_last()) + mir_len(s.last())
    }
}

/// The least priority of a non-empty sequence of regexes.
pub open spec fn least_len(s: Seq<MirView>) -> int
    decreases s,
{
    if s.len() == 0 {
        0
    } else if s.len() == 1 {
        mir_len(s.last())
    } else {
        let p = mir_len(s.last());
        let rest = least_len(s.drop_last());
        if p < rest {
            p
        } else {
            rest
        }
    }
}

/// Priorities are never negative.
pub proof fn lemma_priority_nonneg(p: Seq<Range>)
    ensures
        priority(p) >= 0,
    decreases p.len(),
{
    if p.len() > 0 {
        lemma_priority_nonneg(p.drop_last());
    }
}

proof fn lemma_least_priority_nonneg(q: Seq<Seq<Range>>)
    ensures
        least_priority(q) >= 0,
    decreases q.len(),
{
    if q.len() > 0 {
        lemma_priority_nonneg(q.last());
        lemma_least_priority_nonneg(q.drop_last());
    }
}

/// The priority of a regex is never negative.
pub proof fn lemma_mir_len_nonneg(m: MirView)
    ensures
        mir_len(m) >= 0,
    decreases m,
{
    match m {
        MirView::Concat(s) => lemma_sum_len_nonneg(s),
        MirView::Alternation(s) => lemma_least_len_nonneg(s),
        MirView::Class(CharClassView::Unicode(rs)) => lemma_least_priority_nonneg(class_sequences(rs)),
        _ => {},
    }
}

proof fn lemma_sum_len_nonneg(s: Seq<MirView>)
    ensures
        sum_len(s) >= 0,
    decreases s,
{
    if s.len() > 0 {
        lemma_sum_len_nonneg(s.drop_last());
        lemma_mir_len_nonneg(s.last());
    }
}

proof fn lemma_least_len_nonneg(s: Seq<MirView>)
    ensures
        least_len(s) >= 0,
    decreases s,
{
    if s.len() > 0 {
        lemma_mir_len_nonneg(s.last());
        if s.len() > 1 {
            lemma_least_len_nonneg(s.drop_last());
        }
    }
}

/// The graph grew from `old`; on success the node returned is in the
/// graph and the priority returned is that of `m`, capped.
pub open spec fn built<L>(old: Seq<Option<NodeView<L>>>, g: &Graph<L>, m: MirView, r: Result<(usize, NodeId), GraphError>) -> bool {
    &&& grows(g@, old)
    &&& (r matches Ok((len, id)) ==> g.has(id) && len == clamp(mir_len(m)))
}

/// An empty fork missing to `miss`.
fn empty_fork<L>(graph: &Graph<L>, miss: Option<NodeId>) -> (r: Fork)
    requires
        miss matches Some(m) ==> graph.has(m),
    ensures
        r@.lut == Seq::new(256, |i: int| None::<NodeId>),
        r@.miss == miss,
        graph.fits(NodeView::Fork(r@)),
{
    let r = Fork::new().miss(miss);
    proof {
        assert forall|x: NodeId| #[trigger] NodeView::<L>::Fork(r@).points_to(x) implies graph.has(x) by {
            if r@.miss != Some(x) {
                let b = choose|b: int| 0 <= b < 256 && #[trigger] r@.lut[b] == Some(x);
            }
        }
    }
    r
}

/// The ranges in reverse order.
fn reversed(v: &Vec<Range>) -> (r: Vec<Range>)
    ensures
        r@.len() == v@.len(),
        forall|i: int| 0 <= i < v@.len() ==> #[trigger] r@[i] == v@[v@.len() - 1 - i],
{
    let mut out: Vec<Range> = Vec::new();
    let mut k: usize = v.len();
    while k > 0
        invariant
            k <= v@.len(),
            out@.len() == v@.len() - k,
            forall|i: int| 0 <= i < out@.len() ==> #[trigger] out@[i] == v@[v@.len() - 1 - i],
        decreases k,
    {
        k = k - 1;
        out.push(v[k]);
    }
    out
}

fn is_one_ascii(r: (char, char)) -> (b: bool)
    ensures
        b == one_ascii(r),
{
    (r.0 as u32) < 128 && ((r.1 as u32) < 128 || r.1 as u32 == 0x10FFFF)
}

fn is_ascii(rs: &Vec<(char, char)>) -> (b: bool)
    ensures
        b == ascii_class(rs@),
{
    let mut i: usize = 0;
    while i < rs.len()
        invariant
            i <= rs@.len(),
            forall|k: int| 0 <= k < i ==> one_ascii(#[trigger] rs@[k]),
        decreases rs@.len() - i,
    {
        if !is_one_ascii(rs[i]) {
            return false;
        }
        i = i + 1;
    }
    true
}

/// Append the byte ranges of `m`, last first, if it folds into a rope.
fn fold_bytes(m: &Mir, run: &mut Vec<Range>) -> (r: bool)
    ensures
        r == byte_ranges(m@) is Some,
        r ==> final(run)@ == old(run)@ + byte_ranges(m@)->Some_0.reverse(),
        r ==> final(run)@.len() > old(run)@.len() && priority(final(run)@) == priority(old(run)@) + mir_len(m@),
        !r ==> final(run)@ == old(run)@,
{
    match m {
        Mir::Literal(Symbol::Unicode(c)) => {
            let bytes = encode_utf8(*c);
            let ghost run0 = run@;
            let mut k: usize = bytes.len();
            while k > 0
                invariant
                    k <= bytes@.len(),
                    bytes@ == utf8_bytes(*c),
                    run@.len() == run0.len() + (bytes@.len() - k),
                    run@.subrange(0, run0.len() as int) == run0,
                    forall|j: int| 0 <= j < bytes@.len() - k ==> #[trigger] run@[run0.len() + j] == Range(bytes@[bytes@.len() - 1 - j], bytes@[bytes@.len() - 1 - j]),
                    priority(run@) == priority(run0) + 2 * (bytes@.len() - k),
                decreases k,
            {
                k = k - 1;
                let ghost before = run@;
                run.push(Range(bytes[k], bytes[k]));
                proof {
                    assert(run@.drop_last() == before);
                    assert(run@.subrange(0, run0.len() as int) =~= before.subrange(0, run0.len() as int));
                }
            }
            proof {
                let mapped = utf8_bytes(*c).map_values(|b: u8| Range(b, b));
                let n = bytes@.len() as int;
                assert(mapped.len() == n);
                assert(mapped.reverse().len() == n);
                assert(run@ =~= run0 + mapped.reverse()) by {
                    assert forall|j: int| 0 <= j < run0.len() implies run@[j] == run0[j] by {
                        assert(run@.subrange(0, run0.len() as int)[j] == run@[j]);
                    }
                    assert forall|j: int| 0 <= j < n implies #[trigger] run@[run0.len() + j] == mapped.reverse()[j] by {
                        assert(mapped.reverse()[j] == mapped[n - 1 - j]);
                        assert(mapped[n - 1 - j] == Range(bytes@[n - 1 - j], bytes@[n - 1 - j]));
                    }
                    assert forall|j: int| 0 <= j < run@.len() implies run@[j] == (run0 + mapped.reverse())[j] by {
                        if j >= run0.len() {
                            assert(run@[run0.len() + (j - run0.len())] == mapped.reverse()[j - run0.len()]);
                        }
                    }
                }
            }
            true
        },
        Mir::Literal(Symbol::Byte(b)) => {
            let ghost before = run@;
            run.push(Range(*b, *b));
            proof {
                assert(run@.drop_last() == before);
            }
            true
        },
        Mir::Class(CharClass::Unicode(rs)) => {
            if rs.len() == 1 && is_one_ascii(rs[0]) {
                let ghost before = run@;
                run.push(to_ascii_range(rs[0]));
                proof {
                    assert(run@.drop_last() == before);
                    assert(ascii_class(rs@));
                    let mapped = rs@.map_values(|r: (char, char)| ascii_range(r));
                    assert(mapped.len() == 1 && mapped[0] == ascii_range(rs@[0]));
                }
                true
            } else {
                false
            }
        },
        Mir::Class(CharClass::Bytes(rs)) => {
            if rs.len() == 1 {
                let ghost before = run@;
                run.push(Range(rs[0].0, rs[0].1));
                proof {
                    assert(run@.drop_last() == before);
                    let mapped = rs@.map_values(|r: (u8, u8)| Range(r.0, r.1));
                    assert(mapped.len() == 1 && mapped[0] == Range(rs@[0].0, rs@[0].1));
                }
                true
            } else {
                false
            }
        },
        _ => false,
    }
}

/// Whether `b` is in the first range of one of the sequences.
pub open spec fn first_covered(qs: Seq<Seq<Range>>, b: int) -> bool {
    exists|k: int| 0 <= k < qs.len() && (#[trigger] qs[k]).len() > 0 && qs[k][0].0 <= b <= qs[k][0].1
}

/// One more sequence covers its own first range besides those before it.
proof fn lemma_first_covered_push(qs: Seq<Seq<Range>>, x: Seq<Range>, b: int)
    ensures
        first_covered(qs.push(x), b) <==> (first_covered(qs, b) || (x.len() > 0 && x[0].0 <= b <= x[0].1)),
{
    let q2 = qs.push(x);
    if first_covered(qs, b) {
        let k = choose|k: int| 0 <= k < qs.len() && (#[trigger] qs[k]).len() > 0 && qs[k][0].0 <= b <= qs[k][0].1;
        assert(q2[k] == qs[k]);
    }
    if x.len() > 0 && x[0].0 <= b <= x[0].1 {
        assert(q2[qs.len() as int] == x);
    }
    if first_covered(q2, b) {
        let k = choose|k: int| 0 <= k < q2.len() && (#[trigger] q2[k]).len() > 0 && q2[k][0].0 <= b <= q2[k][0].1;
        if k < qs.len() {
            assert(q2[k] == qs[k]);
        }
    }
}

/// The bytes of a literal.
pub open spec fn symbol_bytes(l: Symbol) -> Seq<u8> {
    match l {
        Symbol::Unicode(c) => utf8_bytes(c),
        Symbol::Byte(b) => seq![b],
    }
}

/// A range for each byte of a literal.
pub open spec fn literal_ranges(l: Symbol) -> Seq<Range> {
    symbol_bytes(l).map_values(|b: u8| Range(b, b))
}

/// Where a rope's first byte misses to, from an optional id.
pub open spec fn miss_of(miss: Option<NodeId>) -> Miss {
    match miss {
        Some(id) => Miss::First(id),
        None => Miss::Fail,
    }
}

/// The rope `parse_literal` pushes.
pub open spec fn literal_rope(l: Symbol, then: NodeId, miss: Option<NodeId>) -> RopeView {
    RopeView { pattern: literal_ranges(l), target: then, miss: miss_of(miss) }
}

/// Whether every member of a concatenation folds into a rope.
pub open spec fn all_bytes(s: Seq<MirView>) -> bool {
    forall|i: int| 0 <= i < s.len() ==> (#[trigger] byte_ranges(s[i])) is Some
}

/// The byte ranges of the members of a concatenation, in order, each
/// member that folds into a rope giving its own.
pub open spec fn concat_ranges(s: Seq<MirView>) -> Seq<Range>
    decreases s.len(),
{
    if s.len() == 0 {
        Seq::empty()
    } else {
        let first = match byte_ranges(s[0]) {
            Some(rs) => rs,
            None => Seq::empty(),
        };
        first + concat_ranges(s.drop_first())
    }
}

/// Reversing a sum reverses and swaps its parts.
proof fn lemma_reverse_add<A>(a: Seq<A>, b: Seq<A>)
    ensures
        (a + b).reverse() == b.reverse() + a.reverse(),
{
    let s = a + b;
    assert(s.reverse().len() == s.len());
    assert(b.reverse().len() == b.len());
    assert(a.reverse().len() == a.len());
    assert forall|i: int| 0 <= i < s.len() implies #[trigger] s.reverse()[i] == (b.reverse() + a.reverse())[i] by {
        if i < b.len() {
            assert(b.reverse()[i] == b[b.len() - 1 - i]);
        } else {
            assert(a.reverse()[i - b.len()] == a[a.len() - 1 - (i - b.len())]);
        }
    }
    assert(s.reverse() =~= b.reverse() + a.reverse());
}

/// Reversing twice gives the sequence back.
proof fn lemma_reverse_reverse<A>(a: Seq<A>)
    ensures
        a.reverse().reverse() == a,
{
    assert(a.reverse().len() == a.len());
    assert(a.reverse().reverse().len() == a.len());
    assert forall|i: int| 0 <= i < a.len() implies #[trigger] a.reverse().reverse()[i] == a[i] by {
        assert(a.reverse()[a.len() - 1 - i] == a[i]);
    }
    assert(a.reverse().reverse() =~= a);
}

/// The ranges of the members from `k - 1` on are those of member `k - 1`
/// followed by those from `k` on.
proof fn lemma_concat_ranges_step(s: Seq<MirView>, k: int)
    requires
        1 <= k <= s.len(),
        byte_ranges(s[k - 1]) is Some,
    ensures
        concat_ranges(s.subrange(k - 1, s.len() as int)) == byte_ranges(s[k - 1])->Some_0 + concat_ranges(s.subrange(k, s.len() as int)),
{
    let t = s.subrange(k - 1, s.len() as int);
    assert(t[0] == s[k - 1]);
    assert(t.drop_first() =~= s.subrange(k, s.len() as int));
}

/// The byte ranges of a class that is built as one fork: a byte class,
/// or a Unicode class within ASCII.
pub open spec fn class_ranges(m: MirView) -> Option<Seq<Range>> {
    match m {
        MirView::Class(CharClassView::Bytes(rs)) => Some(rs.map_values(|p: (u8, u8)| Range(p.0, p.1))),
        MirView::Class(CharClassView::Unicode(rs)) => if ascii_class(rs) {
            Some(rs.map_values(|p: (char, char)| ascii_range(p)))
        } else {
            None
        },
        _ => None,
    }
}

/// The byte ranges an alternative is built as when it takes a single
/// byte: a literal of one byte, or a class built as one fork.
pub open spec fn one_byte_ranges(m: MirView) -> Option<Seq<Range>> {
    match m {
        MirView::Literal(l) => if symbol_bytes(l).len() == 1 {
            Some(literal_ranges(l))
        } else {
            None
        },
        _ => class_ranges(m),
    }
}

/// Whether every alternative takes a single byte.
pub open spec fn all_one_byte(s: Seq<MirView>) -> bool {
    forall|i: int| 0 <= i < s.len() ==> (#[trigger] one_byte_ranges(s[i])) is Some
}

/// Whether byte `b` starts one of the single-byte alternatives.
pub open spec fn alt_covers(s: Seq<MirView>, b: int) -> bool {
    exists|i: int| 0 <= i < s.len() && crate::generator::in_ranges((#[trigger] one_byte_ranges(s[i]))->Some_0, b)
}

/// One more alternative covers its own bytes besides those before it.
proof fn lemma_alt_covers_push(s: Seq<MirView>, x: MirView, b: int)
    ensures
        alt_covers(s.push(x), b) <==> (alt_covers(s, b) || crate::generator::in_ranges(one_byte_ranges(x)->Some_0, b)),
{
    let t = s.push(x);
    if alt_covers(s, b) {
        let k = choose|k: int| 0 <= k < s.len() && crate::generator::in_ranges((#[trigger] one_byte_ranges(s[k]))->Some_0, b);
        assert(t[k] == s[k]);
    }
    if crate::generator::in_ranges(one_byte_ranges(x)->Some_0, b) {
        assert(t[s.len() as int] == x);
    }
    if alt_covers(t, b) {
        let k = choose|k: int| 0 <= k < t.len() && crate::generator::in_ranges((#[trigger] one_byte_ranges(t[k]))->Some_0, b);
        if k < s.len() {
            assert(t[k] == s[k]);
        }
    }
}

/// The fork of single-byte alternatives: each covered byte goes to `then`.
pub open spec fn alternation_fork(s: Seq<MirView>, then: NodeId, miss: Option<NodeId>) -> ForkView {
    ForkView { lut: Seq::new(256, |b: int| if alt_covers(s, b) { Some(then) } else { None }), miss }
}

/// Whether building `m` never merges two nodes, when it is handed a miss
/// (`with_miss`) or not: literals, byte or ASCII classes, concatenations
/// of such parts, and options and repetitions of them that are not
/// themselves handed a miss. An alternation or a class beyond ASCII may
/// need merges.
pub open spec fn merge_free(m: MirView, with_miss: bool) -> bool
    decreases m,
{
    match m {
        MirView::Empty => true,
        MirView::Literal(_) => true,
        MirView::Class(_) => class_ranges(m) is Some,
        MirView::Concat(s) => merge_free_seq(s, with_miss),
        MirView::Maybe(inner) => !with_miss && merge_free(*inner, true),
        MirView::Loop(inner) => !with_miss && merge_free(*inner, true) && builds_node(*inner),
        MirView::Alternation(_) => false,
    }
}

/// Whether every member of a concatenation is merge-free, the first one
/// handed the miss of the whole (`first_miss`) and the others none; a
/// member folded into a run of bytes needs nothing.
pub open spec fn merge_free_seq(s: Seq<MirView>, first_miss: bool) -> bool
    decreases s,
{
    if s.len() == 0 {
        true
    } else {
        &&& (byte_ranges(s[0]) is Some || merge_free(s[0], first_miss))
        &&& merge_free_seq(s.subrange(1, s.len() as int), false)
    }
}

/// Whether building `m` returns the id of a fork or rope it built rather
/// than the node it goes to.
pub open spec fn builds_node(m: MirView) -> bool
    decreases m,
{
    match m {
        MirView::Empty => false,
        MirView::Literal(_) => true,
        MirView::Class(_) => true,
        MirView::Concat(s) => s.len() > 0 && (byte_ranges(s[0]) is Some || builds_node(s[0])),
        MirView::Maybe(inner) => builds_node(*inner),
        MirView::Loop(_) => true,
        MirView::Alternation(_) => true,
    }
}

/// Whether a slot holds a fork or a rope.
pub open spec fn branching<L>(slot: Option<NodeView<L>>) -> bool {
    match slot {
        Some(NodeView::Fork(_)) => true,
        Some(NodeView::Rope(_)) => true,
        _ => false,
    }
}

/// A bound on the slots building a merge-free `m` adds.
pub open spec fn frag_size(m: MirView) -> nat
    decreases m,
{
    match m {
        MirView::Empty => 0,
        MirView::Literal(_) => 1,
        MirView::Class(_) => 1,
        MirView::Concat(s) => frag_size_seq(s) + 1,
        MirView::Maybe(inner) => frag_size(*inner),
        MirView::Loop(inner) => frag_size(*inner) + 1,
        MirView::Alternation(_) => 0,
    }
}

/// The bounds of the members of a concatenation, one more slot each.
pub open spec fn frag_size_seq(s: Seq<MirView>) -> nat
    decreases s,
{
    if s.len() == 0 {
        0
    } else {
        frag_size(s[0]) + 1 + frag_size_seq(s.subrange(1, s.len() as int))
    }
}

/// The members from `k` on, one step further back.
proof fn lemma_suffix_step(s: Seq<MirView>, k: int, first_miss: bool)
    requires
        1 <= k <= s.len(),
    ensures
        s.subrange(k - 1, s.len() as int)[0] == s[k - 1],
        s.subrange(k - 1, s.len() as int).subrange(1, s.len() - k + 1) == s.subrange(k, s.len() as int),
        frag_size_seq(s.subrange(k - 1, s.len() as int)) == frag_size(s[k - 1]) + 1 + frag_size_seq(s.subrange(k, s.len() as int)),
        merge_free_seq(s.subrange(k - 1, s.len() as int), first_miss) == ((byte_ranges(s[k - 1]) is Some || merge_free(
            s[k - 1],
            first_miss,
        )) && merge_free_seq(s.subrange(k, s.len() as int), false)),
{
    assert(s.subrange(k - 1, s.len() as int).subrange(1, s.len() - k + 1) =~= s.subrange(k, s.len() as int));
}

/// A merge-free concatenation's later members are merge-free without a
/// miss, and its bound covers every suffix.
proof fn lemma_merge_free_suffix(s: Seq<MirView>, first_miss: bool, k: int)
    requires
        merge_free_seq(s, first_miss),
        1 <= k <= s.len(),
    ensures
        merge_free_seq(s.subrange(k, s.len() as int), false),
        frag_size_seq(s.subrange(k, s.len() as int)) <= frag_size_seq(s),
    decreases k,
{
    assert(s.subrange(0, s.len() as int) =~= s);
    if k == 1 {
        lemma_suffix_step(s, 1, first_miss);
    } else {
        lemma_merge_free_suffix(s, first_miss, k - 1);
        lemma_suffix_step(s, k, false);
    }
}

/// The pattern of the rope a parsed regex is built as, when it is a
/// literal or a concatenation whose members all fold into bytes.
pub open spec fn rope_pattern(m: MirView) -> Option<Seq<Range>> {
    match m {
        MirView::Literal(l) => Some(literal_ranges(l)),
        MirView::Concat(items) => if items.len() > 0 && all_bytes(items) {
            Some(concat_ranges(items))
        } else {
            None
        },
        _ => None,
    }
}

/// Building a rope of `pattern` going to `then`: it succeeds exactly when
/// the graph has room, fails leaving the graph as it was, and on success
/// stores the rope at the id returned; it adds at most one slot.
pub open spec fn built_rope<L>(
    before: Seq<Option<NodeView<L>>>,
    after: Seq<Option<NodeView<L>>>,
    room: bool,
    pattern: Seq<Range>,
    then: NodeId,
    r: Result<(usize, NodeId), Error>,
) -> bool {
    &&& after.len() <= before.len() + 1
    &&& (r is Ok <==> room)
    &&& (r is Err ==> r == Err::<(usize, NodeId), Error>(Error::Graph(GraphError::Exhausted)) && after == before)
    &&& (r matches Ok((_, id)) ==> after[id.index() as int] == Some(
        NodeView::<L>::Rope(RopeView { pattern, target: then, miss: Miss::Fail }),
    ))
}

/// What building a parsed regex `m` going to `then` gives, for the forms
/// settled without merging nodes: a literal or a concatenation of bytes
/// is a rope; alternatives of a single byte each are one fork sending
/// their bytes to `then`; `x?` and `x*` of a class are a fork sending the
/// class to `then` (for `x?`) or back to itself (for `x*`) and missing to
/// `then`, and of a literal or a run of bytes a rope doing the same.
/// Other forms are not constrained here.
pub open spec fn built_as<L>(
    m: MirView,
    before: Seq<Option<NodeView<L>>>,
    after: Seq<Option<NodeView<L>>>,
    then: NodeId,
    r: Result<(usize, NodeId), Error>,
) -> bool {
    match rope_pattern(m) {
        Some(p) => built_rope(before, after, before.len() <= u32::MAX, p, then, r),
        None => match m {
            MirView::Maybe(inner) => match class_ranges(*inner) {
                Some(rs) => {
                    &&& (r is Ok <==> before.len() <= u32::MAX)
                    &&& (r is Err ==> r == Err::<(usize, NodeId), Error>(Error::Graph(GraphError::Exhausted)) && after == before)
                    &&& (r matches Ok((_, id)) ==> after[id.index() as int] == Some(
                        NodeView::<L>::Fork(ranges_fork(rs, then, Some(then))),
                    ))
                },
                None => match rope_pattern(*inner) {
                    Some(p) => {
                        &&& (r is Ok <==> before.len() <= u32::MAX)
                        &&& (r is Err ==> r == Err::<(usize, NodeId), Error>(Error::Graph(GraphError::Exhausted)) && after == before)
                        &&& (r matches Ok((_, id)) ==> after[id.index() as int] == Some(
                            NodeView::<L>::Rope(RopeView { pattern: p, target: then, miss: Miss::First(then) }),
                        ))
                    },
                    None => true,
                },
            },
            MirView::Alternation(items) => if items.len() > 0 && all_one_byte(items) {
                &&& (before.len() + items.len() < u32::MAX ==> r is Ok)
                &&& (r is Err ==> r == Err::<(usize, NodeId), Error>(Error::Graph(GraphError::Exhausted)))
                &&& (r matches Ok((_, id)) ==> after[id.index() as int] == Some(
                    NodeView::<L>::Fork(alternation_fork(items, then, None)),
                ))
            } else {
                true
            },
            MirView::Loop(inner) => match class_ranges(*inner) {
                Some(rs) => {
                    &&& (r is Ok <==> before.len() < u32::MAX)
                    &&& (r is Err ==> r == Err::<(usize, NodeId), Error>(Error::Graph(GraphError::Exhausted)))
                    &&& (r matches Ok((_, id)) ==> after[id.index() as int] == Some(
                        NodeView::<L>::Fork(ranges_fork(rs, id, Some(then))),
                    ))
                },
                None => match rope_pattern(*inner) {
                    Some(p) => {
                        &&& (r is Ok <==> before.len() < u32::MAX)
                        &&& (r is Err ==> r == Err::<(usize, NodeId), Error>(Error::Graph(GraphError::Exhausted)))
                        &&& (r matches Ok((_, id)) ==> after[id.index() as int] == Some(
                            NodeView::<L>::Rope(RopeView { pattern: p, target: id, miss: Miss::First(then) }),
                        ))
                    },
                    None => true,
                },
            },
            _ => true,
        },
    }
}

/// The fork sending the bytes of the ranges to `then`, missing to `miss`.
pub open spec fn ranges_fork(ranges: Seq<Range>, then: NodeId, miss: Option<NodeId>) -> ForkView {
    ForkView {
        lut: Seq::new(256, |b: int| if crate::generator::in_ranges(ranges, b) { Some(then) } else { None }),
        miss,
    }
}

impl<L: Disambiguate> Graph<L> {
    /// Where a repeated regex misses to: a merge of the current miss with
    /// `then`, or `then`.
    fn merge_miss(&mut self, miss: Option<NodeId>, then: NodeId) -> (r: Result<NodeId, GraphError>)
        requires
            old(self).well_formed(),
            old(self).has(then),
            miss matches Some(m) ==> old(self).has(m),
        ensures
            final(self).well_formed(),
            grows(final(self)@, old(self)@),
            r matches Ok(id) ==> final(self).has(id),
            match miss {
                None => r == Ok::<NodeId, GraphError>(then) && final(self)@ == old(self)@,
                Some(m) => if m == then {
                    r == Ok::<NodeId, GraphError>(then) && final(self)@ == old(self)@
                } else {
                    merge_outcome(old(self)@, m, then, r)
                },
            },
    {
        match miss {
            Some(id) => self.merge(id, then),
            None => Ok(then),
        }
    }

    /// Add the nodes for `mir`, going to `then` on a match and to `miss`
    /// when the first byte misses; returns the priority of `mir` and the
    /// id of its first node.
    fn parse_mir(&mut self, mir: &Mir, then: NodeId, miss: Option<NodeId>) -> (r: Result<(usize, NodeId), GraphError>)
        requires
            old(self).well_formed(),
            old(self).has(then),
            miss matches Some(m) ==> old(self).has(m),
        ensures
            final(self).well_formed(),
            built(old(self)@, final(self), mir@, r),
            mir@ is Empty ==> r == Ok::<(usize, NodeId), GraphError>((0, then)) && final(self)@ == old(self)@,
            merge_free(mir@, miss is Some) ==> final(self)@.len() <= old(self)@.len() + frag_size(mir@),
            merge_free(mir@, miss is Some) && old(self)@.len() + frag_size(mir@) <= u32::MAX ==> r is Ok,
            merge_free(mir@, miss is Some) && builds_node(mir@) ==> (r matches Ok((_, id)) ==> branching(final(self)@[id.index() as int])),
            mir@ matches MirView::Concat(items) ==> (items.len() == 0 ==> r == Ok::<(usize, NodeId), GraphError>((0, then))
                && final(self)@ == old(self)@),
            mir@ matches MirView::Concat(items) ==> (items.len() > 0 && all_bytes(items) ==> {
                &&& final(self)@.len() <= old(self)@.len() + 1
                &&& (r is Ok <==> old(self).has_room())
                &&& (r is Err ==> r == Err::<(usize, NodeId), GraphError>(GraphError::Exhausted) && final(self)@ == old(self)@)
                &&& (r matches Ok((_, id)) ==> final(self)@[id.index() as int] == Some(
                    NodeView::<L>::Rope(RopeView { pattern: concat_ranges(items), target: then, miss: miss_of(miss) }),
                ))
            }),
            mir@ matches MirView::Alternation(items) ==> (items.len() == 0 ==> (r is Ok <==> old(self).has_room())),
            mir@ matches MirView::Alternation(items) ==> (items.len() > 0 && all_one_byte(items) ==> {
                &&& (old(self)@.len() + items.len() < u32::MAX ==> r is Ok)
                &&& (r is Err ==> r == Err::<(usize, NodeId), GraphError>(GraphError::Exhausted))
                &&& (r matches Ok((_, id)) ==> final(self)@[id.index() as int] == Some(
                    NodeView::<L>::Fork(alternation_fork(items, then, miss)),
                ))
            }),
            mir@ matches MirView::Maybe(inner) ==> (class_ranges(*inner) matches Some(rs) ==> (miss is None ==> {
                &&& (r is Ok <==> old(self).has_room())
                &&& (r is Err ==> r == Err::<(usize, NodeId), GraphError>(GraphError::Exhausted) && final(self)@ == old(self)@)
                &&& (r matches Ok((_, id)) ==> final(self)@[id.index() as int] == Some(
                    NodeView::<L>::Fork(ranges_fork(rs, then, Some(then))),
                ))
            })),
            mir@ matches MirView::Loop(inner) ==> (class_ranges(*inner) matches Some(rs) ==> (miss is None ==> {
                &&& (r is Ok <==> old(self)@.len() < u32::MAX)
                &&& (r is Err ==> r == Err::<(usize, NodeId), GraphError>(GraphError::Exhausted))
                &&& (r matches Ok((_, id)) ==> final(self)@[id.index() as int] == Some(
                    NodeView::<L>::Fork(ranges_fork(rs, id, Some(then))),
                ))
            })),
            mir@ matches MirView::Maybe(inner) ==> (rope_pattern(*inner) matches Some(p) ==> (miss is None ==> {
                &&& (r is Ok <==> old(self).has_room())
                &&& (r is Err ==> r == Err::<(usize, NodeId), GraphError>(GraphError::Exhausted) && final(self)@ == old(self)@)
                &&& (r matches Ok((_, id)) ==> final(self)@[id.index() as int] == Some(
                    NodeView::<L>::Rope(RopeView { pattern: p, target: then, miss: Miss::First(then) }),
                ))
            })),
            mir@ matches MirView::Loop(inner) ==> (rope_pattern(*inner) matches Some(p) ==> (miss is None ==> {
                &&& (r is Ok <==> old(self)@.len() < u32::MAX)
                &&& (r is Err ==> r == Err::<(usize, NodeId), GraphError>(GraphError::Exhausted))
                &&& (r matches Ok((_, id)) ==> final(self)@[id.index() as int] == Some(
                    NodeView::<L>::Rope(RopeView { pattern: p, target: id, miss: Miss::First(then) }),
                ))
            })),
            mir@ matches MirView::Literal(l) ==> {
                &&& final(self)@.len() <= old(self)@.len() + 1
                &&& r is Ok <==> old(self).has_room()
                &&& r is Err ==> r == Err::<(usize, NodeId), GraphError>(GraphError::Exhausted) && final(self)@ == old(self)@
                &&& r matches Ok((_, id)) ==> final(self)@[id.index() as int] == Some(NodeView::<L>::Rope(literal_rope(l, then, miss)))
            },
            mir@ matches MirView::Class(CharClassView::Bytes(rs)) ==> {
                &&& final(self)@.len() <= old(self)@.len() + 1
                &&& r is Ok <==> old(self).has_room()
                &&& r is Err ==> r == Err::<(usize, NodeId), GraphError>(GraphError::Exhausted) && final(self)@ == old(self)@
                &&& r matches Ok((_, id)) ==> final(self)@[id.index() as int] == Some(
                    NodeView::<L>::Fork(ranges_fork(rs.map_values(|p: (u8, u8)| Range(p.0, p.1)), then, miss)),
                )
            },
            mir@ matches MirView::Class(CharClassView::Unicode(rs)) ==> ascii_class(rs) ==> {
                &&& final(self)@.len() <= old(self)@.len() + 1
                &&& r is Ok <==> old(self).has_room()
                &&& r is Err ==> r == Err::<(usize, NodeId), GraphError>(GraphError::Exhausted) && final(self)@ == old(self)@
                &&& r matches Ok((_, id)) ==> final(self)@[id.index() as int] == Some(
                    NodeView::<L>::Fork(ranges_fork(rs.map_values(|p: (char, char)| ascii_range(p)), then, miss)),
                )
            },
        decreases mir, 1int,
    {
        match mir {
            Mir::Empty => Ok((0, then)),
            Mir::Loop(inner) => {
                let miss = match self.merge_miss(miss, then) {
                    Ok(m) => m,
                    Err(e) => {
                        return Err(e);
                    },
                };
                if !self.room() {
                    return Err(GraphError::Exhausted);
                }
                let this = self.reserve();
                let this_id = this.get();
                let id = match self.parse_mir(inner, this_id, Some(miss)) {
                    Ok((_, id)) => id,
                    Err(e) => {
                        return Err(e);
                    },
                };
                // Move the node to the reserved id.
                let node = match self.get(id) {
                    Some(Node::Fork(fork)) => {
                        proof {
                            self.lemma_stored_fits(id);
                        }
                        Node::Fork(fork.copy())
                    },
                    Some(Node::Rope(rope)) => {
                        proof {
                            self.lemma_stored_fits(id);
                        }
                        Node::Rope(rope.copy())
                    },
                    _ => {
                        return Err(GraphError::Unfilled(id, id));
                    },
                };
                let id = self.insert(this, node);
                Ok((0, id))
            },
            Mir::Maybe(inner) => {
                let miss = match self.merge_miss(miss, then) {
                    Ok(m) => m,
                    Err(e) => {
                        return Err(e);
                    },
                };
                match self.parse_mir(inner, then, Some(miss)) {
                    Ok((_, id)) => Ok((0, id)),
                    Err(e) => Err(e),
                }
            },
            Mir::Alternation(items) => {
                proof {
                    lemma_mir_views(items@);
                }
                self.parse_alternation(mir, items, then, miss)
            },
            Mir::Concat(items) => {
                proof {
                    lemma_mir_views(items@);
                }
                self.parse_concat(mir, items, then, miss)
            },
            Mir::Literal(l) => self.parse_literal(*l, then, miss),
            Mir::Class(CharClass::Unicode(rs)) => {
                if is_ascii(rs) {
                    let mut ranges: Vec<Range> = Vec::new();
                    let mut i: usize = 0;
                    while i < rs.len()
                        invariant
                            i <= rs@.len(),
                            ranges@ == rs@.take(i as int).map_values(|r: (char, char)| ascii_range(r)),
                        decreases rs@.len() - i,
                    {
                        proof {
                            assert(rs@.take(i + 1).map_values(|r: (char, char)| ascii_range(r)) == rs@.take(i as int).map_values(
                                |r: (char, char)| ascii_range(r),
                            ).push(ascii_range(rs@[i as int])));
                        }
                        ranges.push(to_ascii_range(rs[i]));
                        i = i + 1;
                    }
                    proof {
                        assert(rs@.take(rs@.len() as int) == rs@);
                    }
                    self.parse_ranges(&ranges, then, miss)
                } else {
                    self.parse_utf8_class(rs, then, miss)
                }
            },
            Mir::Class(CharClass::Bytes(rs)) => {
                let mut ranges: Vec<Range> = Vec::new();
                let mut i: usize = 0;
                while i < rs.len()
                    invariant
                        i <= rs@.len(),
                        ranges@ == rs@.take(i as int).map_values(|r: (u8, u8)| Range(r.0, r.1)),
                    decreases rs@.len() - i,
                {
                    proof {
                        assert(rs@.take(i + 1).map_values(|r: (u8, u8)| Range(r.0, r.1)) == rs@.take(i as int).map_values(
                            |r: (u8, u8)| Range(r.0, r.1),
                        ).push(Range(rs@[i as int].0, rs@[i as int].1)));
                    }
                    ranges.push(Range(rs[i].0, rs[i].1));
                    i = i + 1;
                }
                proof {
                    assert(rs@.take(rs@.len() as int) == rs@);
                }
                self.parse_ranges(&ranges, then, miss)
            },
        }
    }

    /// A rope matching the bytes of a literal.
    fn parse_literal(&mut self, l: Symbol, then: NodeId, miss: Option<NodeId>) -> (r: Result<(usize, NodeId), GraphError>)
        requires
            old(self).well_formed(),
            old(self).has(then),
            miss matches Some(m) ==> old(self).has(m),
        ensures
            final(self).well_formed(),
            built(old(self)@, final(self), MirView::Literal(l), r),
            r is Ok <==> old(self).has_room(),
            r is Err ==> r == Err::<(usize, NodeId), GraphError>(GraphError::Exhausted) && final(self)@ == old(self)@,
            r matches Ok((_, id)) ==> final(self)@[id.index() as int] == Some(NodeView::<L>::Rope(literal_rope(l, then, miss))),
            final(self)@.len() <= old(self)@.len() + 1,
    {
        let bytes = match l {
            Symbol::Unicode(c) => encode_utf8(c),
            Symbol::Byte(b) => vec![b],
        };
        assert(bytes@ == symbol_bytes(l));
        let mut ranges: Vec<Range> = Vec::new();
        let mut i: usize = 0;
        while i < bytes.len()
            invariant
                i <= bytes@.len(),
                ranges@.len() == i,
                ranges@ == bytes@.take(i as int).map_values(|b: u8| Range(b, b)),
            decreases bytes@.len() - i,
        {
            proof {
                assert(bytes@.take(i + 1).map_values(|b: u8| Range(b, b)) =~= bytes@.take(i as int).map_values(|b: u8| Range(b, b)).push(Range(bytes@[i as int], bytes@[i as int])));
            }
            ranges.push(Range(bytes[i], bytes[i]));
            i = i + 1;
        }
        proof {
            assert(bytes@.take(i as int) =~= bytes@);
            assert(ranges@ == literal_ranges(l));
        }
        if !self.room() {
            return Err(GraphError::Exhausted);
        }
        let len = bytes.len() * 2;
        let rope = Rope::new(Pattern(ranges), then).miss(Miss::from_option(miss));
        proof {
            assert forall|x: NodeId| #[trigger] NodeView::<L>::Rope(rope@).points_to(x) implies self.has(x) by {}
        }
        let id = self.push(Node::Rope(rope));
        Ok((len, id))
    }

    /// A fork sending every byte of the ranges to `then`.
    fn parse_ranges(&mut self, ranges: &Vec<Range>, then: NodeId, miss: Option<NodeId>) -> (r: Result<(usize, NodeId), GraphError>)
        requires
            old(self).well_formed(),
            old(self).has(then),
            miss matches Some(m) ==> old(self).has(m),
        ensures
            final(self).well_formed(),
            grows(final(self)@, old(self)@),
            r matches Ok((len, id)) ==> final(self).has(id) && len == class_len(ranges@),
            r matches Ok((len, _)) ==> ((forall|k: int| 0 <= k < ranges@.len() ==> (#[trigger] ranges@[k]).0 == ranges@[k].1) ==> len == 2),
            r matches Ok((len, _)) ==> ((exists|k: int| 0 <= k < ranges@.len() && (#[trigger] ranges@[k]).0 != ranges@[k].1) ==> len == 1),
            r is Ok <==> old(self).has_room(),
            r is Err ==> r == Err::<(usize, NodeId), GraphError>(GraphError::Exhausted) && final(self)@ == old(self)@,
            r matches Ok((_, id)) ==> final(self)@[id.index() as int] == Some(NodeView::<L>::Fork(ranges_fork(ranges@, then, miss))),
            final(self)@.len() <= old(self)@.len() + 1,
    {
        let mut fork = empty_fork(self, miss);
        let mut len: usize = 2;
        let mut i: usize = 0;
        proof {
            assert(fork@.lut =~= ranges_fork(ranges@.take(0), then, miss).lut);
        }
        while i < ranges.len()
            invariant
                i <= ranges@.len(),
                self.well_formed(),
                grows(self@, old(self)@),
                self@ == old(self)@,
                self.has(then),
                self.fits(NodeView::Fork(fork@)),
                fork@ == ranges_fork(ranges@.take(i as int), then, miss),
                len == (if forall|k: int| 0 <= k < i ==> (#[trigger] ranges@[k]).0 == ranges@[k].1 { 2usize } else { 1usize }),
            decreases ranges@.len() - i,
        {
            let range = ranges[i];
            if range.as_byte().is_none() {
                len = 1;
            }
            let ghost f0 = fork@;
            proof {
                assert forall|b: int| 0 <= b < 256 && range.0 <= b <= range.1 implies super::mergeable(#[trigger] f0.lut[b], Some(then)) by {}
            }
            match fork.add_branch(range, then, self) {
                Ok(()) => {},
                Err(e) => {
                    return Err(e);
                },
            }
            proof {
                let t0 = ranges@.take(i as int);
                let t1 = ranges@.take(i + 1);
                assert(t1 == t0.push(range));
                assert forall|b: int| 0 <= b < 256 implies #[trigger] fork@.lut[b] == ranges_fork(t1, then, miss).lut[b] by {
                    assert(f0.lut[b] == (if crate::generator::in_ranges(t0, b) { Some(then) } else { None::<NodeId> }));
                    if range.0 <= b <= range.1 {
                        assert(t1[i as int] == range);
                        assert(crate::generator::in_ranges(t1, b));
                        assert(super::branched(self, f0.lut[b], then, fork@.lut[b]));
                        assert(fork@.lut[b] == Some(then));
                    } else {
                        assert(fork@.lut[b] == f0.lut[b]);
                        if crate::generator::in_ranges(t1, b) {
                            let k = choose|k: int| 0 <= k < t1.len() && t1[k].0 <= b <= (#[trigger] t1[k]).1;
                            assert(t0[k] == t1[k]);
                            assert(crate::generator::in_ranges(t0, b));
                        }
                        if crate::generator::in_ranges(t0, b) {
                            let k = choose|k: int| 0 <= k < t0.len() && t0[k].0 <= b <= (#[trigger] t0[k]).1;
                            assert(t0[k] == t1[k]);
                        }
                    }
                }
                assert(fork@.lut =~= ranges_fork(t1, then, miss).lut);
            }
            i = i + 1;
        }
        proof {
            assert(ranges@.take(i as int) =~= ranges@);
        }
        if !self.room() {
            return Err(GraphError::Exhausted);
        }
        let id = self.push(Node::Fork(fork));
        Ok((len, id))
    }

    /// A fork over the UTF-8 sequences of a class with scalar values past
    /// ASCII: one rope per sequence, turned into forks and merged.
    fn parse_utf8_class(&mut self, rs: &Vec<(char, char)>, then: NodeId, miss: Option<NodeId>) -> (r: Result<(usize, NodeId), GraphError>)
        requires
            old(self).well_formed(),
            old(self).has(then),
            miss matches Some(m) ==> old(self).has(m),
        ensures
            final(self).well_formed(),
            grows(final(self)@, old(self)@),
            r matches Ok((len, id)) ==> final(self).has(id) && len == clamp(least_priority(class_sequences(rs@))),
            r matches Ok((len, _)) ==> forall|k: int|
                0 <= k < class_sequences(rs@).len() ==> len <= clamp(priority(#[trigger] class_sequences(rs@)[k])),
            r matches Ok((_, id)) ==> final(self)@[id.index() as int] matches Some(NodeView::Fork(f)) && f.miss == miss && f.lut.len() == 256
                && forall|b: int| 0 <= b < 256 ==> (#[trigger] f.lut[b] is Some <==> first_covered(class_sequences(rs@), b)),
            rs@.len() == 0 ==> (r is Ok <==> old(self).has_room()),
    {
        let mut root = empty_fork(self, miss);
        let mut shortest: usize = usize::MAX;
        let mut i: usize = 0;
        proof {
            assert(rs@.take(0) =~= Seq::<(char, char)>::empty());
        }
        while i < rs.len()
            invariant
                i <= rs@.len(),
                self.well_formed(),
                grows(self@, old(self)@),
                self.has(then),
                self.fits(NodeView::Fork(root@)),
                shortest == clamp(least_priority(class_sequences(rs@.take(i as int)))),
                root@.miss == miss,
                root@.lut.len() == 256,
                forall|b: int| 0 <= b < 256 ==> (#[trigger] root@.lut[b] is Some <==> first_covered(class_sequences(rs@.take(i as int)), b)),
                i == 0 ==> self@ == old(self)@,
            decreases rs@.len() - i,
        {
            let (start, end) = rs[i];
            let seqs = utf8_sequences(start, end);
            let ghost done = class_sequences(rs@.take(i as int));
            let ghost all = utf8_sequences_of(start, end);
            proof {
                assert(rs@.take(i + 1).drop_last() == rs@.take(i as int));
                assert(class_sequences(rs@.take(i + 1)) == done + all);
                assert(all.take(0) =~= Seq::<Seq<Range>>::empty());
                assert(done + all.take(0) == done);
            }
            let mut j: usize = 0;
            while j < seqs.len()
                invariant
                    j <= seqs@.len(),
                    seqs@.len() == all.len(),
                    forall|k: int| 0 <= k < seqs@.len() ==> #[trigger] seqs@[k]@ == all[k],
                    forall|k: int| 0 <= k < seqs@.len() ==> 1 <= (#[trigger] seqs@[k]@).len() <= 4,
                    self.well_formed(),
                    grows(self@, old(self)@),
                    self.has(then),
                    self.fits(NodeView::Fork(root@)),
                    shortest == clamp(least_priority(done + all.take(j as int))),
                    root@.miss == miss,
                    root@.lut.len() == 256,
                    i < rs@.len(),
                    forall|b: int| 0 <= b < 256 ==> (#[trigger] root@.lut[b] is Some <==> first_covered(done + all.take(j as int), b)),
                decreases seqs@.len() - j,
            {
                let ranges = seqs[j].clone();
                proof {
                    assert((done + all.take(j + 1)).drop_last() == done + all.take(j as int));
                    assert((done + all.take(j + 1)).last() == all[j as int]);
                }
                let p = priority_of(ranges.as_slice());
                if p < shortest {
                    shortest = p;
                }
                if !self.room() {
                    return Err(GraphError::Exhausted);
                }
                let rope = Rope::new(Pattern(ranges), then);
                let ghost rope_view = rope@;
                let fork = rope.into_fork(self);
                let ghost fv = fork@;
                let ghost r0 = root@;
                proof {
                    assert(rope_view.pattern == all[j as int]);
                    assert(exists|next: NodeId| #[trigger] super::rope::first_step(rope_view, next, fv));
                    let next = choose|next: NodeId| #[trigger] super::rope::first_step(rope_view, next, fv);
                    assert(fv.miss is None);
                    assert forall|b: int| 0 <= b < 256 implies (#[trigger] fv.lut[b] is Some <==> rope_view.pattern[0].0 <= b <= rope_view.pattern[0].1) by {}
                }
                match root.merge(fork, self) {
                    Ok(()) => {},
                    Err(e) => {
                        return Err(e);
                    },
                }
                proof {
                    assert(done + all.take(j + 1) == (done + all.take(j as int)).push(all[j as int]));
                    assert(root@.miss == miss);
                    assert forall|b: int| 0 <= b < 256 implies (#[trigger] root@.lut[b] is Some <==> first_covered(done + all.take(j + 1), b)) by {
                        lemma_first_covered_push(done + all.take(j as int), all[j as int], b);
                        assert(super::combined(self, r0.lut[b], fv.lut[b], root@.lut[b]));
                    }
                }
                j = j + 1;
            }
            proof {
                assert(all.take(all.len() as int) == all);
            }
            i = i + 1;
        }
        proof {
            assert(rs@.take(rs@.len() as int) == rs@);
        }
        if !self.room() {
            return Err(GraphError::Exhausted);
        }
        let id = self.push(Node::Fork(root));
        proof {
            law_least_priority(class_sequences(rs@));
        }
        Ok((shortest, id))
    }

    /// A fork merging the forks of the alternatives.
    fn parse_alternation(&mut self, parent: &Mir, items: &Vec<Mir>, then: NodeId, miss: Option<NodeId>) -> (r: Result<(usize, NodeId), GraphError>)
        requires
            *parent == Mir::Alternation(*items),
            old(self).well_formed(),
            old(self).has(then),
            miss matches Some(m) ==> old(self).has(m),
        ensures
            final(self).well_formed(),
            built(old(self)@, final(self), parent@, r),
            r matches Ok((_, id)) ==> final(self)@[id.index() as int] matches Some(NodeView::Fork(_)),
            items@.len() == 0 ==> {
                &&& r is Ok <==> old(self).has_room()
                &&& r is Err ==> final(self)@ == old(self)@
                &&& r matches Ok((len, id)) ==> len == 0 && final(self)@[id.index() as int] == Some(
                    NodeView::<L>::Fork(ForkView { lut: Seq::new(256, |b: int| None::<NodeId>), miss }),
                )
            },
            items@.len() > 0 && all_one_byte(mir_views(items@)) ==> {
                &&& (old(self)@.len() + items@.len() < u32::MAX ==> r is Ok)
                &&& (r is Err ==> r == Err::<(usize, NodeId), GraphError>(GraphError::Exhausted))
                &&& (r matches Ok((_, id)) ==> final(self)@[id.index() as int] == Some(
                    NodeView::<L>::Fork(alternation_fork(mir_views(items@), then, miss)),
                ))
            },
        decreases parent, 0int,
    {
        let ghost views = mir_views(items@);
        let ghost one = all_one_byte(views);
        proof {
            lemma_mir_views(items@);
        }
        let mut fork = empty_fork(self, miss);
        let ghost fork0 = fork@;
        proof {
            assert(views.take(0) =~= Seq::<MirView>::empty());
            assert(fork@.lut =~= alternation_fork(views.take(0), then, miss).lut);
        }
        let mut shortest: usize = if items.len() > 0 { usize::MAX } else { 0 };
        let mut i: usize = 0;
        while i < items.len()
            invariant
                i <= items@.len(),
                *parent == Mir::Alternation(*items),
                views == mir_views(items@),
                views.len() == items@.len(),
                forall|k: int| 0 <= k < items@.len() ==> #[trigger] views[k] == items@[k]@,
                self.well_formed(),
                grows(self@, old(self)@),
                self.has(then),
                self.fits(NodeView::Fork(fork@)),
                i == 0 ==> shortest == (if items@.len() > 0 { usize::MAX as int } else { 0 }),
                i > 0 ==> shortest == clamp(least_len(views.take(i as int))),
                i == 0 ==> self@ == old(self)@ && fork@ == fork0,
                one == all_one_byte(views),
                fork0.miss == miss,
                fork0.lut == Seq::new(256, |b: int| None::<NodeId>),
                one ==> self@.len() <= old(self)@.len() + i,
                one ==> fork@ == alternation_fork(views.take(i as int), then, miss),
            decreases items@.len() - i,
        {
            let ghost g_start = self@;
            proof {
                vstd::std_specs::vec::axiom_vec_index_decreases(*items, i as int);
                assert(decreases_to!(*parent => (*parent)->Alternation_0));
                assert(decreases_to!(*parent => items[i as int]));
                assert(views.take(i + 1).drop_last() == views.take(i as int));
                assert(views.take(i + 1).last() == views[i as int]);
            }
            let (len, id) = match self.parse_mir(&items[i], then, None) {
                Ok(found) => found,
                Err(e) => {
                    return Err(e);
                },
            };
            if len < shortest {
                shortest = len;
            }
            if !self.room() {
                return Err(GraphError::Exhausted);
            }
            let ghost fork_before = fork@;
            let alt = self.fork_off(id);
            proof {
                if one {
                    assert(one_byte_ranges(views[i as int]) is Some);
                    let rs = one_byte_ranges(views[i as int])->Some_0;
                    assert forall|b: int| 0 <= b < 256 implies #[trigger] alt@.lut[b] == (if crate::generator::in_ranges(rs, b) {
                        Some(then)
                    } else {
                        None
                    }) by {
                        if let MirView::Literal(l) = views[i as int] {
                            assert(literal_ranges(l)[0] == Range(symbol_bytes(l)[0], symbol_bytes(l)[0]));
                            if crate::generator::in_ranges(rs, b) {
                                let k = choose|k: int| 0 <= k < rs.len() && rs[k].0 <= b <= (#[trigger] rs[k]).1;
                                assert(k == 0);
                            }
                            if literal_ranges(l)[0].0 <= b <= literal_ranges(l)[0].1 {
                                assert(rs[0].0 <= b <= rs[0].1);
                            }
                        }
                    }
                    assert(alt@.miss is None);
                    assert(forks_mergeable(fork@, alt@));
                }
            }
            match fork.merge(alt, self) {
                Ok(()) => {},
                Err(e) => {
                    return Err(e);
                },
            }
            proof {
                if one {
                    let rs = one_byte_ranges(views[i as int])->Some_0;
                    assert(views.take(i + 1) == views.take(i as int).push(views[i as int]));
                    assert forall|b: int| 0 <= b < 256 implies #[trigger] fork@.lut[b] == alternation_fork(views.take(i + 1), then, miss).lut[b] by {
                        lemma_alt_covers_push(views.take(i as int), views[i as int], b);
                        assert(combined(self, fork_before.lut[b], alt@.lut[b], fork@.lut[b]));
                    }
                    assert(fork@.lut =~= alternation_fork(views.take(i + 1), then, miss).lut);
                    assert(fork@.miss == miss);
                }
            }
            i = i + 1;
        }
        proof {
            assert(views.take(views.len() as int) == views);
        }
        if !self.room() {
            return Err(GraphError::Exhausted);
        }
        let id = self.push(Node::Fork(fork));
        Ok((shortest, id))
    }

    /// A rope for the bytes just before `then`, when there are any:
    /// pushes it and moves `then` to it, and empties `run`. Returns the
    /// rope's priority.
    fn flush(&mut self, run: &mut Vec<Range>, then: &mut NodeId) -> (r: Result<usize, GraphError>)
        requires
            old(self).well_formed(),
            old(self).has(*old(then)),
        ensures
            final(self).well_formed(),
            grows(final(self)@, old(self)@),
            final(self).has(*final(then)),
            r matches Ok(p) ==> p == clamp(priority(old(run)@)) && final(run)@.len() == 0,
            final(self)@.len() <= old(self)@.len() + 1,
            old(run)@.len() == 0 ==> r == Ok::<usize, GraphError>(0) && final(self)@ == old(self)@ && *final(then) == *old(then),
            old(run)@.len() > 0 ==> (r is Ok <==> old(self).has_room()),
            r is Err ==> r == Err::<usize, GraphError>(GraphError::Exhausted) && final(self)@ == old(self)@ && *final(then) == *old(then)
                && final(run)@ == old(run)@,
            r is Ok && old(run)@.len() > 0 ==> final(self)@[final(then).index() as int] == Some(
                NodeView::<L>::Rope(RopeView { pattern: old(run)@.reverse(), target: *old(then), miss: Miss::Fail }),
            ),
    {
        if run.len() == 0 {
            return Ok(0);
        }
        let p = priority_of(run.as_slice());
        if !self.room() {
            return Err(GraphError::Exhausted);
        }
        let pattern = reversed(run);
        proof {
            assert(pattern@ =~= old(run)@.reverse());
        }
        let rope = Rope::new(Pattern(pattern), *then);
        proof {
            assert forall|x: NodeId| #[trigger] NodeView::<L>::Rope(rope@).points_to(x) implies self.has(x) by {}
        }
        *then = self.push(Node::Rope(rope));
        *run = Vec::new();
        Ok(p)
    }

    /// Ropes for runs of bytes and nodes for the other members, built from
    /// the last member to the first.
    fn parse_concat(&mut self, parent: &Mir, items: &Vec<Mir>, then: NodeId, miss: Option<NodeId>) -> (r: Result<(usize, NodeId), GraphError>)
        requires
            *parent == Mir::Concat(*items),
            old(self).well_formed(),
            old(self).has(then),
            miss matches Some(m) ==> old(self).has(m),
        ensures
            final(self).well_formed(),
            built(old(self)@, final(self), parent@, r),
            items@.len() == 0 ==> r == Ok::<(usize, NodeId), GraphError>((0, then)) && final(self)@ == old(self)@,
            items@.len() > 0 && all_bytes(mir_views(items@)) ==> {
                &&& final(self)@.len() <= old(self)@.len() + 1
                &&& (r is Ok <==> old(self).has_room())
                &&& (r is Err ==> r == Err::<(usize, NodeId), GraphError>(GraphError::Exhausted) && final(self)@ == old(self)@)
                &&& (r matches Ok((_, id)) ==> final(self)@[id.index() as int] == Some(
                    NodeView::<L>::Rope(RopeView { pattern: concat_ranges(mir_views(items@)), target: then, miss: miss_of(miss) }),
                ))
            },
            merge_free_seq(mir_views(items@), miss is Some) ==> final(self)@.len() <= old(self)@.len() + frag_size_seq(mir_views(items@)) + 1,
            merge_free_seq(mir_views(items@), miss is Some) && old(self)@.len() + frag_size_seq(mir_views(items@)) + 1 <= u32::MAX ==> r is Ok,
            merge_free_seq(mir_views(items@), miss is Some) && items@.len() > 0 && (byte_ranges(mir_views(items@)[0]) is Some || builds_node(
                mir_views(items@)[0],
            )) ==> (r matches Ok((_, id)) ==> branching(final(self)@[id.index() as int])),
        decreases parent, 0int,
    {
        let ghost views = mir_views(items@);
        let ghost bytes_only = all_bytes(views);
        let ghost then0 = then;
        let ghost mf = merge_free_seq(views, miss is Some);
        proof {
            lemma_mir_views(items@);
            assert(views.take(views.len() as int) == views);
            assert(mir_len(parent@) == sum_len(views));
        }
        if items.len() == 0 {
            return Ok((0, then));
        }
        let mut run: Vec<Range> = Vec::new();
        let mut then = then;
        let mut total: usize = 0;
        let mut k: usize = items.len();
        while k > 1
            invariant
                1 <= k <= items@.len(),
                *parent == Mir::Concat(*items),
                views == mir_views(items@),
                views.len() == items@.len(),
                forall|x: int| 0 <= x < items@.len() ==> #[trigger] views[x] == items@[x]@,
                self.well_formed(),
                grows(self@, old(self)@),
                self.has(then),
                miss matches Some(m) ==> self.has(m),
                0 <= priority(run@) <= sum_len(views) - sum_len(views.take(k as int)),
                total == clamp(sum_len(views) - sum_len(views.take(k as int)) - priority(run@)),
                bytes_only == all_bytes(views),
                bytes_only ==> self@ == old(self)@ && then == then0
                    && run@ == concat_ranges(views.subrange(k as int, views.len() as int)).reverse(),
                mf == merge_free_seq(views, miss is Some),
                mf ==> self@.len() <= old(self)@.len() + frag_size_seq(views.subrange(k as int, views.len() as int)),
            decreases k,
        {
            let ghost run0 = run@;
            proof {
                lemma_mir_len_nonneg(views[k - 1]);
                lemma_priority_nonneg(run@);
                vstd::std_specs::vec::axiom_vec_index_decreases(*items, k - 1);
                assert(decreases_to!(*parent => (*parent)->Concat_0));
                assert(decreases_to!(*parent => items[k - 1]));
                assert(views.take(k as int).drop_last() == views.take(k - 1));
                assert(views.take(k as int).last() == views[k - 1]);
            }
            proof {
                if mf {
                    lemma_merge_free_suffix(views, miss is Some, k - 1);
                    lemma_suffix_step(views, k as int, false);
                    assert(views[k - 1] == items@[k - 1]@);
                }
                if bytes_only {
                    assert(byte_ranges(views[k - 1]) is Some);
                    lemma_concat_ranges_step(views, k as int);
                    lemma_reverse_add(byte_ranges(views[k - 1])->Some_0, concat_ranges(views.subrange(k as int, views.len() as int)));
                }
            }
            if !fold_bytes(&items[k - 1], &mut run) {
                let flushed = match self.flush(&mut run, &mut then) {
                    Ok(p) => p,
                    Err(e) => {
                        return Err(e);
                    },
                };
                let (len, next) = match self.parse_mir(&items[k - 1], then, None) {
                    Ok(found) => found,
                    Err(e) => {
                        return Err(e);
                    },
                };
                total = total.saturating_add(flushed).saturating_add(len);
                then = next;
                proof {
                    assert(priority(run@) == 0);
                }
            }
            k = k - 1;
        }
        proof {
            lemma_mir_len_nonneg(views[0]);
            lemma_priority_nonneg(run@);
            assert(views.take(1).drop_last() == views.take(0));
            assert(views.take(0) =~= Seq::<MirView>::empty());
            assert(views.take(1).last() == views[0]);
            assert(sum_len(views.take(0)) == 0);
            assert(sum_len(views.take(1)) == mir_len(views[0]));
            assert(items@[0]@ == views[0]);
        }
        let ghost p0 = priority(run@);
        let ghost t0 = sum_len(views) - mir_len(views[0]) - p0;
        assert(total == clamp(t0));
        proof {
            if bytes_only {
                assert(byte_ranges(views[0]) is Some);
                lemma_concat_ranges_step(views, 1);
                lemma_reverse_add(byte_ranges(views[0])->Some_0, concat_ranges(views.subrange(1, views.len() as int)));
                assert(views.subrange(0, views.len() as int) =~= views);
            }
        }
        if fold_bytes(&items[0], &mut run) {
            let p = priority_of(run.as_slice());
            if !self.room() {
                return Err(GraphError::Exhausted);
            }
            let pattern = reversed(&run);
            proof {
                assert(pattern@ =~= run@.reverse());
                if bytes_only {
                    lemma_reverse_reverse(concat_ranges(views));
                }
            }
            let rope = Rope::new(Pattern(pattern), then).miss(Miss::from_option(miss));
            proof {
                assert forall|x: NodeId| #[trigger] NodeView::<L>::Rope(rope@).points_to(x) implies self.has(x) by {}
            }
            let id = self.push(Node::Rope(rope));
            let len = total.saturating_add(p);
            assert(len == clamp(sum_len(views)));
            Ok((len, id))
        } else {
            let flushed = match self.flush(&mut run, &mut then) {
                Ok(p) => p,
                Err(e) => {
                    return Err(e);
                },
            };
            proof {
                vstd::std_specs::vec::axiom_vec_index_decreases(*items, 0);
                assert(decreases_to!(*parent => (*parent)->Concat_0));
                assert(decreases_to!(*parent => items[0]));
            }
            match self.parse_mir(&items[0], then, miss) {
                Ok((len, id)) => {
                    let len = total.saturating_add(flushed).saturating_add(len);
                    assert(len == clamp(sum_len(views)));
                    Ok((len, id))
                },
                Err(e) => Err(e),
            }
        }
    }

    /// Add the nodes matching a parsed pattern, going to `then` after a
    /// match. Returns the priority of the pattern and the id of its first
    /// node; a pattern using a feature the graph cannot express is refused
    /// before the graph is touched.
    pub fn regex_from(&mut self, syntax: Syntax, then: NodeId) -> (r: Result<(usize, NodeId), Error>)
        requires
            old(self).well_formed(),
            old(self).has(then),
        ensures
            final(self).well_formed(),
            grows(final(self)@, old(self)@),
            match lower(syntax@) {
                Err(u) => r == Err::<(usize, NodeId), Error>(Error::Unsupported(u)) && final(self)@ == old(self)@,
                Ok(m) => match r {
                    Ok((len, id)) => final(self).has(id) && len == clamp(mir_len(m)),
                    Err(e) => e is Graph,
                },
            },
            lower(syntax@) matches Ok(m) ==> built_as(m, old(self)@, final(self)@, then, r),
            lower(syntax@) matches Ok(m) ==> (merge_free(m, false) ==> final(self)@.len() <= old(self)@.len() + frag_size(m)
                && (old(self)@.len() + frag_size(m) <= u32::MAX ==> r is Ok)),
    {
        let mir = match Mir::try_from(syntax) {
            Ok(mir) => mir,
            Err(u) => {
                return Err(Error::Unsupported(u));
            },
        };
        match self.parse_mir(&mir, then, None) {
            Ok(found) => Ok(found),
            Err(e) => Err(Error::Graph(e)),
        }
    }

    /// Parse `source` as a regex (as UTF-8 text when `utf8` holds, as
    /// bytes otherwise) and add the nodes matching it, going to `then`
    /// after a match. Returns the priority of the pattern and the id of
    /// its first node. A pattern that does not parse gets the parser's
    /// message; one using a feature the graph cannot express is refused;
    /// in both cases the graph is not touched.
    pub fn regex(&mut self, utf8: bool, source: &str, then: NodeId) -> (r: Result<(usize, NodeId), Error>)
        requires
            old(self).well_formed(),
            old(self).has(then),
        ensures
            final(self).well_formed(),
            grows(final(self)@, old(self)@),
            match regex_syntax_parse(utf8, source@) {
                Err(msg) => (r matches Err(Error::Syntax(m)) && m@ == msg) && final(self)@ == old(self)@,
                Ok(tree) => match lower(tree) {
                    Err(u) => r == Err::<(usize, NodeId), Error>(Error::Unsupported(u)) && final(self)@ == old(self)@,
                    Ok(m) => match r {
                        Ok((len, id)) => final(self).has(id) && len == clamp(mir_len(m)),
                        Err(e) => e is Graph,
                    },
                },
            },
            regex_syntax_parse(utf8, source@) matches Ok(tree) ==> (lower(tree) matches Ok(m) ==> (merge_free(m, false)
                ==> final(self)@.len() <= old(self)@.len() + frag_size(m) && (old(self)@.len() + frag_size(m) <= u32::MAX ==> r is Ok))),
            regex_syntax_parse(utf8, source@) matches Ok(tree) ==> (lower(tree) matches Ok(m) ==> built_as(
                m,
                old(self)@,
                final(self)@,
                then,
                r,
            )),
    {
        match parse_regex(utf8, source) {
            Ok(syntax) => self.regex_from(syntax, then),
            Err(msg) => Err(Error::Syntax(msg)),
        }
    }
}

} // verus!
