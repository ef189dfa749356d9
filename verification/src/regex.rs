use vstd::prelude::*;

use crate::graph::regex::{encode_utf8, utf8_bytes};
use crate::pattern::{lemma_view_items, lemma_view_items_push, view_items, Pattern, PatternView, spec_intersect};
use crate::syntax::{CharClass, CharClassView, Symbol, Syntax, SyntaxView};

verus! {

broadcast use vstd::std_specs::vec::group_vec_axioms;

/// A sequence of patterns, each matching one byte.
#[derive(PartialEq, Eq, Hash, Debug)]
pub struct Regex {
    patterns: Vec<Pattern>,
}

impl View for Regex {
    type V = Seq<PatternView>;

    closed spec fn view(&self) -> Seq<PatternView> {
        view_items(self.patterns@)
    }
}

/// Repetition of a sub-expression.
#[derive(Clone, Copy, PartialEq, Eq, Debug)]
pub enum RepetitionFlag {
    ZeroOrMore,
    OneOrMore,
    ZeroOrOne,
}

/// Clone the first `n` patterns of a slice, member by member.
fn clone_prefix(v: &[Pattern], n: usize) -> (r: Vec<Pattern>)
    requires
        n <= v@.len(),
    ensures
        view_items(r@) == view_items(v@.take(n as int)),
{
    let mut out: Vec<Pattern> = Vec::new();
    let mut i: usize = 0;
    proof {
        lemma_view_items(v@);
    }
    while i < n
        invariant
            i <= n <= v@.len(),
            view_items(out@) == view_items(v@.take(i as int)),
        decreases n - i,
    {
        let item = v[i].clone();
        proof {
            lemma_view_items_push(out@, item);
            assert(v@.take(i + 1) == v@.take(i as int).push(v@[i as int]));
            lemma_view_items_push(v@.take(i as int), v@[i as int]);
        }
        out.push(item);
        i = i + 1;
    }
    out
}

/// Clone a slice of patterns, member by member.
fn clone_patterns(v: &[Pattern]) -> (r: Vec<Pattern>)
    ensures
        view_items(r@) == view_items(v@),
{
    let r = clone_prefix(v, v.len());
    proof {
        assert(v@.take(v@.len() as int) == v@);
    }
    r
}

impl Clone for Regex {
    fn clone(&self) -> (r: Self)
        ensures
            r@ == self@,
    {
        Regex { patterns: clone_patterns(self.patterns.as_slice()) }
    }
}

impl Default for Regex {
    fn default() -> (r: Self)
        ensures
            r@ == Seq::<PatternView>::empty(),
    {
        let r = Regex { patterns: Vec::new() };
        proof {
            lemma_view_items(r.patterns@);
        }
        r
    }
}

impl Regex {
    /// Number of patterns.
    pub fn len(&self) -> (r: usize)
        ensures
            r == self@.len(),
    {
        proof {
            lemma_view_items(self.patterns@);
        }
        self.patterns.len()
    }

    /// The regex matching exactly the given bytes, one pattern per byte.
    pub fn sequence(source: &[u8]) -> (r: Regex)
        ensures
            r@.len() == source@.len(),
            forall|i: int| 0 <= i < source@.len() ==> #[trigger] r@[i] == PatternView::Byte(source@[i]),
    {
        let mut patterns: Vec<Pattern> = Vec::new();
        let mut i: usize = 0;
        while i < source.len()
            invariant
                i <= source@.len(),
                patterns@.len() == i,
                forall|k: int| 0 <= k < i ==> #[trigger] patterns@[k] == Pattern::Byte(source@[k]),
            decreases source@.len() - i,
        {
            patterns.push(Pattern::Byte(source[i]));
            i = i + 1;
        }
        proof {
            lemma_view_items(patterns@);
        }
        Regex { patterns }
    }

    /// The patterns of the regex.
    pub fn patterns(&self) -> (r: &[Pattern])
        ensures
            view_items(r@) == self@,
    {
        self.patterns.as_slice()
    }

    /// The first pattern.
    pub fn first(&self) -> (r: &Pattern)
        requires
            self@.len() > 0,
        ensures
            r@ == self@[0],
    {
        proof {
            lemma_view_items(self.patterns@);
        }
        &self.patterns[0]
    }

    /// Mutable access to the first pattern.
    pub fn first_mut(&mut self) -> (r: &mut Pattern)
        requires
            old(self)@.len() > 0,
        ensures
            r@ == old(self)@[0],
            final(self)@ == old(self)@.update(0, final(r)@),
    {
        proof {
            lemma_view_items(self.patterns@);
            lemma_view_items_update(self.patterns@, 0);
        }
        &mut self.patterns[0]
    }

    /// Remove and return the first pattern.
    pub fn unshift(&mut self) -> (r: Pattern)
        requires
            old(self)@.len() > 0,
        ensures
            r@ == old(self)@[0],
            final(self)@ == old(self)@.drop_first(),
    {
        proof {
            lemma_view_items(self.patterns@);
        }
        let r = self.patterns.remove(0);
        proof {
            lemma_view_items(self.patterns@);
            assert(self@ =~= old(self)@.drop_first());
        }
        r
    }

    /// Append copies of the given patterns.
    pub fn extend(&mut self, patterns: &[Pattern])
        ensures
            final(self)@ == old(self)@ + view_items(patterns@),
    {
        let mut i: usize = 0;
        proof {
            lemma_view_items(patterns@);
            assert(old(self)@ + view_items(patterns@.take(0)) =~= old(self)@);
        }
        while i < patterns.len()
            invariant
                i <= patterns@.len(),
                self@ == old(self)@ + view_items(patterns@.take(i as int)),
            decreases patterns@.len() - i,
        {
            let item = patterns[i].clone();
            proof {
                lemma_view_items_push(self.patterns@, item);
                assert(patterns@.take(i + 1) == patterns@.take(i as int).push(patterns@[i as int]));
                lemma_view_items_push(patterns@.take(i as int), patterns@[i as int]);
            }
            self.patterns.push(item);
            i = i + 1;
        }
        proof {
            assert(patterns@.take(patterns@.len() as int) == patterns@);
        }
    }

    /// Of the first patterns of two regexes, the one contained in the
    /// other, when they differ.
    pub fn common_prefix(&self, other: &Regex) -> (r: Option<Pattern>)
        requires
            self@.len() > 0,
            other@.len() > 0,
            self@[0].wf(),
            other@[0].wf(),
        ensures
            match r {
                Some(p) => spec_intersect(self@[0], other@[0]) == Some(p@),
                None => spec_intersect(self@[0], other@[0]) is None,
            },
    {
        self.first().intersect(other.first())
    }

    /// Split off the longest prefix the two regexes share; both lose it,
    /// and it is returned when not empty.
    pub fn match_split(&mut self, other: &mut Regex) -> (r: Option<Regex>)
        ensures
            ({
                let n = common_prefix_len(old(self)@, old(other)@);
                &&& n <= old(self)@.len()
                &&& n <= old(other)@.len()
                &&& old(self)@.take(n as int) == old(other)@.take(n as int)
                &&& (n < old(self)@.len() && n < old(other)@.len() ==> old(self)@[n as int] != old(other)@[n as int])
                &&& match r {
                    Some(prefix) => n > 0 && prefix@ == old(self)@.take(n as int)
                        && final(self)@ == old(self)@.skip(n as int)
                        && final(other)@ == old(other)@.skip(n as int),
                    None => n == 0 && final(self)@ == old(self)@ && final(other)@ == old(other)@,
                }
            }),
    {
        proof {
            lemma_view_items(self.patterns@);
            lemma_view_items(other.patterns@);
        }
        let mut n: usize = 0;
        while n < self.patterns.len() && n < other.patterns.len() && self.patterns[n].same(&other.patterns[n])
            invariant
                n <= self@.len(),
                n <= other@.len(),
                self@ == old(self)@,
                other@ == old(other)@,
                self@.len() == self.patterns@.len(),
                other@.len() == other.patterns@.len(),
                forall|k: int| 0 <= k < self.patterns@.len() ==> #[trigger] self@[k] == self.patterns@[k]@,
                forall|k: int| 0 <= k < other.patterns@.len() ==> #[trigger] other@[k] == other.patterns@[k]@,
                forall|k: int| 0 <= k < n ==> self@[k] == #[trigger] other@[k],
            decreases self@.len() - n,
        {
            n = n + 1;
        }
        proof {
            lemma_common_prefix_len(self@, other@, n as nat);
            assert(self@.take(n as int) =~= other@.take(n as int));
        }
        if n == 0 {
            return None;
        }
        let prefix = clone_prefix(self.patterns.as_slice(), n);
        let mut i: usize = 0;
        let ghost s0 = self.patterns@;
        let ghost o0 = other.patterns@;
        while i < n
            invariant
                i <= n,
                n <= s0.len(),
                n <= o0.len(),
                self.patterns@ == s0.skip(i as int),
                other.patterns@ == o0.skip(i as int),
            decreases n - i,
        {
            self.patterns.remove(0);
            other.patterns.remove(0);
            proof {
                assert(self.patterns@ =~= s0.skip(i + 1));
                assert(other.patterns@ =~= o0.skip(i + 1));
            }
            i = i + 1;
        }
        proof {
            lemma_view_items(self.patterns@);
            lemma_view_items(other.patterns@);
            lemma_view_items(prefix@);
            lemma_view_items(s0);
            lemma_view_items(o0);
            lemma_view_items(s0.take(n as int));
            assert(view_items(s0.take(n as int)) =~= old(self)@.take(n as int));
            assert(self@ =~= old(self)@.skip(n as int));
            assert(other@ =~= old(other)@.skip(n as int));
        }
        Some(Regex { patterns: prefix })
    }
}

/// Whether a class can be read one byte at a time: every range of scalar
/// values starts in ASCII and ends there or at the last scalar value;
/// byte classes always can.
pub open spec fn ascii_or_bytes(c: CharClassView) -> bool {
    match c {
        CharClassView::Unicode(rs) => all_ascii(rs),
        CharClassView::Bytes(_) => true,
    }
}

/// Whether every range starts in ASCII and ends there or at the last
/// scalar value.
pub open spec fn all_ascii(rs: Seq<(char, char)>) -> bool {
    forall|i: int| 0 <= i < rs.len() ==> #[trigger] ascii_scalars(rs[i])
}

/// Whether a range of scalar values starts in ASCII and ends there or at
/// the last scalar value.
pub open spec fn ascii_scalars(r: (char, char)) -> bool {
    r.0 as u32 <= 127 && (r.1 as u32 <= 127 || r.1 as u32 == 0x10FFFF)
}

/// The pattern of an inclusive range of bytes: a single byte when both
/// ends meet.
pub open spec fn range_pattern(a: u8, b: u8) -> PatternView {
    if a == b {
        PatternView::Byte(a)
    } else {
        PatternView::Range(a, b)
    }
}

/// The last byte of an ASCII range: 0xFF for one that runs to the last
/// scalar value.
pub open spec fn ascii_end(c: char) -> u8 {
    if c as u32 == 0x10FFFF {
        0xFF
    } else {
        (c as u32) as u8
    }
}

/// The patterns of the ranges of a class, in order.
pub open spec fn class_patterns(c: CharClassView) -> Seq<PatternView> {
    match c {
        CharClassView::Unicode(rs) => Seq::new(rs.len(), |i: int| range_pattern((rs[i].0 as u32) as u8, ascii_end(rs[i].1))),
        CharClassView::Bytes(rs) => Seq::new(rs.len(), |i: int| range_pattern(rs[i].0, rs[i].1)),
    }
}

/// The patterns a piece of a pattern adds to a regex, or `None` when it
/// is no run of single bytes: the empty pattern adds nothing, a literal
/// its bytes, a class that can be read one byte at a time the pattern of
/// its only range or a class of its ranges.
pub open spec fn hir_patterns(s: SyntaxView) -> Option<Seq<PatternView>> {
    match s {
        SyntaxView::Empty => Some(Seq::empty()),
        SyntaxView::Literal(Symbol::Unicode(c)) => Some(utf8_bytes(c).map_values(|b: u8| PatternView::Byte(b))),
        SyntaxView::Literal(Symbol::Byte(b)) => Some(seq![PatternView::Byte(b)]),
        SyntaxView::Class(c) => if !ascii_or_bytes(c) {
            None
        } else {
            let p = class_patterns(c);
            if p.len() <= 1 {
                Some(p)
            } else {
                Some(seq![PatternView::Class(p)])
            }
        },
        _ => None,
    }
}

/// The pattern of a range of bytes.
fn range_of(a: u8, b: u8) -> (r: Pattern)
    ensures
        r@ == range_pattern(a, b),
{
    if a == b {
        Pattern::Byte(a)
    } else {
        Pattern::Range(a, b)
    }
}

/// The patterns of the ranges of a class that can be read one byte at a
/// time.
fn class_pattern_list(c: &CharClass) -> (r: Vec<Pattern>)
    requires
        ascii_or_bytes(c@),
    ensures
        view_items(r@) == class_patterns(c@),
{
    let mut out: Vec<Pattern> = Vec::new();
    let mut i: usize = 0;
    match c {
        CharClass::Unicode(v) => {
            while i < v.len()
                invariant
                    c@ == CharClassView::Unicode(v@),
                    ascii_or_bytes(c@),
                    i <= v@.len(),
                    view_items(out@) == class_patterns(c@).take(i as int),
                decreases v@.len() - i,
            {
                let (s, e) = v[i];
                proof {
                    assert(v@[i as int] == (s, e));
                }
                let lo = (s as u32) as u8;
                let hi = if e as u32 == 0x10FFFF {
                    0xFF
                } else {
                    (e as u32) as u8
                };
                let p = range_of(lo, hi);
                proof {
                    lemma_view_items_push(out@, p);
                    assert(class_patterns(c@).take(i + 1) =~= class_patterns(c@).take(i as int).push(p@));
                }
                out.push(p);
                i = i + 1;
            }
            proof {
                assert(class_patterns(c@).take(i as int) =~= class_patterns(c@));
            }
        },
        CharClass::Bytes(v) => {
            while i < v.len()
                invariant
                    c@ == CharClassView::Bytes(v@),
                    i <= v@.len(),
                    view_items(out@) == class_patterns(c@).take(i as int),
                decreases v@.len() - i,
            {
                let (s, e) = v[i];
                let p = range_of(s, e);
                proof {
                    lemma_view_items_push(out@, p);
                    assert(class_patterns(c@).take(i + 1) =~= class_patterns(c@).take(i as int).push(p@));
                }
                out.push(p);
                i = i + 1;
            }
            proof {
                assert(class_patterns(c@).take(i as int) =~= class_patterns(c@));
            }
        },
    }
    out
}

/// Whether every range starts in ASCII and ends there or at the last
/// scalar value.
fn all_ascii_scalars(v: &Vec<(char, char)>) -> (r: bool)
    ensures
        r == all_ascii(v@),
{
    let mut i: usize = 0;
    while i < v.len()
        invariant
            i <= v@.len(),
            forall|k: int| 0 <= k < i ==> #[trigger] ascii_scalars(v@[k]),
        decreases v@.len() - i,
    {
        let (s, e) = v[i];
        let start = s as u32;
        let end = e as u32;
        if !(start <= 127 && (end <= 127 || end == 0x10FFFF)) {
            proof {
                assert(v@[i as int] == (s, e));
                assert(!ascii_scalars(v@[i as int]));
            }
            return false;
        }
        i = i + 1;
    }
    true
}

/// Whether a class can be read one byte at a time.
fn is_ascii_or_bytes(c: &CharClass) -> (r: bool)
    ensures
        r == ascii_or_bytes(c@),
{
    match c {
        CharClass::Unicode(v) => {
            all_ascii_scalars(v)
        },
        CharClass::Bytes(_) => true,
    }
}

impl Regex {
    /// Append to `regex` what a piece of a pattern adds, if it is a run of
    /// single bytes (see `hir_patterns`), and say whether it was.
    pub fn from_hir_internal(hir: &Syntax, regex: &mut Regex) -> (r: bool)
        requires
            !(hir@ is WordBoundary),
            !(hir@ is Anchor),
        ensures
            match hir_patterns(hir@) {
                Some(p) => r && final(regex)@ == old(regex)@ + p,
                None => !r && final(regex)@ == old(regex)@,
            },
    {
        match hir {
            Syntax::Empty => {
                proof {
                    assert(old(regex)@ + Seq::<PatternView>::empty() =~= old(regex)@);
                }
                true
            },
            Syntax::Literal(Symbol::Unicode(c)) => {
                let bytes = encode_utf8(*c);
                let ghost want = utf8_bytes(*c).map_values(|b: u8| PatternView::Byte(b));
                let mut i: usize = 0;
                proof {
                    assert(old(regex)@ + want.take(0) =~= old(regex)@);
                }
                while i < bytes.len()
                    invariant
                        bytes@ == utf8_bytes(*c),
                        want == utf8_bytes(*c).map_values(|b: u8| PatternView::Byte(b)),
                        i <= bytes@.len(),
                        regex@ == old(regex)@ + want.take(i as int),
                    decreases bytes@.len() - i,
                {
                    let p = Pattern::Byte(bytes[i]);
                    proof {
                        lemma_view_items_push(regex.patterns@, p);
                        assert(want.take(i + 1) =~= want.take(i as int).push(p@));
                    }
                    regex.patterns.push(p);
                    i = i + 1;
                }
                proof {
                    assert(want.take(i as int) =~= want);
                }
                true
            },
            Syntax::Literal(Symbol::Byte(b)) => {
                let p = Pattern::Byte(*b);
                proof {
                    lemma_view_items_push(regex.patterns@, p);
                    assert(old(regex)@ + seq![p@] =~= old(regex)@.push(p@));
                }
                regex.patterns.push(p);
                true
            },
            Syntax::Class(c) => {
                if !is_ascii_or_bytes(c) {
                    return false;
                }
                let mut class = class_pattern_list(c);
                proof {
                    lemma_view_items(class@);
                }
                if class.len() == 0 {
                    proof {
                        assert(old(regex)@ + class_patterns(c@) =~= old(regex)@);
                    }
                } else if class.len() == 1 {
                    let p = class.remove(0);
                    proof {
                        lemma_view_items_push(regex.patterns@, p);
                        assert(old(regex)@ + class_patterns(c@) =~= old(regex)@.push(p@));
                    }
                    regex.patterns.push(p);
                } else {
                    let p = Pattern::Class(class);
                    proof {
                        lemma_view_items_push(regex.patterns@, p);
                        assert(old(regex)@ + seq![p@] =~= old(regex)@.push(p@));
                    }
                    regex.patterns.push(p);
                }
                true
            },
            _ => false,
        }
    }
}

proof fn lemma_view_items_update(s: Seq<Pattern>, i: int)
    requires
        0 <= i < s.len(),
    ensures
        forall|x: Pattern| #[trigger] view_items(s.update(i, x)) == view_items(s).update(i, x@),
{
    assert forall|x: Pattern| #[trigger] view_items(s.update(i, x)) == view_items(s).update(i, x@) by {
        lemma_view_items(s);
        lemma_view_items(s.update(i, x));
        assert(view_items(s.update(i, x)) =~= view_items(s).update(i, x@));
    }
}

/// Length of the longest common prefix of two pattern sequences.
pub open spec fn common_prefix_len(a: Seq<PatternView>, b: Seq<PatternView>) -> nat
    decreases a.len(),
{
    if a.len() == 0 || b.len() == 0 || a[0] != b[0] {
        0
    } else {
        1 + common_prefix_len(a.drop_first(), b.drop_first())
    }
}

/// Splitting off the shared prefix loses nothing: the prefix followed by
/// what is left of either regex gives that regex back.
pub proof fn law_match_split_rejoins(a: Seq<PatternView>, b: Seq<PatternView>)
    ensures
        ({
            let n = common_prefix_len(a, b) as int;
            &&& a.take(n) + a.skip(n) == a
            &&& a.take(n) + b.skip(n) == b
        }),
{
    lemma_common_prefix_bounds(a, b);
    let n = common_prefix_len(a, b) as int;
    assert(a.take(n) + a.skip(n) =~= a);
    assert(b.take(n) + b.skip(n) =~= b);
}

/// The shared prefix is a prefix of both.
proof fn lemma_common_prefix_bounds(a: Seq<PatternView>, b: Seq<PatternView>)
    ensures
        common_prefix_len(a, b) <= a.len(),
        common_prefix_len(a, b) <= b.len(),
        a.take(common_prefix_len(a, b) as int) == b.take(common_prefix_len(a, b) as int),
    decreases a.len(),
{
    if !(a.len() == 0 || b.len() == 0 || a[0] != b[0]) {
        lemma_common_prefix_bounds(a.drop_first(), b.drop_first());
        let n = common_prefix_len(a, b) as int;
        assert(a.take(n) =~= seq![a[0]] + a.drop_first().take(n - 1));
        assert(b.take(n) =~= seq![b[0]] + b.drop_first().take(n - 1));
    } else {
        assert(a.take(0) =~= b.take(0));
    }
}

proof fn lemma_common_prefix_len(a: Seq<PatternView>, b: Seq<PatternView>, n: nat)
    requires
        n <= a.len(),
        n <= b.len(),
        forall|k: int| 0 <= k < n ==> a[k] == #[trigger] b[k],
        n == a.len() || n == b.len() || a[n as int] != b[n as int],
    ensures
        common_prefix_len(a, b) == n,
    decreases n,
{
    if n > 0 {
        assert(a[0] == b[0]);
        lemma_common_prefix_len(a.drop_first(), b.drop_first(), (n - 1) as nat);
    }
}

} // verus!
