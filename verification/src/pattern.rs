use vstd::prelude::*;

use crate::text::{ascii_form, format_ascii, push_char};

verus! {

broadcast use vstd::std_specs::vec::group_vec_axioms;

/// A set of bytes, written as a single byte, an inclusive range of bytes,
/// or a class of several of them.
#[derive(PartialEq, Eq, Hash, Debug)]
pub enum Pattern {
    Byte(u8),
    Range(u8, u8),
    Class(Vec<Pattern>),
}

/// Mathematical model of a `Pattern`.
pub enum PatternView {
    Byte(u8),
    Range(u8, u8),
    Class(Seq<PatternView>),
}

/// Bytes of the inclusive range `a..=b`, ascending (empty when `a > b`).
pub open spec fn range_bytes(a: u8, b: u8) -> Seq<u8> {
    Seq::new(if a <= b { (b - a + 1) as nat } else { 0 }, |i: int| (a + i) as u8)
}

impl PatternView {
    /// The bytes the pattern stands for, in the order they are written out.
    pub open spec fn bytes(self) -> Seq<u8>
        decreases self,
    {
        match self {
            PatternView::Byte(b) => seq![b],
            PatternView::Range(a, b) => range_bytes(a, b),
            PatternView::Class(s) => class_bytes(s),
        }
    }
}

impl PatternView {
    /// Every range runs upwards (`a <= b`), at every depth.
    pub open spec fn structural(self) -> bool
        decreases self,
    {
        match self {
            PatternView::Byte(_) => true,
            PatternView::Range(a, b) => a <= b,
            PatternView::Class(s) => class_structural(s),
        }
    }

    /// A well-formed pattern: structural, and its bytes strictly ascending
    /// (so each byte occurs once and there are at most 256 of them).
    pub open spec fn wf(self) -> bool {
        self.structural() && strictly_ascending(self.bytes())
    }

    /// The length the pattern reports: one per byte, one per range
    /// whatever its bounds (`b - a` saturating at 0, plus 1).
    pub open spec fn spec_len(self) -> nat
        decreases self,
    {
        match self {
            PatternView::Byte(_) => 1,
            PatternView::Range(a, b) => if a <= b { (b - a + 1) as nat } else { 1 },
            PatternView::Class(s) => class_len(s),
        }
    }

    /// Cost of testing the pattern: 1 per byte, 2 per range.
    pub open spec fn spec_weight(self) -> nat
        decreases self,
    {
        match self {
            PatternView::Byte(_) => 1,
            PatternView::Range(_, _) => 2,
            PatternView::Class(s) => class_weight(s),
        }
    }

}

/// Strictly ascending bytes: sorted, each occurring once.
pub open spec fn strictly_ascending(s: Seq<u8>) -> bool {
    forall|i: int, j: int| 0 <= i < j < s.len() ==> s[i] < s[j]
}

pub open spec fn class_structural(s: Seq<PatternView>) -> bool
    decreases s,
{
    if s.len() == 0 {
        true
    } else {
        class_structural(s.drop_last()) && s.last().structural()
    }
}

pub open spec fn class_len(s: Seq<PatternView>) -> nat
    decreases s,
{
    if s.len() == 0 {
        0
    } else {
        class_len(s.drop_last()) + s.last().spec_len()
    }
}

pub open spec fn class_weight(s: Seq<PatternView>) -> nat
    decreases s,
{
    if s.len() == 0 {
        0
    } else {
        class_weight(s.drop_last()) + s.last().spec_weight()
    }
}

/// Bytes of a class: the bytes of its members, one after the other.
pub open spec fn class_bytes(s: Seq<PatternView>) -> Seq<u8>
    decreases s,
{
    if s.len() == 0 {
        Seq::empty()
    } else {
        class_bytes(s.drop_last()) + s.last().bytes()
    }
}

impl PatternView {
    /// A single byte, or a range of at least two bytes.
    pub open spec fn is_atom(self) -> bool {
        match self {
            PatternView::Byte(_) => true,
            PatternView::Range(a, b) => a < b,
            PatternView::Class(_) => false,
        }
    }

    /// First byte of an atom.
    pub open spec fn lo(self) -> u8 {
        match self {
            PatternView::Byte(b) => b,
            PatternView::Range(a, _) => a,
            PatternView::Class(_) => 0,
        }
    }

    /// Last byte of an atom.
    pub open spec fn hi(self) -> u8 {
        match self {
            PatternView::Byte(b) => b,
            PatternView::Range(_, b) => b,
            PatternView::Class(_) => 0,
        }
    }

    /// The form `Pattern::new` produces: one atom, or a class of at least
    /// two atoms where no atom continues the run of the one before it.
    pub open spec fn canonical(self) -> bool {
        match self {
            PatternView::Class(s) => {
                &&& s.len() >= 2
                &&& forall|i: int| 0 <= i < s.len() ==> #[trigger] s[i].is_atom()
                &&& forall|i: int| 0 <= i < s.len() - 1 ==> #[trigger] s[i].hi() + 1 != s[i + 1].lo()
            },
            _ => self.is_atom(),
        }
    }
}

/// No byte but the last may be 255 (a run could not continue past it).
pub open spec fn no_inner_max(s: Seq<u8>) -> bool {
    forall|i: int| 0 <= i < s.len() - 1 ==> #[trigger] s[i] != 255
}

pub proof fn lemma_class_bytes_step(s: Seq<PatternView>, i: int)
    requires
        0 <= i < s.len(),
    ensures
        class_bytes(s.take(i + 1)) == class_bytes(s.take(i)) + s[i].bytes(),
        class_len(s.take(i + 1)) == class_len(s.take(i)) + s[i].spec_len(),
        class_weight(s.take(i + 1)) == class_weight(s.take(i)) + s[i].spec_weight(),
{
    assert(s.take(i + 1).drop_last() == s.take(i));
}

pub proof fn lemma_class_prefix_le(s: Seq<PatternView>, i: int)
    requires
        0 <= i <= s.len(),
    ensures
        class_len(s.take(i)) <= class_len(s),
        class_weight(s.take(i)) <= class_weight(s),
        class_bytes(s.take(i)).len() <= class_bytes(s).len(),
    decreases s.len() - i,
{
    if i == s.len() {
        assert(s.take(i) == s);
    } else {
        lemma_class_prefix_le(s, i + 1);
        lemma_class_bytes_step(s, i);
    }
}

/// A class is structural exactly when each member is.
pub proof fn lemma_class_structural_members(s: Seq<PatternView>)
    ensures
        class_structural(s) <==> forall|k: int| 0 <= k < s.len() ==> #[trigger] s[k].structural(),
    decreases s.len(),
{
    if s.len() > 0 {
        lemma_class_structural_members(s.drop_last());
        if class_structural(s) {
            assert forall|k: int| 0 <= k < s.len() implies #[trigger] s[k].structural() by {
                if k < s.len() - 1 {
                    assert(s.drop_last()[k] == s[k]);
                }
            }
        }
        if forall|k: int| 0 <= k < s.len() ==> #[trigger] s[k].structural() {
            assert forall|k: int| 0 <= k < s.drop_last().len() implies #[trigger] s.drop_last()[k].structural() by {
                assert(s.drop_last()[k] == s[k]);
            }
            assert(s[s.len() - 1].structural());
        }
    }
}

/// A structural pattern reports as its length the number of its bytes,
/// and weighs at most two per byte.
pub proof fn lemma_len_is_byte_count(p: PatternView)
    requires
        p.structural(),
    ensures
        p.spec_len() == p.bytes().len(),
        p.spec_weight() <= 2 * p.bytes().len(),
    decreases p,
{
    match p {
        PatternView::Class(s) => {
            lemma_class_structural_members(s);
            lemma_class_len_is_byte_count(s, s.len() as int);
            assert(s.take(s.len() as int) == s);
        },
        _ => {},
    }
}

proof fn lemma_class_len_is_byte_count(s: Seq<PatternView>, i: int)
    requires
        0 <= i <= s.len(),
        forall|k: int| 0 <= k < s.len() ==> #[trigger] s[k].structural(),
    ensures
        class_len(s.take(i)) == class_bytes(s.take(i)).len(),
        class_weight(s.take(i)) <= 2 * class_bytes(s.take(i)).len(),
    decreases s, i,
{
    if i > 0 {
        lemma_class_len_is_byte_count(s, i - 1);
        lemma_class_bytes_step(s, i - 1);
        lemma_len_is_byte_count(s[i - 1]);
    } else {
        assert(s.take(0).len() == 0);
    }
}

/// A strictly ascending byte sequence has at most 256 bytes.
pub proof fn lemma_ascending_len(s: Seq<u8>)
    requires
        strictly_ascending(s),
    ensures
        s.len() <= 256,
{
    if s.len() > 0 {
        lemma_ascending_ge_index(s, s.len() - 1);
    }
}

proof fn lemma_ascending_ge_index(s: Seq<u8>, i: int)
    requires
        strictly_ascending(s),
        0 <= i < s.len(),
    ensures
        s[i] >= i,
    decreases i,
{
    if i > 0 {
        lemma_ascending_ge_index(s, i - 1);
    }
}

} // verus!
verus! {

impl View for Pattern {
    type V = PatternView;

    open spec fn view(&self) -> PatternView
        decreases self,
    {
        match self {
            Pattern::Byte(b) => PatternView::Byte(*b),
            Pattern::Range(a, b) => PatternView::Range(*a, *b),
            Pattern::Class(v) => PatternView::Class(view_items(v@)),
        }
    }
}

/// Models of the members of a class, in order.
pub open spec fn view_items(s: Seq<Pattern>) -> Seq<PatternView>
    decreases s,
{
    if s.len() == 0 {
        Seq::empty()
    } else {
        view_items(s.drop_last()).push(s.last()@)
    }
}

/// Iterator over the bytes of a `Pattern`.
pub struct Bytes {
    buf: Vec<u8>,
    len: u16,
    index: u16,
}

impl Bytes {
    #[verifier::type_invariant]
    spec fn inv(self) -> bool {
        self.index <= self.len && self.len <= self.buf@.len()
    }
}

impl View for Bytes {
    type V = Seq<u8>;

    /// The bytes still to come.
    closed spec fn view(&self) -> Seq<u8> {
        self.buf@.subrange(self.index as int, self.len as int)
    }
}

impl Bytes {
    /// The next byte, if any.
    pub fn next(&mut self) -> (r: Option<u8>)
        ensures
            match r {
                Some(b) => old(self)@.len() > 0 && b == old(self)@[0] && final(self)@ == old(self)@.drop_first(),
                None => old(self)@.len() == 0 && final(self)@ == old(self)@,
            },
    {
        proof {
            use_type_invariant(&*self);
        }
        if self.index < self.len {
            let byte = self.buf[self.index as usize];
            self.index = self.index + 1;
            proof {
                assert(self@ =~= old(self)@.drop_first());
            }
            Some(byte)
        } else {
            None
        }
    }
}

/// The models of a vector of patterns line up with its members.
pub proof fn lemma_view_items(s: Seq<Pattern>)
    ensures
        view_items(s).len() == s.len(),
        forall|i: int| 0 <= i < s.len() ==> #[trigger] view_items(s)[i] == s[i]@,
    decreases s.len(),
{
    if s.len() > 0 {
        lemma_view_items(s.drop_last());
        assert(view_items(s) == view_items(s.drop_last()).push(s.last()@));
        assert forall|i: int| 0 <= i < s.len() implies #[trigger] view_items(s)[i] == s[i]@ by {
            if i < s.len() - 1 {
                assert(s.drop_last()[i] == s[i]);
            }
        }
    }
}

pub proof fn lemma_view_items_push(s: Seq<Pattern>, x: Pattern)
    ensures
        view_items(s.push(x)) == view_items(s).push(x@),
{
    assert(s.push(x).drop_last() == s);
}

pub proof fn lemma_class_bytes_push(t: Seq<PatternView>, y: PatternView)
    ensures
        class_bytes(t.push(y)) == class_bytes(t) + y.bytes(),
{
    assert(t.push(y).drop_last() == t);
}

proof fn lemma_range_extend(a: u8, b: u8)
    requires
        a <= b < 255,
    ensures
        range_bytes(a, (b + 1) as u8) == range_bytes(a, b).push((b + 1) as u8),
{
    assert(range_bytes(a, (b + 1) as u8) =~= range_bytes(a, b).push((b + 1) as u8));
}

/// Only the last byte of a strictly ascending sequence can be 255.
pub proof fn lemma_ascending_no_inner_max(s: Seq<u8>)
    requires
        strictly_ascending(s),
    ensures
        no_inner_max(s),
{
    assert forall|i: int| 0 <= i < s.len() - 1 implies #[trigger] s[i] != 255 by {
        assert(s[i] < s[i + 1]);
    }
}

/// Whether every byte that `other` yields is among the bytes of `this`.
pub open spec fn spec_contains(this: PatternView, other: PatternView) -> bool {
    forall|i: int| 0 <= i < other.bytes().len() ==> this.bytes().contains(#[trigger] other.bytes()[i])
}

/// What `Pattern::intersect` returns: nothing for equal patterns, else
/// the one of the two that the other contains, if any.
pub open spec fn spec_intersect(a: PatternView, b: PatternView) -> Option<PatternView> {
    if a == b {
        None
    } else if spec_contains(a, b) {
        Some(b)
    } else if spec_contains(b, a) {
        Some(a)
    } else {
        None
    }
}

/// `r` holds exactly the bytes that `a` or `b` yields.
pub open spec fn union_of(r: PatternView, a: PatternView, b: PatternView) -> bool {
    forall|x: u8| #[trigger] r.bytes().contains(x) <==> (a.bytes().contains(x) || b.bytes().contains(x))
}

/// `r` holds exactly the bytes that `a` yields and `b` does not.
pub open spec fn difference_of(r: PatternView, a: PatternView, b: PatternView) -> bool {
    forall|x: u8| #[trigger] r.bytes().contains(x) <==> (a.bytes().contains(x) && !b.bytes().contains(x))
}

/// `r` holds exactly the bytes that `p` does not hold.
pub open spec fn negation_of(r: PatternView, p: PatternView) -> bool {
    forall|x: u8| #[trigger] r.bytes().contains(x) <==> !p.bytes().contains(x)
}

/// A run of atoms where no atom continues the run of the one before it.
pub open spec fn atoms_canonical(s: Seq<PatternView>) -> bool {
    &&& s.len() >= 1
    &&& forall|i: int| 0 <= i < s.len() ==> #[trigger] s[i].is_atom()
    &&& forall|i: int| 0 <= i < s.len() - 1 ==> #[trigger] s[i].hi() + 1 != s[i + 1].lo()
}

/// An atom holds a run of consecutive bytes from its first to its last.
proof fn lemma_atom_bytes(a: PatternView)
    requires
        a.is_atom(),
    ensures
        a.bytes().len() >= 1,
        a.bytes()[0] == a.lo(),
        a.bytes().last() == a.hi(),
        (a is Byte) <==> a.bytes().len() == 1,
        forall|i: int| 0 <= i < a.bytes().len() - 1 ==> #[trigger] a.bytes()[i + 1] == a.bytes()[i] + 1,
{
    if let PatternView::Range(x, y) = a {
        let bs = a.bytes();
        assert(bs.len() == y - x + 1);
        assert forall|i: int| 0 <= i < bs.len() implies #[trigger] bs[i] == x + i by {}
        assert(bs[bs.len() - 1] == y);
    }
}

/// Atoms with the same bytes are the same atom.
proof fn lemma_atom_unique(a: PatternView, b: PatternView)
    requires
        a.is_atom(),
        b.is_atom(),
        a.bytes() == b.bytes(),
    ensures
        a == b,
{
    lemma_atom_bytes(a);
    lemma_atom_bytes(b);
}

/// A run of atoms holds at least one byte and ends with the last byte of
/// its last atom.
proof fn lemma_atoms_last(s: Seq<PatternView>)
    requires
        atoms_canonical(s),
    ensures
        class_bytes(s).len() >= 1,
        class_bytes(s).last() == s.last().hi(),
{
    lemma_atom_bytes(s.last());
}

/// The atoms before the last of a run of atoms are a run of atoms too.
proof fn lemma_atoms_drop_last(s: Seq<PatternView>)
    requires
        atoms_canonical(s),
        s.len() >= 2,
    ensures
        atoms_canonical(s.drop_last()),
{
    let d = s.drop_last();
    assert forall|i: int| 0 <= i < d.len() implies #[trigger] d[i].is_atom() by {
        assert(d[i] == s[i]);
    }
    assert forall|i: int| 0 <= i < d.len() - 1 implies #[trigger] d[i].hi() + 1 != d[i + 1].lo() by {
        assert(d[i] == s[i] && d[i + 1] == s[i + 1]);
    }
}

/// Runs of atoms where no atom continues the one before it are fixed by
/// their bytes: the last atom is the maximal run of consecutive bytes at
/// the end.
proof fn lemma_atoms_unique(s: Seq<PatternView>, t: Seq<PatternView>)
    requires
        atoms_canonical(s),
        atoms_canonical(t),
        class_bytes(s) == class_bytes(t),
    ensures
        s == t,
    decreases s.len() + t.len(),
{
    let bs = class_bytes(s);
    let ls = s.last();
    let lt = t.last();
    let ps = class_bytes(s.drop_last());
    let pt = class_bytes(t.drop_last());
    assert(bs == ps + ls.bytes());
    assert(bs == pt + lt.bytes());
    lemma_atom_bytes(ls);
    lemma_atom_bytes(lt);
    let n = bs.len() as int;
    let a = ls.bytes().len() as int;
    let b = lt.bytes().len() as int;
    if a < b {
        if s.len() == 1 {
            assert(s.drop_last().len() == 0);
            assert(ps.len() == 0);
        }
        assert(s.len() >= 2);
        lemma_atoms_drop_last(s);
        lemma_atoms_last(s.drop_last());
        let q = n - a - 1;
        assert(n - b <= q);
        assert(lt.bytes()[q - (n - b) + 1] == lt.bytes()[q - (n - b)] + 1);
        assert(bs[q + 1] == lt.bytes()[q - (n - b) + 1]);
        assert(bs[q] == lt.bytes()[q - (n - b)]);
        assert(bs[q + 1] == ls.bytes()[0]);
        assert(bs[q] == ps.last());
        assert(s.drop_last().last() == s[s.len() - 2]);
        assert(s[s.len() - 2].hi() + 1 != s[s.len() - 1].lo());
    }
    if b < a {
        if t.len() == 1 {
            assert(t.drop_last().len() == 0);
            assert(pt.len() == 0);
        }
        assert(t.len() >= 2);
        lemma_atoms_drop_last(t);
        lemma_atoms_last(t.drop_last());
        let q = n - b - 1;
        assert(n - a <= q);
        assert(ls.bytes()[q - (n - a) + 1] == ls.bytes()[q - (n - a)] + 1);
        assert(bs[q + 1] == ls.bytes()[q - (n - a) + 1]);
        assert(bs[q] == ls.bytes()[q - (n - a)]);
        assert(bs[q + 1] == lt.bytes()[0]);
        assert(bs[q] == pt.last());
        assert(t.drop_last().last() == t[t.len() - 2]);
        assert(t[t.len() - 2].hi() + 1 != t[t.len() - 1].lo());
    }
    assert(a == b);
    assert(ls.bytes() =~= bs.subrange(n - a, n));
    assert(lt.bytes() =~= bs.subrange(n - b, n));
    lemma_atom_unique(ls, lt);
    assert(ps =~= bs.subrange(0, n - a));
    assert(pt =~= bs.subrange(0, n - b));
    if s.len() == 1 || t.len() == 1 {
        if s.len() >= 2 {
            lemma_atoms_drop_last(s);
            lemma_atoms_last(s.drop_last());
        }
        if t.len() >= 2 {
            lemma_atoms_drop_last(t);
            lemma_atoms_last(t.drop_last());
        }
        assert(s.len() == 1 && t.len() == 1);
        assert(s =~= t);
    } else {
        lemma_atoms_drop_last(s);
        lemma_atoms_drop_last(t);
        lemma_atoms_unique(s.drop_last(), t.drop_last());
        assert(s =~= t.drop_last().push(lt));
        assert(t =~= t.drop_last().push(lt));
    }
}

/// A canonical pattern is fixed by its bytes.
pub proof fn lemma_canonical_unique(p: PatternView, q: PatternView)
    requires
        p.canonical(),
        q.canonical(),
        p.bytes() == q.bytes(),
    ensures
        p == q,
{
    let sp = match p {
        PatternView::Class(s) => s,
        _ => seq![p],
    };
    let sq = match q {
        PatternView::Class(s) => s,
        _ => seq![q],
    };
    if !(p is Class) {
        assert(seq![p].drop_last() =~= Seq::<PatternView>::empty());
        assert(class_bytes(Seq::<PatternView>::empty()) =~= Seq::<u8>::empty());
        assert(seq![p].last() == p);
        assert(class_bytes(sp) == class_bytes(Seq::<PatternView>::empty()) + p.bytes());
        assert(class_bytes(sp) =~= p.bytes());
    }
    if !(q is Class) {
        assert(seq![q].drop_last() =~= Seq::<PatternView>::empty());
        assert(class_bytes(Seq::<PatternView>::empty()) =~= Seq::<u8>::empty());
        assert(seq![q].last() == q);
        assert(class_bytes(sq) == class_bytes(Seq::<PatternView>::empty()) + q.bytes());
        assert(class_bytes(sq) =~= q.bytes());
    }
    assert(atoms_canonical(sp));
    assert(atoms_canonical(sq));
    lemma_atoms_unique(sp, sq);
}

/// Strictly ascending bytes are fixed by which bytes they hold.
pub proof fn lemma_ascending_same(s: Seq<u8>, t: Seq<u8>)
    requires
        strictly_ascending(s),
        strictly_ascending(t),
        forall|x: u8| s.contains(x) <==> t.contains(x),
    ensures
        s == t,
    decreases s.len(),
{
    if s.len() == 0 {
        if t.len() > 0 {
            assert(t.contains(t[0]));
        }
        assert(s =~= t);
    } else {
        assert(s.contains(s[0]));
        assert(t.len() > 0);
        assert(t.contains(t[0]));
        let j = choose|j: int| 0 <= j < t.len() && t[j] == s[0];
        let i = choose|i: int| 0 <= i < s.len() && s[i] == t[0];
        if j > 0 {
            assert(t[0] < t[j]);
            if i > 0 {
                assert(s[0] < s[i]);
            }
        }
        assert(s[0] == t[0]);
        let s1 = s.drop_first();
        let t1 = t.drop_first();
        assert forall|x: u8| s1.contains(x) <==> t1.contains(x) by {
            if s1.contains(x) {
                let k = choose|k: int| 0 <= k < s1.len() && s1[k] == x;
                assert(s[k + 1] == x && s[0] < s[k + 1]);
                assert(t.contains(x));
                let m = choose|m: int| 0 <= m < t.len() && t[m] == x;
                assert(m != 0);
                assert(t1[m - 1] == x);
            }
            if t1.contains(x) {
                let k = choose|k: int| 0 <= k < t1.len() && t1[k] == x;
                assert(t[k + 1] == x && t[0] < t[k + 1]);
                assert(s.contains(x));
                let m = choose|m: int| 0 <= m < s.len() && s[m] == x;
                assert(m != 0);
                assert(s1[m - 1] == x);
            }
        }
        assert(strictly_ascending(s1)) by {
            assert forall|a: int, b: int| 0 <= a < b < s1.len() implies s1[a] < s1[b] by {
                assert(s1[a] == s[a + 1] && s1[b] == s[b + 1]);
            }
        }
        assert(strictly_ascending(t1)) by {
            assert forall|a: int, b: int| 0 <= a < b < t1.len() implies t1[a] < t1[b] by {
                assert(t1[a] == t[a + 1] && t1[b] == t[b + 1]);
            }
        }
        lemma_ascending_same(s1, t1);
        assert(s =~= seq![s[0]] + s1);
        assert(t =~= seq![t[0]] + t1);
    }
}

/// Negating a pattern twice gives back its bytes, in the same order, and
/// a canonical pattern gives back the very same pattern: the canonical
/// form of its bytes, which is what `Pattern::new` makes of them. For
/// every well-formed pattern that does not hold all 256 bytes (negating
/// such a pattern has no bytes to make a pattern of).
pub proof fn law_negate_twice(p: PatternView, q: PatternView, r: PatternView)
    requires
        p.wf(),
        q.wf(),
        r.wf(),
        negation_of(q, p),
        negation_of(r, q),
    ensures
        forall|x: u8| #[trigger] r.bytes().contains(x) <==> p.bytes().contains(x),
        r.bytes() == p.bytes(),
        r.canonical() ==> forall|c: PatternView| #[trigger] c.canonical() && c.bytes() == p.bytes() ==> r == c,
{
    lemma_ascending_same(r.bytes(), p.bytes());
    assert forall|c: PatternView| #[trigger] c.canonical() && c.bytes() == p.bytes() && r.canonical() implies r == c by {
        lemma_canonical_unique(r, c);
    }
}

/// What `Pattern::intersect` gives is contained in both patterns: every
/// byte it yields is among the bytes of each.
pub proof fn law_intersect_within_both(a: PatternView, b: PatternView)
    requires
        a.wf(),
        b.wf(),
        spec_intersect(a, b) is Some,
    ensures
        spec_contains(a, spec_intersect(a, b)->Some_0),
        spec_contains(b, spec_intersect(a, b)->Some_0),
{
    let c = spec_intersect(a, b)->Some_0;
    assert forall|i: int| 0 <= i < c.bytes().len() implies c.bytes().contains(#[trigger] c.bytes()[i]) by {
    }
}

/// Subtracting a pattern from the union with it gives back the bytes of
/// the first pattern that the second does not hold.
pub proof fn law_combine_then_subtract(a: PatternView, b: PatternView, c: PatternView, d: PatternView)
    requires
        a.wf(),
        b.wf(),
        c.wf(),
        union_of(c, a, b),
        difference_of(d, c, b),
    ensures
        forall|x: u8| #[trigger] d.bytes().contains(x) <==> (a.bytes().contains(x) && !b.bytes().contains(x)),
{
}

/// A well-formed pattern holds its bytes strictly ascending, at most 256
/// of them, as many as its reported length.
pub proof fn lemma_bytes_ascending(p: PatternView)
    requires
        p.wf(),
    ensures
        strictly_ascending(p.bytes()),
        p.bytes().len() <= 256,
        p.spec_len() == p.bytes().len(),
        no_inner_max(p.bytes()),
{
    lemma_ascending_len(p.bytes());
    lemma_len_is_byte_count(p);
    lemma_ascending_no_inner_max(p.bytes());
}

/// Binary search for `x` in strictly ascending bytes.
fn ascending_contains(s: &Vec<u8>, x: u8) -> (r: bool)
    requires
        strictly_ascending(s@),
    ensures
        r == s@.contains(x),
{
    let mut lo: usize = 0;
    let mut hi: usize = s.len();
    while lo < hi
        invariant
            0 <= lo <= hi <= s@.len(),
            strictly_ascending(s@),
            forall|k: int| 0 <= k < lo ==> #[trigger] s@[k] < x,
            forall|k: int| hi <= k < s@.len() ==> #[trigger] s@[k] > x,
        decreases hi - lo,
    {
        let mid = lo + (hi - lo) / 2;
        if s[mid] == x {
            return true;
        } else if s[mid] < x {
            lo = mid + 1;
        } else {
            hi = mid;
        }
    }
    proof {
        if s@.contains(x) {
            let k = choose|k: int| 0 <= k < s@.len() && s@[k] == x;
            assert(s@[k] == x);
        }
    }
    false
}

/// Bytes present in either of two strictly ascending sequences, ascending.
fn merge_ascending(a: &Vec<u8>, b: &Vec<u8>) -> (r: Vec<u8>)
    requires
        strictly_ascending(a@),
        strictly_ascending(b@),
    ensures
        strictly_ascending(r@),
        forall|x: u8| r@.contains(x) <==> (a@.contains(x) || b@.contains(x)),
{
    broadcast use vstd::seq_lib::lemma_seq_contains_after_push;

    let mut out: Vec<u8> = Vec::new();
    let mut i: usize = 0;
    let mut j: usize = 0;
    while i < a.len() || j < b.len()
        invariant
            i <= a@.len(),
            j <= b@.len(),
            strictly_ascending(a@),
            strictly_ascending(b@),
            strictly_ascending(out@),
            forall|k: int| 0 <= k < out@.len() ==> (i < a@.len() ==> #[trigger] out@[k] < a@[i as int]),
            forall|k: int| 0 <= k < out@.len() ==> (j < b@.len() ==> #[trigger] out@[k] < b@[j as int]),
            forall|x: u8| out@.contains(x) <==> (a@.take(i as int).contains(x) || b@.take(j as int).contains(x)),
        decreases a@.len() - i + b@.len() - j,
    {
        let ghost old_out = out@;
        if j >= b.len() || (i < a.len() && a[i] < b[j]) {
            let x = a[i];
            out.push(x);
            proof {
                assert(out@ == old_out.push(x));
                assert(a@.take(i + 1) == a@.take(i as int).push(x));
                assert forall|y: u8| out@.contains(y) <==> (a@.take(i + 1).contains(y) || b@.take(j as int).contains(y)) by {
                    vstd::seq_lib::lemma_seq_contains_after_push(old_out, x, y);
                    vstd::seq_lib::lemma_seq_contains_after_push(a@.take(i as int), x, y);
                }
            }
            i = i + 1;
        } else if i >= a.len() || b[j] < a[i] {
            let x = b[j];
            out.push(x);
            proof {
                assert(out@ == old_out.push(x));
                assert(b@.take(j + 1) == b@.take(j as int).push(x));
                assert forall|y: u8| out@.contains(y) <==> (a@.take(i as int).contains(y) || b@.take(j + 1).contains(y)) by {
                    vstd::seq_lib::lemma_seq_contains_after_push(old_out, x, y);
                    vstd::seq_lib::lemma_seq_contains_after_push(b@.take(j as int), x, y);
                }
            }
            j = j + 1;
        } else {
            let x = a[i];
            out.push(x);
            proof {
                assert(out@ == old_out.push(x));
                assert(a@.take(i + 1) == a@.take(i as int).push(x));
                assert(b@.take(j + 1) == b@.take(j as int).push(x));
                assert forall|y: u8| out@.contains(y) <==> (a@.take(i + 1).contains(y) || b@.take(j + 1).contains(y)) by {
                    vstd::seq_lib::lemma_seq_contains_after_push(old_out, x, y);
                    vstd::seq_lib::lemma_seq_contains_after_push(a@.take(i as int), x, y);
                    vstd::seq_lib::lemma_seq_contains_after_push(b@.take(j as int), x, y);
                }
            }
            i = i + 1;
            j = j + 1;
        }
    }
    proof {
        assert(a@.take(i as int) == a@);
        assert(b@.take(j as int) == b@);
    }
    out
}

/// Bytes of `a` absent from `b`, for strictly ascending sequences; ascending.
fn diff_ascending(a: &Vec<u8>, b: &Vec<u8>) -> (r: Vec<u8>)
    requires
        strictly_ascending(a@),
        strictly_ascending(b@),
    ensures
        strictly_ascending(r@),
        forall|x: u8| r@.contains(x) <==> (a@.contains(x) && !b@.contains(x)),
{
    broadcast use vstd::seq_lib::lemma_seq_contains_after_push;

    let mut out: Vec<u8> = Vec::new();
    let mut i: usize = 0;
    let mut j: usize = 0;
    while i < a.len()
        invariant
            i <= a@.len(),
            j <= b@.len(),
            strictly_ascending(a@),
            strictly_ascending(b@),
            strictly_ascending(out@),
            forall|k: int| 0 <= k < out@.len() ==> (i < a@.len() ==> #[trigger] out@[k] < a@[i as int]),
            forall|k: int| 0 <= k < j ==> (i < a@.len() ==> #[trigger] b@[k] < a@[i as int]),
            forall|x: u8| out@.contains(x) <==> (a@.take(i as int).contains(x) && !b@.contains(x)),
        decreases a@.len() - i + b@.len() - j,
    {
        let ghost old_out = out@;
        if j >= b.len() || a[i] < b[j] {
            let x = a[i];
            proof {
                if b@.contains(x) {
                    let k = choose|k: int| 0 <= k < b@.len() && b@[k] == x;
                    if k >= j {
                        assert(b@[j as int] <= b@[k]);
                    }
                }
            }
            out.push(x);
            proof {
                assert(out@ == old_out.push(x));
                assert(a@.take(i + 1) == a@.take(i as int).push(x));
                assert forall|y: u8| out@.contains(y) <==> (a@.take(i + 1).contains(y) && !b@.contains(y)) by {
                    vstd::seq_lib::lemma_seq_contains_after_push(old_out, x, y);
                    vstd::seq_lib::lemma_seq_contains_after_push(a@.take(i as int), x, y);
                }
            }
            i = i + 1;
        } else if a[i] == b[j] {
            proof {
                assert(a@.take(i + 1) == a@.take(i as int).push(a@[i as int]));
                assert(b@[j as int] == a@[i as int]);
                assert(b@.contains(a@[i as int]));
                assert forall|y: u8| out@.contains(y) <==> (a@.take(i + 1).contains(y) && !b@.contains(y)) by {
                    vstd::seq_lib::lemma_seq_contains_after_push(a@.take(i as int), a@[i as int], y);
                }
            }
            i = i + 1;
            j = j + 1;
        } else {
            j = j + 1;
        }
    }
    proof {
        assert(a@.take(i as int) == a@);
    }
    out
}

/// The bytes `0..=255`, ascending.
fn all_bytes() -> (r: Vec<u8>)
    ensures
        strictly_ascending(r@),
        r@.len() == 256,
        forall|x: u8| r@.contains(x),
{
    let mut out: Vec<u8> = Vec::new();
    let mut x: u16 = 0;
    while x < 256
        invariant
            x <= 256,
            out@.len() == x,
            forall|k: int| 0 <= k < x ==> #[trigger] out@[k] == k,
        decreases 256 - x,
    {
        out.push(x as u8);
        x = x + 1;
    }
    proof {
        assert forall|y: u8| out@.contains(y) by {
            assert(out@[y as int] == y);
        }
    }
    out
}

/// The atom covering the run `first..=last`.
fn run(first: u8, last: u8) -> (r: Pattern)
    requires
        first <= last,
    ensures
        r@.is_atom(),
        r@.lo() == first,
        r@.hi() == last,
        r@.bytes() == range_bytes(first, last),
        r@.structural(),
{
    if first == last {
        let r = Pattern::Byte(first);
        assert(r@.bytes() =~= range_bytes(first, last));
        r
    } else {
        Pattern::Range(first, last)
    }
}

impl Pattern {
    /// Build a pattern from a non-empty sequence of bytes: each maximal
    /// run of consecutive ascending bytes becomes a byte or a range, and
    /// several runs become a class.
    pub fn new(bytes: &[u8]) -> (r: Pattern)
        requires
            bytes@.len() > 0,
            no_inner_max(bytes@),
        ensures
            r@.canonical(),
            r@.structural(),
            r@.bytes() == bytes@,
    {
        let mut first: u8 = bytes[0];
        let mut last: u8 = first;
        let mut class: Vec<Pattern> = Vec::new();
        let mut i: usize = 1;
        proof {
            assert(range_bytes(first, last) =~= bytes@.take(1));
            assert(class_bytes(view_items(class@)) =~= Seq::<u8>::empty());
        }
        while i < bytes.len()
            invariant
                1 <= i <= bytes@.len(),
                no_inner_max(bytes@),
                first <= last,
                last == bytes@[i - 1],
                class_bytes(view_items(class@)) + range_bytes(first, last) == bytes@.take(i as int),
                view_items(class@).len() == class@.len(),
                forall|k: int| 0 <= k < class@.len() ==> #[trigger] view_items(class@)[k].is_atom(),
                forall|k: int| 0 <= k < class@.len() ==> #[trigger] view_items(class@)[k].structural(),
                forall|k: int| 0 <= k < class@.len() - 1 ==> #[trigger] view_items(class@)[k].hi() + 1
                    != view_items(class@)[k + 1].lo(),
                class@.len() > 0 ==> view_items(class@)[class@.len() - 1].hi() + 1 != first,
            decreases bytes@.len() - i,
        {
            let byte = bytes[i];
            proof {
                assert(bytes@[i - 1] != 255);
                assert(bytes@.take(i + 1) == bytes@.take(i as int).push(byte));
            }
            if byte == last + 1 {
                proof {
                    lemma_range_extend(first, last);
                }
                last = byte;
            } else {
                let atom = run(first, last);
                proof {
                    lemma_view_items_push(class@, atom);
                    lemma_class_bytes_push(view_items(class@), atom@);
                    assert(range_bytes(byte, byte) =~= seq![byte]);
                }
                class.push(atom);
                first = byte;
                last = byte;
            }
            i = i + 1;
        }
        let atom = run(first, last);
        proof {
            lemma_view_items_push(class@, atom);
            lemma_class_bytes_push(view_items(class@), atom@);
            assert(bytes@.take(bytes@.len() as int) == bytes@);
        }
        class.push(atom);
        if class.len() == 1 {
            let ghost before = class@;
            let r = class.remove(0);
            proof {
                assert(before =~= Seq::<Pattern>::empty().push(r));
                lemma_view_items_push(Seq::<Pattern>::empty(), r);
                lemma_class_bytes_push(Seq::<PatternView>::empty(), r@);
                assert(view_items(Seq::<Pattern>::empty()) =~= Seq::<PatternView>::empty());
                assert(class_bytes(Seq::<PatternView>::empty()) =~= Seq::<u8>::empty());
            }
            r
        } else {
            let r = Pattern::Class(class);
            proof {
                lemma_class_structural_members(view_items(class@));
            }
            r
        }
    }

    /// Append the bytes of the pattern to `target`; returns the pattern's
    /// reported length.
    fn write_bytes(&self, target: &mut Vec<u8>) -> (r: usize)
        requires
            self@.spec_len() <= usize::MAX,
        ensures
            final(target)@ == old(target)@ + self@.bytes(),
            r == self@.spec_len(),
        decreases self,
    {
        let len = self.len();
        match self {
            Pattern::Byte(b) => {
                target.push(*b);
            },
            Pattern::Range(a, b) => {
                let ghost start = target@;
                let mut x: u16 = *a as u16;
                while x <= *b as u16
                    invariant
                        *a as u16 <= x <= *b as u16 + 1 || (*a > *b && x == *a as u16),
                        target@ == start + range_bytes(*a, *b).take(x - *a),
                    decreases *b as u16 + 1 - x,
                {
                    proof {
                        assert(range_bytes(*a, *b).take(x - *a + 1) =~= range_bytes(*a, *b).take(x
                            - *a).push(x as u8));
                    }
                    target.push(x as u8);
                    x = x + 1;
                }
                proof {
                    if *a <= *b {
                        assert(range_bytes(*a, *b).take(*b - *a + 1) == range_bytes(*a, *b));
                    } else {
                        assert(range_bytes(*a, *b).take(0) =~= range_bytes(*a, *b));
                    }
                }
            },
            Pattern::Class(pats) => {
                let ghost items = view_items(pats@);
                let ghost start = target@;
                proof {
                    lemma_view_items(pats@);
                    assert(class_bytes(items.take(0)) =~= Seq::<u8>::empty());
                    assert(start + Seq::<u8>::empty() == start);
                }
                let mut i: usize = 0;
                while i < pats.len()
                    invariant
                        i <= pats.len(),
                        *self == Pattern::Class(*pats),
                        items == view_items(pats@),
                        items.len() == pats.len(),
                        forall|k: int| 0 <= k < pats.len() ==> #[trigger] items[k] == pats[k]@,
                        class_len(items) <= usize::MAX,
                        target@ == start + class_bytes(items.take(i as int)),
                    decreases pats.len() - i,
                {
                    proof {
                        vstd::std_specs::vec::axiom_vec_index_decreases(*pats, i as int);
                        assert(decreases_to!(*self => (*self)->Class_0));
                        lemma_class_bytes_step(items, i as int);
                        lemma_class_prefix_le(items, i + 1);
                    }
                    pats[i].write_bytes(target);
                    i = i + 1;
                }
                proof {
                    assert(items.take(i as int) == items);
                }
            },
        }
        len
    }

    /// Iterator over the bytes of the pattern.
    pub fn bytes(&self) -> (r: Bytes)
        requires
            self@.structural(),
            self@.bytes().len() <= 256,
        ensures
            r@ == self@.bytes(),
    {
        proof {
            lemma_len_is_byte_count(self@);
        }
        let mut buf: Vec<u8> = Vec::new();
        let n = self.write_bytes(&mut buf);
        let len: u16 = n as u16;
        proof {
            assert(buf@ =~= self@.bytes());
        }
        Bytes { buf, len, index: 0 }
    }

    /// Structural equality of two patterns.
    pub fn same(&self, other: &Pattern) -> (r: bool)
        ensures
            r == (self@ == other@),
        decreases self,
    {
        match (self, other) {
            (Pattern::Byte(a), Pattern::Byte(b)) => *a == *b,
            (Pattern::Range(a1, b1), Pattern::Range(a2, b2)) => *a1 == *a2 && *b1 == *b2,
            (Pattern::Class(x), Pattern::Class(y)) => {
                proof {
                    lemma_view_items(x@);
                    lemma_view_items(y@);
                }
                if x.len() != y.len() {
                    return false;
                }
                let mut i: usize = 0;
                while i < x.len()
                    invariant
                        i <= x.len(),
                        x.len() == y.len(),
                        *self == Pattern::Class(*x),
                        *other == Pattern::Class(*y),
                        view_items(x@).len() == x.len(),
                        view_items(y@).len() == y.len(),
                        forall|k: int| 0 <= k < x.len() ==> #[trigger] view_items(x@)[k] == x[k]@,
                        forall|k: int| 0 <= k < y.len() ==> #[trigger] view_items(y@)[k] == y[k]@,
                        forall|k: int| 0 <= k < i ==> x[k]@ == #[trigger] y[k]@,
                    decreases x.len() - i,
                {
                    proof {
                        vstd::std_specs::vec::axiom_vec_index_decreases(*x, i as int);
                        assert(decreases_to!(*self => (*self)->Class_0));
                    }
                    if !x[i].same(&y[i]) {
                        proof {
                            assert(view_items(x@)[i as int] != view_items(y@)[i as int]);
                            assert(self@ == PatternView::Class(view_items(x@)));
                            assert(other@ == PatternView::Class(view_items(y@)));
                        }
                        return false;
                    }
                    i = i + 1;
                }
                proof {
                    assert(view_items(x@) =~= view_items(y@));
                }
                true
            },
            _ => false,
        }
    }

    /// The bytes that iterating over the pattern yields, collected.
    fn collect_bytes(&self) -> (r: Vec<u8>)
        requires
            self@.structural(),
            self@.bytes().len() <= 256,
        ensures
            r@ == self@.bytes(),
    {
        let mut it = self.bytes();
        let mut out: Vec<u8> = Vec::new();
        loop
            invariant
                out@ + it@ == self@.bytes(),
            decreases it@.len(),
        {
            let ghost before = it@;
            match it.next() {
                Some(b) => {
                    proof {
                        assert(out@.push(b) + it@ =~= out@ + before);
                    }
                    out.push(b);
                },
                None => {
                    proof {
                        assert(out@ + it@ =~= out@);
                    }
                    return out;
                },
            }
        }
    }

    /// Whether every byte that `other` yields is among the bytes of this pattern.
    pub fn contains(&self, other: &Pattern) -> (r: bool)
        requires
            self@.wf(),
            other@.structural(),
            other@.bytes().len() <= 256,
        ensures
            r == spec_contains(self@, other@),
    {
        proof {
            lemma_bytes_ascending(self@);
        }
        let mut buffer: Vec<u8> = Vec::new();
        self.write_bytes(&mut buffer);
        proof {
            assert(buffer@ =~= self@.bytes());
        }
        let mut it = other.bytes();
        let ghost ys = other@.bytes();
        let ghost mut k: int = 0;
        loop
            invariant
                0 <= k <= ys.len(),
                it@ == ys.skip(k),
                buffer@ == self@.bytes(),
                strictly_ascending(buffer@),
                ys == other@.bytes(),
                forall|i: int| 0 <= i < k ==> self@.bytes().contains(#[trigger] ys[i]),
            decreases it@.len(),
        {
            match it.next() {
                Some(b) => {
                    if !ascending_contains(&buffer, b) {
                        return false;
                    }
                    proof {
                        k = k + 1;
                    }
                },
                None => {
                    return true;
                },
            }
        }
    }

    /// The smaller of two patterns when one contains the other and they
    /// differ; `None` otherwise.
    pub fn intersect(&self, other: &Pattern) -> (r: Option<Pattern>)
        requires
            self@.wf(),
            other@.wf(),
        ensures
            match r {
                Some(p) => spec_intersect(self@, other@) == Some(p@),
                None => spec_intersect(self@, other@) is None,
            },
    {
        proof {
            lemma_bytes_ascending(self@);
            lemma_bytes_ascending(other@);
        }
        if self.same(other) {
            return None;
        }
        if self.contains(other) {
            Some(other.clone())
        } else if other.contains(self) {
            Some(self.clone())
        } else {
            None
        }
    }

    /// Add the bytes of `other` to this pattern.
    pub fn combine(&mut self, other: &Pattern)
        requires
            old(self)@.wf(),
            other@.wf(),
            old(self)@.bytes().len() + other@.bytes().len() > 0,
        ensures
            final(self)@.canonical(),
            final(self)@.wf(),
            union_of(final(self)@, old(self)@, other@),
    {
        proof {
            lemma_bytes_ascending(self@);
            lemma_bytes_ascending(other@);
        }
        let left = self.collect_bytes();
        let right = other.collect_bytes();
        let merged = merge_ascending(&left, &right);
        proof {
            if left@.len() > 0 {
                assert(left@.contains(left@[0]));
            } else {
                assert(right@.contains(right@[0]));
            }
            lemma_ascending_no_inner_max(merged@);
        }
        *self = Pattern::new(merged.as_slice());
    }

    /// Remove the bytes of `other` from this pattern.
    pub fn subtract(&mut self, other: &Pattern)
        requires
            old(self)@.wf(),
            other@.wf(),
            exists|x: u8| old(self)@.bytes().contains(x) && !other@.bytes().contains(x),
        ensures
            final(self)@.canonical(),
            final(self)@.wf(),
            difference_of(final(self)@, old(self)@, other@),
    {
        proof {
            lemma_bytes_ascending(self@);
            lemma_bytes_ascending(other@);
        }
        let left = self.collect_bytes();
        let right = other.collect_bytes();
        let diff = diff_ascending(&left, &right);
        proof {
            let x = choose|x: u8| left@.contains(x) && !right@.contains(x);
            assert(diff@.contains(x));
            lemma_ascending_no_inner_max(diff@);
        }
        *self = Pattern::new(diff.as_slice());
    }

    /// The bytes this pattern does not hold; a pattern holding all 256
    /// bytes leaves none to make a pattern of.
    pub fn negate(&self) -> (r: Pattern)
        requires
            self@.wf(),
            exists|x: u8| !self@.bytes().contains(x),
        ensures
            r@.canonical(),
            r@.wf(),
            negation_of(r@, self@),
    {
        proof {
            lemma_bytes_ascending(self@);
        }
        let all = all_bytes();
        let mine = self.collect_bytes();
        let diff = diff_ascending(&all, &mine);
        proof {
            let x = choose|x: u8| !mine@.contains(x);
            assert(diff@.contains(x));
            lemma_ascending_no_inner_max(diff@);
        }
        Pattern::new(diff.as_slice())
    }

    /// Whether the pattern is a single byte.
    pub fn is_byte(&self) -> (r: bool)
        ensures
            r == (self@ is Byte),
    {
        match self {
            Pattern::Byte(_) => true,
            _ => false,
        }
    }

    /// Number of bytes the pattern covers (a range whose bounds run
    /// downwards counts as one).
    pub fn len(&self) -> (r: usize)
        requires
            self@.spec_len() <= usize::MAX,
        ensures
            r == self@.spec_len(),
        decreases self,
    {
        match self {
            Pattern::Byte(_) => 1,
            Pattern::Range(a, b) => {
                if *b >= *a {
                    (*b - *a) as usize + 1
                } else {
                    1
                }
            },
            Pattern::Class(pats) => {
                let ghost items = view_items(pats@);
                proof {
                    lemma_view_items(pats@);
                }
                let mut sum: usize = 0;
                let mut i: usize = 0;
                while i < pats.len()
                    invariant
                        i <= pats.len(),
                        *self == Pattern::Class(*pats),
                        items == view_items(pats@),
                        items.len() == pats.len(),
                        forall|k: int| 0 <= k < pats.len() ==> #[trigger] items[k] == pats[k]@,
                        class_len(items) <= usize::MAX,
                        sum == class_len(items.take(i as int)),
                    decreases pats.len() - i,
                {
                    proof {
                        vstd::std_specs::vec::axiom_vec_index_decreases(*pats, i as int);
                        assert(decreases_to!(*self => (*self)->Class_0));
                        lemma_class_bytes_step(items, i as int);
                        lemma_class_prefix_le(items, i + 1);
                    }
                    let n = pats[i].len();
                    sum = sum + n;
                    i = i + 1;
                }
                proof {
                    assert(items.take(i as int) == items);
                }
                sum
            },
        }
    }

    /// Cost of testing the pattern: 1 per byte, 2 per range.
    pub fn weight(&self) -> (r: usize)
        requires
            self@.spec_weight() <= usize::MAX,
        ensures
            r == self@.spec_weight(),
        decreases self,
    {
        match self {
            Pattern::Byte(_) => 1,
            Pattern::Range(_, _) => 2,
            Pattern::Class(pats) => {
                let ghost items = view_items(pats@);
                proof {
                    lemma_view_items(pats@);
                }
                let mut sum: usize = 0;
                let mut i: usize = 0;
                while i < pats.len()
                    invariant
                        i <= pats.len(),
                        *self == Pattern::Class(*pats),
                        items == view_items(pats@),
                        items.len() == pats.len(),
                        forall|k: int| 0 <= k < pats.len() ==> #[trigger] items[k] == pats[k]@,
                        class_weight(items) <= usize::MAX,
                        sum == class_weight(items.take(i as int)),
                    decreases pats.len() - i,
                {
                    proof {
                        vstd::std_specs::vec::axiom_vec_index_decreases(*pats, i as int);
                        assert(decreases_to!(*self => (*self)->Class_0));
                        lemma_class_bytes_step(items, i as int);
                        lemma_class_prefix_le(items, i + 1);
                    }
                    let n = pats[i].weight();
                    sum = sum + n;
                    i = i + 1;
                }
                proof {
                    assert(items.take(i as int) == items);
                }
                sum
            },
        }
    }
}

impl Clone for Pattern {
    fn clone(&self) -> (r: Self)
        ensures
            r@ == self@,
        decreases self,
    {
        match self {
            Pattern::Byte(b) => Pattern::Byte(*b),
            Pattern::Range(a, b) => Pattern::Range(*a, *b),
            Pattern::Class(v) => {
                let mut out: Vec<Pattern> = Vec::new();
                let mut i: usize = 0;
                while i < v.len()
                    invariant
                        i <= v.len(),
                        *self == Pattern::Class(*v),
                        view_items(out@) == view_items(v@.take(i as int)),
                    decreases v.len() - i,
                {
                    proof {
                        vstd::std_specs::vec::axiom_vec_index_decreases(*v, i as int);
                        assert(decreases_to!(*self => (*self)->Class_0));
                        assert(decreases_to!(*self => v[i as int]));
                    }
                    let item = v[i].clone();
                    proof {
                        assert(v@.take(i + 1).drop_last() == v@.take(i as int));
                        assert(out@.push(item).drop_last() == out@);
                    }
                    out.push(item);
                    i = i + 1;
                }
                proof {
                    assert(v@.take(v.len() as int) == v@);
                }
                Pattern::Class(out)
            },
        }
    }
}

/// A pattern as text: a byte as shown in a pattern, a range as its two
/// ends joined by `-`, a class as its members in brackets.
pub open spec fn pattern_form(p: PatternView) -> Seq<char>
    decreases p,
{
    match p {
        PatternView::Byte(b) => ascii_form(b),
        PatternView::Range(a, b) => ascii_form(a) + seq!['-'] + ascii_form(b),
        PatternView::Class(s) => seq!['['] + class_form(s) + seq![']'],
    }
}

/// The members of a class as text, one after the other.
pub open spec fn class_form(s: Seq<PatternView>) -> Seq<char>
    decreases s,
{
    if s.len() == 0 {
        Seq::empty()
    } else {
        class_form(s.drop_last()) + pattern_form(s.last())
    }
}

impl Pattern {
    /// The pattern as text.
    pub fn describe(&self) -> (r: String)
        ensures
            r@ == pattern_form(self@),
    {
        let mut out = String::new();
        self.write_form(&mut out);
        proof {
            assert(out@ =~= pattern_form(self@));
        }
        out
    }

    fn write_form(&self, out: &mut String)
        ensures
            final(out)@ == old(out)@ + pattern_form(self@),
        decreases self,
    {
        match self {
            Pattern::Byte(b) => format_ascii(*b, out),
            Pattern::Range(a, b) => {
                format_ascii(*a, out);
                push_char(out, '-');
                format_ascii(*b, out);
                proof {
                    assert(out@ =~= old(out)@ + pattern_form(self@));
                }
            },
            Pattern::Class(v) => {
                push_char(out, '[');
                let ghost start = out@;
                let mut i: usize = 0;
                proof {
                    lemma_view_items(v@);
                    assert(view_items(v@).take(0) =~= Seq::<PatternView>::empty());
                    assert(out@ =~= start + class_form(view_items(v@).take(0)));
                }
                while i < v.len()
                    invariant
                        i <= v.len(),
                        *self == Pattern::Class(*v),
                        view_items(v@).len() == v@.len(),
                        forall|k: int| 0 <= k < v@.len() ==> #[trigger] view_items(v@)[k] == v@[k]@,
                        out@ == start + class_form(view_items(v@).take(i as int)),
                    decreases v.len() - i,
                {
                    proof {
                        vstd::std_specs::vec::axiom_vec_index_decreases(*v, i as int);
                        assert(decreases_to!(*self => (*self)->Class_0));
                        assert(decreases_to!(*self => v[i as int]));
                        assert(view_items(v@).take(i + 1).drop_last() == view_items(v@).take(i as int));
                    }
                    v[i].write_form(out);
                    proof {
                        assert(out@ =~= start + class_form(view_items(v@).take(i + 1)));
                    }
                    i = i + 1;
                }
                push_char(out, ']');
                proof {
                    assert(view_items(v@).take(v@.len() as int) == view_items(v@));
                    assert(out@ =~= old(out)@ + pattern_form(self@));
                }
            },
        }
    }
}

} // verus!
