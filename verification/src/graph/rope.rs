use vstd::prelude::*;

use super::fork::Fork;
use super::range::Range;
use super::{grows, Graph, Node, NodeId, NodeView};

verus! {

broadcast use vstd::std_specs::vec::group_vec_axioms;

/// A rope: a fixed sequence of byte ranges that must all match, one
/// byte each, before moving on to `target`.
#[derive(PartialEq, Eq, Hash, Debug)]
pub struct Rope {
    pub pattern: Pattern,
    pub target: NodeId,
    pub miss: Miss,
}

/// The ranges of a rope, one per byte.
#[derive(PartialEq, Eq, Hash, Debug)]
pub struct Pattern(pub Vec<Range>);

/// Where a rope goes when it fails to match.
#[derive(Clone, Copy, PartialEq, Eq, Hash, Debug, Structural)]
pub enum Miss {
    /// Error on a failed match.
    Fail,
    /// Jump to the id if the first byte does not match; error on a partial match.
    First(NodeId),
    /// Jump to the id on a partial or empty match.
    Any(NodeId),
}

/// Model of a rope: its ranges, its target and its miss.
pub struct RopeView {
    pub pattern: Seq<Range>,
    pub target: NodeId,
    pub miss: Miss,
}

impl View for Rope {
    type V = RopeView;

    open spec fn view(&self) -> RopeView {
        RopeView { pattern: self.pattern.0@, target: self.target, miss: self.miss }
    }
}

impl Miss {
    /// The id to jump to on any miss, if any.
    pub fn any(self) -> (r: Option<NodeId>)
        ensures
            r == self.spec_any(),
    {
        match self {
            Miss::Any(id) => Some(id),
            _ => None,
        }
    }

    pub open spec fn spec_any(self) -> Option<NodeId> {
        match self {
            Miss::Any(id) => Some(id),
            _ => None,
        }
    }

    /// The id to jump to when the first byte misses, if any.
    pub fn first(self) -> (r: Option<NodeId>)
        ensures
            r == self.spec_first(),
    {
        match self {
            Miss::First(id) => Some(id),
            Miss::Any(id) => Some(id),
            Miss::Fail => None,
        }
    }

    pub open spec fn spec_first(self) -> Option<NodeId> {
        match self {
            Miss::First(id) => Some(id),
            Miss::Any(id) => Some(id),
            Miss::Fail => None,
        }
    }

    /// `None` stays an error; an id is jumped to when the first byte misses.
    pub fn from_option(miss: Option<NodeId>) -> (r: Miss)
        ensures
            r == (match miss {
                Some(id) => Miss::First(id),
                None => Miss::Fail,
            }),
    {
        match miss {
            Some(id) => Miss::First(id),
            None => Miss::Fail,
        }
    }
}

/// Copy of a sequence of ranges.
pub fn copy_ranges(v: &[Range]) -> (r: Vec<Range>)
    ensures
        r@ == v@,
{
    let mut out: Vec<Range> = Vec::new();
    let mut i: usize = 0;
    while i < v.len()
        invariant
            i <= v@.len(),
            out@ == v@.take(i as int),
        decreases v@.len() - i,
    {
        proof {
            assert(v@.take(i + 1) == v@.take(i as int).push(v@[i as int]));
        }
        out.push(v[i]);
        i = i + 1;
    }
    proof {
        assert(v@.take(v@.len() as int) == v@);
    }
    out
}

impl Pattern {
    /// Number of ranges.
    pub fn len(&self) -> (r: usize)
        ensures
            r == self.0@.len(),
    {
        self.0.len()
    }

    /// The pattern matching exactly the given bytes.
    pub fn from_bytes(bytes: &[u8]) -> (r: Pattern)
        ensures
            r.0@.len() == bytes@.len(),
            forall|i: int| 0 <= i < bytes@.len() ==> #[trigger] r.0@[i] == Range(bytes@[i], bytes@[i]),
    {
        let mut out: Vec<Range> = Vec::new();
        let mut i: usize = 0;
        while i < bytes.len()
            invariant
                i <= bytes@.len(),
                out@.len() == i,
                forall|k: int| 0 <= k < i ==> #[trigger] out@[k] == Range(bytes@[k], bytes@[k]),
            decreases bytes@.len() - i,
        {
            out.push(Range(bytes[i], bytes[i]));
            i = i + 1;
        }
        Pattern(out)
    }

    /// The bytes of the pattern, when each range is a single byte.
    pub fn to_bytes(&self) -> (r: Option<Vec<u8>>)
        ensures
            match r {
                Some(bytes) => bytes@.len() == self.0@.len() && forall|i: int| 0 <= i < bytes@.len()
                    ==> #[trigger] self.0@[i] == Range(bytes@[i], bytes@[i]),
                None => exists|i: int| 0 <= i < self.0@.len() && (#[trigger] self.0@[i]).0 != self.0@[i].1,
            },
    {
        let mut out: Vec<u8> = Vec::new();
        let mut i: usize = 0;
        while i < self.0.len()
            invariant
                i <= self.0@.len(),
                out@.len() == i,
                forall|k: int| 0 <= k < i ==> #[trigger] self.0@[k] == Range(out@[k], out@[k]),
            decreases self.0@.len() - i,
        {
            let range = self.0[i];
            if range.0 != range.1 {
                return None;
            }
            out.push(range.0);
            i = i + 1;
        }
        Some(out)
    }
}

/// The rope a rope leads to after its first byte: the remaining ranges,
/// missing to where the whole rope missed on a partial match.
pub open spec fn rest_of(rope: RopeView) -> RopeView {
    RopeView {
        pattern: rope.pattern.drop_first(),
        target: rope.target,
        miss: match rope.miss.spec_any() {
            Some(id) => Miss::First(id),
            None => Miss::Fail,
        },
    }
}

/// `fork` branches on the first range of `rope` to `next`, and misses
/// where the rope misses on its first byte.
pub open spec fn first_step(rope: RopeView, next: NodeId, fork: super::ForkView) -> bool {
    &&& fork.lut.len() == 256
    &&& fork.miss == rope.miss.spec_first()
    &&& forall|b: int| 0 <= b < 256 ==> #[trigger] fork.lut[b] == (if rope.pattern[0].0 <= b <= rope.pattern[0].1 {
        Some(next)
    } else {
        None
    })
}

/// `r` is the longest common prefix of `x` and `y` when it is not empty,
/// and `None` when they share no first range.
pub open spec fn prefix_result(x: Seq<Range>, y: Seq<Range>, r: Option<Pattern>) -> bool {
    match r {
        Some(p) => {
            let n = p.0@.len() as int;
            &&& n > 0
            &&& n <= x.len()
            &&& n <= y.len()
            &&& p.0@ == x.take(n)
            &&& p.0@ == y.take(n)
            &&& (n < x.len() && n < y.len() ==> x[n] != y[n])
        },
        None => x.len() == 0 || y.len() == 0 || x[0] != y[0],
    }
}

impl Rope {
    /// Turn the rope into a fork on its first range, pushing the rest of
    /// the rope onto the graph when there is a rest.
    pub fn into_fork<T>(self, graph: &mut Graph<T>) -> (r: Fork)
        requires
            old(graph).well_formed(),
            old(graph).has_room(),
            old(graph).fits(NodeView::Rope(self@)),
        ensures
            final(graph).well_formed(),
            grows(final(graph)@, old(graph)@),
            final(graph).fits(NodeView::Fork(r@)),
            final(graph)@.len() <= old(graph)@.len() + 1,
            final(graph).memo() == old(graph).memo(),
            self@.pattern.len() == 1 ==> first_step(self@, self@.target, r@) && final(graph)@ == old(graph)@,
            self@.pattern.len() > 1 ==> exists|next: NodeId| #[trigger] first_step(self@, next, r@) && final(graph).has(next)
                && final(graph)@[next.index() as int] == Some(NodeView::<T>::Rope(rest_of(self@))),
            self@.pattern.len() > 1 ==> final(graph)@ == old(graph)@ || final(graph)@ == old(graph)@.push(
                Some(NodeView::<T>::Rope(rest_of(self@))),
            ),
    {
        let ghost rope0 = self@;
        let mut this = self;
        let first = this.pattern.0.remove(0);
        let miss = this.miss.first();
        this.miss = Miss::from_option(this.miss.any());
        proof {
            assert(this@.pattern == rope0.pattern.drop_first());
            assert(this@ == rest_of(rope0));
            assert(NodeView::<T>::Rope(rope0).points_to(rope0.target));
            if let Some(m) = rope0.miss.spec_first() {
                assert(NodeView::<T>::Rope(rope0).points_to(m));
            }
            assert forall|id: NodeId| #[trigger] NodeView::<T>::Rope(this@).points_to(id) implies graph.has(id) by {
                assert(NodeView::<T>::Rope(rope0).points_to(id));
            }
        }
        let next = if this.pattern.0.len() == 0 {
            this.target
        } else {
            graph.push(Node::Rope(this))
        };
        let fork = Fork::new().branch(first, next).miss(miss);
        proof {
            assert(first_step(rope0, next, fork@));
            assert forall|id: NodeId| #[trigger] NodeView::<T>::Fork(fork@).points_to(id) implies graph.has(id) by {
                if fork@.miss != Some(id) {
                    let b = choose|b: int| 0 <= b < 256 && #[trigger] fork@.lut[b] == Some(id);
                    assert(id == next);
                }
            }
        }
        fork
    }

    /// The node left after matching the first `at` ranges: the rest of
    /// the rope pushed onto the graph, or its target when nothing is left.
    pub fn remainder<T>(self, at: usize, graph: &mut Graph<T>) -> (r: NodeId)
        requires
            old(graph).well_formed(),
            old(graph).has_room(),
            old(graph).fits(NodeView::Rope(self@)),
            at <= self@.pattern.len(),
        ensures
            final(graph).well_formed(),
            grows(final(graph)@, old(graph)@),
            final(graph).has(r),
            at == self@.pattern.len() ==> r == self@.target && final(graph)@ == old(graph)@,
            at < self@.pattern.len() ==> final(graph)@[r.index() as int] == Some(NodeView::<T>::Rope(RopeView {
                pattern: self@.pattern.skip(at as int),
                ..self@
            })),
    {
        let ghost rope0 = self@;
        let mut rest: Vec<Range> = Vec::new();
        let mut i: usize = at;
        while i < self.pattern.0.len()
            invariant
                at <= i <= self.pattern.0@.len(),
                rest@ == self.pattern.0@.subrange(at as int, i as int),
            decreases self.pattern.0@.len() - i,
        {
            proof {
                assert(self.pattern.0@.subrange(at as int, i + 1) == self.pattern.0@.subrange(at as int, i as int).push(
                    self.pattern.0@[i as int],
                ));
            }
            rest.push(self.pattern.0[i]);
            i = i + 1;
        }
        proof {
            assert(rest@ =~= rope0.pattern.skip(at as int));
        }
        let this = Rope { pattern: Pattern(rest), target: self.target, miss: self.miss };
        proof {
            assert(NodeView::<T>::Rope(rope0).points_to(rope0.target));
            assert forall|id: NodeId| #[trigger] NodeView::<T>::Rope(this@).points_to(id) implies graph.has(id) by {
                assert(NodeView::<T>::Rope(rope0).points_to(id));
            }
        }
        if this.pattern.0.len() == 0 {
            this.target
        } else {
            graph.push(Node::Rope(this))
        }
    }

    /// A rope matching `pattern`, target going to `target`; errors on a miss.
    pub fn new(pattern: Pattern, target: NodeId) -> (r: Rope)
        ensures
            r@ == (RopeView { pattern: pattern.0@, target, miss: Miss::Fail }),
    {
        Rope { pattern, target, miss: Miss::Fail }
    }

    /// The same rope with another miss.
    pub fn miss(self, miss: Miss) -> (r: Rope)
        ensures
            r@ == (RopeView { miss, ..self@ }),
    {
        Rope { miss, ..self }
    }

    /// Copy of the rope.
    pub fn copy(&self) -> (r: Rope)
        ensures
            r@ == self@,
    {
        Rope { pattern: Pattern(copy_ranges(self.pattern.0.as_slice())), target: self.target, miss: self.miss }
    }

    /// Structural equality of ropes.
    pub fn same(&self, other: &Rope) -> (r: bool)
        ensures
            r == (self@ == other@),
    {
        if self.target != other.target || self.miss != other.miss || self.pattern.0.len() != other.pattern.0.len() {
            return false;
        }
        let mut i: usize = 0;
        while i < self.pattern.0.len()
            invariant
                i <= self.pattern.0@.len(),
                self.pattern.0@.len() == other.pattern.0@.len(),
                forall|k: int| 0 <= k < i ==> self.pattern.0@[k] == #[trigger] other.pattern.0@[k],
            decreases self.pattern.0@.len() - i,
        {
            if self.pattern.0[i] != other.pattern.0[i] {
                return false;
            }
            i = i + 1;
        }
        proof {
            assert(self.pattern.0@ =~= other.pattern.0@);
        }
        true
    }

    /// The common prefix does not depend on the order of the two ropes.
    pub proof fn law_prefix_symmetric(a: Rope, b: Rope, ab: Option<Pattern>, ba: Option<Pattern>)
        requires
            prefix_result(a@.pattern, b@.pattern, ab),
            prefix_result(b@.pattern, a@.pattern, ba),
        ensures
            ab is Some <==> ba is Some,
            ab matches Some(p) ==> ba matches Some(q) && p.0@ == q.0@,
    {
        if ab is Some && ba is Some {
            let p = ab->Some_0;
            let q = ba->Some_0;
            if p.0@.len() < q.0@.len() {
                assert(a@.pattern[p.0@.len() as int] == b@.pattern[p.0@.len() as int]) by {
                    assert(q.0@[p.0@.len() as int] == b@.pattern[p.0@.len() as int]);
                    assert(q.0@[p.0@.len() as int] == a@.pattern[p.0@.len() as int]);
                }
            } else if q.0@.len() < p.0@.len() {
                assert(a@.pattern[q.0@.len() as int] == b@.pattern[q.0@.len() as int]) by {
                    assert(p.0@[q.0@.len() as int] == a@.pattern[q.0@.len() as int]);
                    assert(p.0@[q.0@.len() as int] == b@.pattern[q.0@.len() as int]);
                }
            }
            assert(p.0@ =~= q.0@);
        } else if ab is Some {
            let p = ab->Some_0;
            assert(p.0@[0] == a@.pattern[0] && p.0@[0] == b@.pattern[0]);
        } else if ba is Some {
            let q = ba->Some_0;
            assert(q.0@[0] == a@.pattern[0] && q.0@[0] == b@.pattern[0]);
        }
    }

    /// The longest common prefix of the two ropes' patterns, if not empty.
    pub fn prefix(&self, other: &Rope) -> (r: Option<Pattern>)
        ensures
            prefix_result(self.pattern.0@, other.pattern.0@, r),
    {
        let mut count: usize = 0;
        while count < self.pattern.0.len() && count < other.pattern.0.len() && self.pattern.0[count]
            == other.pattern.0[count]
            invariant
                count <= self.pattern.0@.len(),
                count <= other.pattern.0@.len(),
                forall|k: int| 0 <= k < count ==> self.pattern.0@[k] == #[trigger] other.pattern.0@[k],
            decreases self.pattern.0@.len() - count,
        {
            count = count + 1;
        }
        if count == 0 {
            None
        } else {
            let mut out: Vec<Range> = Vec::new();
            let mut i: usize = 0;
            while i < count
                invariant
                    i <= count <= self.pattern.0@.len(),
                    out@ == self.pattern.0@.take(i as int),
                decreases count - i,
            {
                proof {
                    assert(self.pattern.0@.take(i + 1) == self.pattern.0@.take(i as int).push(
                        self.pattern.0@[i as int],
                    ));
                }
                out.push(self.pattern.0[i]);
                i = i + 1;
            }
            proof {
                assert(self.pattern.0@.take(count as int) =~= other.pattern.0@.take(count as int));
            }
            Some(Pattern(out))
        }
    }
}

} // verus!
