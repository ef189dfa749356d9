//! Decisions taken while generating the lexer's code from the graph: the
//! bookkeeping of bytes read ahead, and facts about the nodes.

use vstd::prelude::*;

use crate::graph::fork::ForkIter;
use crate::graph::{contains_id, Graph, Node, NodeId, NodeView, Range};

pub mod context;

verus! {

/// Bytes available to be read without bounds checking across the tree.
///
/// For example, a rope matching 4 bytes followed by a fork whose
/// shortest branch is 2 bytes can check bounds for 6 bytes ahead once,
/// and leave the remaining 2 bytes to the fork without checks there.
#[derive(Clone, Copy, PartialEq, Eq, Hash, Debug, Structural)]
pub struct Context {
    /// Number of bytes available to read.
    pub available: usize,
    /// Number of bytes not bumped yet that must be bumped before the
    /// next read.
    pub unbumped: usize,
}

impl Default for Context {
    fn default() -> (r: Context)
        ensures
            r == (Context { available: 0, unbumped: 0 }),
    {
        Context { available: 0, unbumped: 0 }
    }
}

impl Context {
    /// `available` bytes available, nothing unbumped.
    pub fn new(available: usize) -> (r: Context)
        ensures
            r == (Context { available, unbumped: 0 }),
    {
        Context { available, unbumped: 0 }
    }

    /// Nothing available, `unbumped` bytes to bump.
    pub fn unbumped(unbumped: usize) -> (r: Context)
        ensures
            r == (Context { available: 0, unbumped }),
    {
        Context { available: 0, unbumped }
    }

    /// `n` more bytes to bump, from outside the available ones.
    pub fn push(self, n: usize) -> (r: Context)
        requires
            self.unbumped + n <= usize::MAX,
        ensures
            r == (Context { available: self.available, unbumped: (self.unbumped + n) as usize }),
    {
        Context { available: self.available, unbumped: self.unbumped + n }
    }

    /// `n` of the available bytes read: they are no longer available and
    /// must be bumped.
    pub fn advance(self, n: usize) -> (r: Context)
        requires
            n <= self.available,
            self.unbumped + n <= usize::MAX,
        ensures
            r == (Context { available: (self.available - n) as usize, unbumped: (self.unbumped + n) as usize }),
    {
        Context { available: self.available - n, unbumped: self.unbumped + n }
    }

    /// How many bytes to bump before going on: none when nothing is
    /// unbumped.
    pub fn bump(self) -> (r: Option<usize>)
        ensures
            r == (if self.unbumped == 0 { None } else { Some(self.unbumped) }),
    {
        if self.unbumped == 0 {
            None
        } else {
            Some(self.unbumped)
        }
    }
}

/// What the generator knows of a node: how many references lead to it,
/// and the nodes it leads to while they are being visited, which close a
/// loop.
#[derive(Debug)]
pub struct Meta {
    pub refcount: usize,
    pub loop_entry_from: Vec<NodeId>,
}

impl Meta {
    /// A node referenced once, closing no loop.
    pub fn one() -> (r: Meta)
        ensures
            r.refcount == 1,
            r.loop_entry_from@ == Seq::<NodeId>::empty(),
    {
        Meta { refcount: 1, loop_entry_from: Vec::new() }
    }
}

/// Number of nodes not visited yet.
pub open spec fn unvisited(m: Seq<Option<Meta>>) -> nat
    decreases m.len(),
{
    if m.len() == 0 {
        0
    } else {
        unvisited(m.drop_last()) + if m.last() is None { 1nat } else { 0nat }
    }
}

proof fn lemma_visit(m: Seq<Option<Meta>>, i: int, x: Meta)
    requires
        0 <= i < m.len(),
        m[i] is None,
    ensures
        unvisited(m.update(i, Some(x))) + 1 == unvisited(m),
    decreases m.len(),
{
    if i < m.len() - 1 {
        lemma_visit(m.drop_last(), i, x);
        assert(m.update(i, Some(x)).drop_last() == m.drop_last().update(i, Some(x)));
    } else {
        assert(m.update(i, Some(x)).drop_last() == m.drop_last());
    }
}

/// Visited nodes stay visited.
pub open spec fn visits_grow(new: Seq<Option<Meta>>, old: Seq<Option<Meta>>) -> bool {
    &&& new.len() == old.len()
    &&& forall|i: int| 0 <= i < old.len() && (#[trigger] old[i]) is Some ==> new[i] is Some
}

proof fn lemma_visits_grow(new: Seq<Option<Meta>>, old: Seq<Option<Meta>>)
    requires
        visits_grow(new, old),
    ensures
        unvisited(new) <= unvisited(old),
    decreases old.len(),
{
    if old.len() > 0 {
        assert(visits_grow(new.drop_last(), old.drop_last())) by {
            assert forall|i: int| 0 <= i < old.drop_last().len() && (#[trigger] old.drop_last()[i]) is Some implies new.drop_last()[i] is Some by {
                assert(old[i] is Some);
            }
        }
        lemma_visits_grow(new.drop_last(), old.drop_last());
        if old.last() is Some {
            assert(old[old.len() - 1] is Some);
        }
    }
}

/// Every visited node is a filled slot, referenced at least once, and
/// the nodes it closes a loop with are nodes it leads to.
pub open spec fn meta_sound<L>(g: Seq<Option<NodeView<L>>>, m: Seq<Option<Meta>>) -> bool {
    forall|i: int| 0 <= i < m.len() && (#[trigger] m[i]) is Some ==> {
        &&& g[i] is Some
        &&& m[i]->Some_0.refcount >= 1
        &&& forall|k: int| 0 <= k < m[i]->Some_0.loop_entry_from@.len() ==> g[i]->Some_0.points_to(
            #[trigger] m[i]->Some_0.loop_entry_from@[k],
        )
    }
}

/// Every node newly visited leads only to visited nodes.
pub open spec fn meta_explored<L>(g: Seq<Option<NodeView<L>>>, new: Seq<Option<Meta>>, old: Seq<Option<Meta>>) -> bool {
    forall|i: int| 0 <= i < new.len() && (#[trigger] new[i]) is Some && old[i] is None ==> forall|id: NodeId| #[trigger] g[i]->Some_0.points_to(id)
        ==> new[id.index() as int] is Some
}

/// Facts about the nodes the root leads to: the result has one entry per
/// slot of the graph; the root is visited, every visited node leads only
/// to visited nodes (so every node the root leads to is visited), and
/// the facts of every visited node are sound.
pub fn analyze<L>(graph: &Graph<L>, root: NodeId) -> (r: Vec<Option<Meta>>)
    requires
        graph.well_formed(),
        graph.closed(),
        graph.has(root),
        graph@[root.index() as int] is Some,
    ensures
        r@.len() == graph@.len(),
        r@[root.index() as int] is Some,
        meta_sound(graph@, r@),
        forall|i: int| 0 <= i < r@.len() && (#[trigger] r@[i]) is Some ==> forall|id: NodeId| #[trigger] graph@[i]->Some_0.points_to(id)
            ==> r@[id.index() as int] is Some,
{
    let mut meta: Vec<Option<Meta>> = Vec::new();
    let mut i: usize = 0;
    let n = graph.nodes().len();
    while i < n
        invariant
            i <= n,
            n == graph@.len(),
            meta@.len() == i,
            forall|k: int| 0 <= k < i ==> (#[trigger] meta@[k]) is None,
        decreases n - i,
    {
        meta.push(None);
        i = i + 1;
    }
    let ghost m0 = meta@;
    let mut stack: Vec<NodeId> = Vec::new();
    generate_meta(graph, root, root, &mut meta, &mut stack);
    meta
}

/// Visit `this`, reached from `parent`: count one more reference if it
/// was visited before; else record it, noting in `parent` a loop when
/// `this` is being visited, and visit the nodes it leads to.
fn generate_meta<L>(graph: &Graph<L>, this: NodeId, parent: NodeId, meta: &mut Vec<Option<Meta>>, stack: &mut Vec<NodeId>)
    requires
        graph.well_formed(),
        graph.closed(),
        graph.has(this),
        graph@[this.index() as int] is Some,
        old(meta)@.len() == graph@.len(),
        meta_sound(graph@, old(meta)@),
        old(stack)@.len() > 0 ==> old(stack)@.last() == parent && graph@[parent.index() as int]->Some_0.points_to(this),
        forall|k: int| 0 <= k < old(stack)@.len() ==> graph.has(#[trigger] old(stack)@[k]) && old(meta)@[old(stack)@[k].index() as int] is Some,
    ensures
        final(stack)@ == old(stack)@,
        visits_grow(final(meta)@, old(meta)@),
        meta_sound(graph@, final(meta)@),
        meta_explored(graph@, final(meta)@, old(meta)@),
        final(meta)@[this.index() as int] is Some,
    decreases unvisited(old(meta)@), 0int,
{
    let ghost m0 = meta@;
    if contains_id(stack, this) {
        let p = parent.get();
        proof {
            let k = choose|k: int| 0 <= k < stack@.len() && stack@[k] == this;
            assert(stack@[stack@.len() - 1] == parent);
        }
        match &mut meta[p] {
            Some(m) => {
                m.loop_entry_from.push(this);
            },
            None => {},
        }
        proof {
            assert forall|i: int| 0 <= i < meta@.len() && (#[trigger] meta@[i]) is Some implies {
                &&& graph@[i] is Some
                &&& meta@[i]->Some_0.refcount >= 1
                &&& forall|k: int| 0 <= k < meta@[i]->Some_0.loop_entry_from@.len() ==> graph@[i]->Some_0.points_to(
                    #[trigger] meta@[i]->Some_0.loop_entry_from@[k],
                )
            } by {
                if i != p {
                    assert(meta@[i] == m0[i]);
                } else {
                    let e = meta@[i]->Some_0.loop_entry_from@;
                    assert forall|k: int| 0 <= k < e.len() implies graph@[i]->Some_0.points_to(#[trigger] e[k]) by {
                        if k < e.len() - 1 {
                            assert(e[k] == m0[i]->Some_0.loop_entry_from@[k]);
                        }
                    }
                }
            }
        }
    }
    let ghost m1 = meta@;
    let t = this.get();
    if meta[t].is_some() {
        match &mut meta[t] {
            Some(m) => {
                m.refcount = m.refcount.saturating_add(1);
            },
            None => {},
        }
        proof {
            assert forall|i: int| 0 <= i < meta@.len() && (#[trigger] meta@[i]) is Some implies {
                &&& graph@[i] is Some
                &&& meta@[i]->Some_0.refcount >= 1
                &&& forall|k: int| 0 <= k < meta@[i]->Some_0.loop_entry_from@.len() ==> graph@[i]->Some_0.points_to(
                    #[trigger] meta@[i]->Some_0.loop_entry_from@[k],
                )
            } by {
                if i != t {
                    assert(meta@[i] == m1[i]);
                } else {
                    assert(meta@[i]->Some_0.loop_entry_from@ == m1[i]->Some_0.loop_entry_from@);
                }
            }
            assert(visits_grow(meta@, m0));
        }
        return;
    }
    let one = Meta::one();
    proof {
        lemma_visits_grow(m1, m0);
        lemma_visit(m1, t as int, one);
    }
    meta.set(t, Some(one));
    let ghost m2 = meta@;
    proof {
        assert(visits_grow(m2, m0));
        assert(meta_sound(graph@, m2)) by {
            assert forall|i: int| 0 <= i < m2.len() && (#[trigger] m2[i]) is Some implies {
                &&& graph@[i] is Some
                &&& m2[i]->Some_0.refcount >= 1
                &&& forall|k: int| 0 <= k < m2[i]->Some_0.loop_entry_from@.len() ==> graph@[i]->Some_0.points_to(
                    #[trigger] m2[i]->Some_0.loop_entry_from@[k],
                )
            } by {
                if i != t {
                    assert(m2[i] == m1[i]);
                }
            }
        }
    }
    let ghost s0 = stack@;
    stack.push(this);
    proof {
        assert forall|k: int| 0 <= k < stack@.len() implies graph.has(#[trigger] stack@[k]) && meta@[stack@[k].index() as int] is Some by {
            if k < s0.len() {
                assert(stack@[k] == s0[k]);
            }
        }
    }
    match graph.get(this) {
        Some(Node::Fork(fork)) => {
            proof {
                graph.lemma_stored_fits(this);
                fork.lemma_fields();
            }
            let mut iter = fork.branches();
            loop
                invariant
                    graph.well_formed(),
                    graph.closed(),
                    graph@[this.index() as int] == Some(NodeView::<L>::Fork(fork@)),
                    fork@.lut.len() == 256,
                    iter.lut@ == fork@.lut,
                    iter.offset <= 256,
                    stack@ == s0.push(this),
                    forall|k: int| 0 <= k < stack@.len() ==> graph.has(#[trigger] stack@[k]),
                    forall|k: int| 0 <= k < s0.len() ==> m0[(#[trigger] s0[k]).index() as int] is Some,
                    meta@.len() == graph@.len(),
                    visits_grow(meta@, m2),
                    visits_grow(m2, m0),
                    m0.len() == graph@.len(),
                    m0 == old(meta)@,
                    t == this.index(),
                    graph.has(this),
                    m2[t as int] is Some,
                    unvisited(m2) < unvisited(m0),
                    meta_sound(graph@, meta@),
                    meta_explored(graph@, meta@, m2),
                    forall|k: int| 0 <= k < iter.offset && (#[trigger] fork@.lut[k]) is Some ==> meta@[fork@.lut[k]->Some_0.index() as int] is Some,
                ensures
                    stack@ == s0.push(this),
                    meta@.len() == graph@.len(),
                    visits_grow(meta@, m2),
                    meta_sound(graph@, meta@),
                    meta_explored(graph@, meta@, m2),
                    forall|k: int| 0 <= k < 256 && (#[trigger] fork@.lut[k]) is Some ==> meta@[fork@.lut[k]->Some_0.index() as int] is Some,
                decreases 256 - iter.offset,
            {
                let ghost off0 = iter.offset;
                match iter.next() {
                    Some((range, id)) => {
                        let ghost mk = meta@;
                        proof {
                            assert(fork@.lut[range.0 as int] == Some(id));
                            assert(NodeView::<L>::Fork(fork@).points_to(id));
                            assert(graph@[t as int]->Some_0.points_to(id));
                            lemma_visits_grow(meta@, m2);
                            assert forall|k: int| 0 <= k < stack@.len() implies graph.has(#[trigger] stack@[k]) && meta@[stack@[k].index() as int] is Some by {
                                if k < s0.len() {
                                    assert(stack@[k] == s0[k]);
                                    assert(m0[s0[k].index() as int] is Some);
                                    assert(m2[s0[k].index() as int] is Some);
                                } else {
                                    assert(stack@[k] == this);
                                }
                            }
                        }
                        generate_meta(graph, id, this, meta, stack);
                        proof {
                            assert forall|i: int| 0 <= i < meta@.len() && (#[trigger] meta@[i]) is Some && m2[i] is None implies forall|x: NodeId| #[trigger] graph@[i]->Some_0.points_to(x)
                                ==> meta@[x.index() as int] is Some by {
                                if mk[i] is None {
                                } else {
                                    assert forall|x: NodeId| #[trigger] graph@[i]->Some_0.points_to(x) implies meta@[x.index() as int] is Some by {
                                        assert(mk[x.index() as int] is Some);
                                    }
                                }
                            }
                            assert forall|k: int| 0 <= k < iter.offset && (#[trigger] fork@.lut[k]) is Some implies meta@[fork@.lut[k]->Some_0.index() as int] is Some by {
                                assert(graph@[t as int]->Some_0.points_to(fork@.lut[k]->Some_0));
                                if k < off0 {
                                    assert(mk[fork@.lut[k]->Some_0.index() as int] is Some);
                                } else if k < range.0 {
                                } else {
                                    assert(fork@.lut[k] == Some(id));
                                }
                            }
                        }
                    },
                    None => {
                        break;
                    },
                }
            }
            if let Some(id) = fork.miss {
                let ghost mk = meta@;
                proof {
                    assert(NodeView::<L>::Fork(fork@).points_to(id));
                    lemma_visits_grow(meta@, m2);
                    assert forall|k: int| 0 <= k < stack@.len() implies graph.has(#[trigger] stack@[k]) && meta@[stack@[k].index() as int] is Some by {
                        if k < s0.len() {
                            assert(stack@[k] == s0[k]);
                            assert(m2[s0[k].index() as int] is Some);
                        }
                    }
                }
                generate_meta(graph, id, this, meta, stack);
                proof {
                    assert forall|i: int| 0 <= i < meta@.len() && (#[trigger] meta@[i]) is Some && m2[i] is None implies forall|x: NodeId| #[trigger] graph@[i]->Some_0.points_to(x)
                        ==> meta@[x.index() as int] is Some by {
                        if mk[i] is Some {
                            assert forall|x: NodeId| #[trigger] graph@[i]->Some_0.points_to(x) implies meta@[x.index() as int] is Some by {
                                assert(mk[x.index() as int] is Some);
                            }
                        }
                    }
                    assert forall|k: int| 0 <= k < 256 && (#[trigger] fork@.lut[k]) is Some implies meta@[fork@.lut[k]->Some_0.index() as int] is Some by {
                        assert(graph@[t as int]->Some_0.points_to(fork@.lut[k]->Some_0));
                        assert(mk[fork@.lut[k]->Some_0.index() as int] is Some);
                    }
                }
            }
            proof {
                assert forall|x: NodeId| #[trigger] graph@[t as int]->Some_0.points_to(x) implies meta@[x.index() as int] is Some by {
                    if fork@.miss != Some(x) {
                        let b = choose|b: int| 0 <= b < 256 && #[trigger] fork@.lut[b] == Some(x);
                    }
                }
            }
        },
        Some(Node::Rope(rope)) => {
            let ghost mk = meta@;
            proof {
                assert(graph@[t as int]->Some_0.points_to(rope.target));
                lemma_visits_grow(meta@, m2);
            }
            generate_meta(graph, rope.target, this, meta, stack);
            let ghost ml = meta@;
            if let Some(id) = rope.miss.first() {
                proof {
                    assert(graph@[t as int]->Some_0.points_to(id));
                    lemma_visits_grow(meta@, m2);
                    assert forall|k: int| 0 <= k < stack@.len() implies graph.has(#[trigger] stack@[k]) && meta@[stack@[k].index() as int] is Some by {
                        if k < s0.len() {
                            assert(stack@[k] == s0[k]);
                            assert(m2[s0[k].index() as int] is Some);
                        }
                    }
                }
                generate_meta(graph, id, this, meta, stack);
            }
            proof {
                assert forall|i: int| 0 <= i < meta@.len() && (#[trigger] meta@[i]) is Some && m2[i] is None implies forall|x: NodeId| #[trigger] graph@[i]->Some_0.points_to(x)
                    ==> meta@[x.index() as int] is Some by {
                    if ml[i] is Some {
                        assert forall|x: NodeId| #[trigger] graph@[i]->Some_0.points_to(x) implies meta@[x.index() as int] is Some by {
                            assert(ml[x.index() as int] is Some);
                        }
                    }
                }
                assert(meta@[rope.target.index() as int] is Some) by {
                    assert(ml[rope.target.index() as int] is Some);
                }
            }
        },
        _ => {},
    }
    stack.pop();
    proof {
        assert(stack@ =~= s0);
        assert forall|i: int| 0 <= i < meta@.len() && (#[trigger] meta@[i]) is Some && m0[i] is None implies forall|x: NodeId| #[trigger] graph@[i]->Some_0.points_to(x)
            ==> meta@[x.index() as int] is Some by {
            if i != t {
                assert(m1[i] is None);
                assert(m2[i] is None);
            }
        }
    }
}

/// Whether a byte lies in one of the ranges.
pub open spec fn in_ranges(ranges: Seq<Range>, b: int) -> bool {
    exists|i: int| 0 <= i < ranges.len() && ranges[i].0 <= b <= (#[trigger] ranges[i]).1
}

/// The lookup table of a test for a byte: one entry per byte value, true
/// for the bytes of the ranges.
pub fn byte_table(ranges: &[Range]) -> (r: Vec<bool>)
    ensures
        r@.len() == 256,
        forall|b: int| 0 <= b < 256 ==> #[trigger] r@[b] == in_ranges(ranges@, b),
{
    let mut table: Vec<bool> = Vec::new();
    let mut b: usize = 0;
    while b < 256
        invariant
            b <= 256,
            table@.len() == b,
            forall|x: int| 0 <= x < b ==> #[trigger] table@[x] == in_ranges(ranges@, x),
        decreases 256 - b,
    {
        let mut found = false;
        let mut i: usize = 0;
        while i < ranges.len()
            invariant
                b < 256,
                i <= ranges@.len(),
                found == exists|k: int| 0 <= k < i && ranges@[k].0 <= b <= (#[trigger] ranges@[k]).1,
            decreases ranges@.len() - i,
        {
            let Range(lo, hi) = ranges[i];
            if (lo as usize) <= b && b <= (hi as usize) {
                found = true;
            }
            proof {
                assert(ranges@[i as int] == Range(lo, hi));
            }
            i = i + 1;
        }
        table.push(found);
        b = b + 1;
    }
    table
}

} // verus!
