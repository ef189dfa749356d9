//! The state graph that token definitions are compiled into: forks
//! branching on a byte, ropes matching a fixed run of bytes, and leaves
//! standing for matched tokens.

use vstd::prelude::*;

use std::collections::BTreeMap;

use crate::hash::{fnv1a_hash, node_bytes, node_encoding, spec_fnv1a};

pub mod disambiguate;
pub mod mir;
pub mod fork;
pub mod range;
pub mod regex;
pub mod rope;

pub use self::disambiguate::{winner, Disambiguate, Winner};
pub use self::fork::{Fork, ForkView};
pub use self::range::Range;
pub use self::rope::{Miss, Rope, RopeView};

verus! {

broadcast use {vstd::std_specs::vec::group_vec_axioms, vstd::std_specs::btree::group_btree_axioms};

/// Id of a node in the graph; ids start at 0.
#[derive(Clone, Copy, PartialEq, Eq, Hash, Debug, Structural)]
pub struct NodeId(u32);

impl NodeId {
    /// The index of the node in the graph's storage.
    pub closed spec fn index(self) -> nat {
        self.0 as nat
    }

    /// Index of the node.
    pub fn get(self) -> (r: usize)
        ensures
            r == self.index(),
    {
        self.0 as usize
    }

    /// The id of the node at index `n`.
    pub fn new(n: usize) -> (r: NodeId)
        requires
            n <= u32::MAX,
        ensures
            r.index() == n,
    {
        NodeId(n as u32)
    }

    /// Two ids are equal exactly when their indices are.
    pub proof fn lemma_index_injective(a: NodeId, b: NodeId)
        ensures
            (a.index() == b.index()) == (a == b),
    {
    }
}

/// A slot reserved in the graph for a node to be inserted later.
pub struct ReservedId(NodeId);

impl ReservedId {
    pub closed spec fn id(&self) -> NodeId {
        self.0
    }

    /// The id of the reserved slot.
    pub fn get(&self) -> (r: NodeId)
        ensures
            r == self.id(),
    {
        self.0
    }
}

/// Two leaves with the same priority were found to match the same input.
#[derive(Debug)]
pub struct DisambiguationError(pub NodeId, pub NodeId);

/// Why merging two nodes failed.
#[derive(Debug)]
pub enum GraphError {
    /// Two leaves of equal priority.
    Ambiguous(DisambiguationError),
    /// Both nodes are reserved slots not yet filled.
    Unfilled(NodeId, NodeId),
    /// The graph has no more ids to give out.
    Exhausted,
}

/// A node of the graph.
#[derive(PartialEq, Eq, Debug)]
pub enum Node<L> {
    /// Fork node, can lead to more than one state.
    Fork(Fork),
    /// Rope node, can lead to one state on match, one state on miss.
    Rope(Rope),
    /// Leaf node, terminal state.
    Leaf(L),
}

/// Model of a node.
pub enum NodeView<L> {
    Fork(ForkView),
    Rope(RopeView),
    Leaf(L),
}

impl<L> View for Node<L> {
    type V = NodeView<L>;

    open spec fn view(&self) -> NodeView<L> {
        match self {
            Node::Fork(f) => NodeView::Fork(f@),
            Node::Rope(r) => NodeView::Rope(r@),
            Node::Leaf(l) => NodeView::Leaf(*l),
        }
    }
}

impl<L> NodeView<L> {
    /// The state to go to when this node misses, if any.
    pub open spec fn miss_id(self) -> Option<NodeId> {
        match self {
            NodeView::Rope(rope) => rope.miss.spec_first(),
            NodeView::Fork(fork) => fork.miss,
            NodeView::Leaf(_) => None,
        }
    }

    /// Whether `id` is one of the states this node can go to.
    pub open spec fn points_to(self, id: NodeId) -> bool {
        match self {
            NodeView::Fork(fork) => fork.miss == Some(id) || exists|b: int| 0 <= b < 256 && #[trigger] fork.lut[b] == Some(id),
            NodeView::Rope(rope) => rope.target == id || rope.miss.spec_first() == Some(id),
            NodeView::Leaf(_) => false,
        }
    }

    /// Ropes match at least one byte.
    pub open spec fn sound(self) -> bool {
        match self {
            NodeView::Rope(rope) => rope.pattern.len() > 0,
            NodeView::Fork(fork) => fork.lut.len() == 256,
            NodeView::Leaf(_) => true,
        }
    }
}

impl<L> Node<L> {
    /// The state to go to when this node misses, if any.
    pub fn miss(&self) -> (r: Option<NodeId>)
        ensures
            r == self@.miss_id(),
    {
        match self {
            Node::Rope(rope) => {
                let m = rope.miss.first();
                m
            },
            Node::Fork(fork) => {
                proof {
                    fork.lemma_fields();
                }
                fork.miss
            },
            Node::Leaf(_) => None,
        }
    }

    /// The leaf of a leaf node.
    pub fn unwrap_leaf(&self) -> (r: &L)
        requires
            self is Leaf,
        ensures
            *r == self->Leaf_0,
    {
        match self {
            Node::Leaf(leaf) => leaf,
            _ => {
                proof {
                    assert(false);
                }
                unreached()
            },
        }
    }

    /// Mark every node this node leads to, directly or not, that is not
    /// marked yet.
    fn shake(&self, graph: &Graph<L>, filter: &mut Vec<bool>)
        requires
            graph.well_formed(),
            old(filter)@.len() == graph@.len(),
            self@.sound(),
            forall|id: NodeId| #[trigger] self@.points_to(id) ==> graph.has(id) && filled_from(graph@, id.index() as int),
        ensures
            marks_grow(final(filter)@, old(filter)@),
            explored(graph@, final(filter)@, old(filter)@),
            forall|id: NodeId| #[trigger] self@.points_to(id) ==> final(filter)@[id.index() as int],
            marked_from_targets(graph@, final(filter)@, old(filter)@, self@),
        decreases count_unmarked(old(filter)@), 2int,
    {
        match self {
            Node::Fork(fork) => {
                proof {
                    fork.lemma_fields();
                }
                fork.shake(graph, filter)
            },
            Node::Rope(rope) => rope.shake(graph, filter),
            Node::Leaf(_) => {},
        }
    }

    /// Structural equality of forks and ropes; leaves never compare equal.
    fn same(&self, other: &Node<L>) -> (r: bool)
        requires
            self@.sound(),
            other@.sound(),
        ensures
            r == ((self@ is Fork || self@ is Rope) && self@ == other@),
    {
        match (self, other) {
            (Node::Fork(a), Node::Fork(b)) => a.same(b),
            (Node::Rope(a), Node::Rope(b)) => a.same(b),
            _ => false,
        }
    }
}

/// Every slot of `old`, filled or reserved, is still in `new`,
/// unchanged; `new` may have more slots after them.
pub open spec fn grows<L>(new: Seq<Option<NodeView<L>>>, old: Seq<Option<NodeView<L>>>) -> bool {
    &&& old.len() <= new.len()
    &&& forall|i: int| 0 <= i < old.len() ==> #[trigger] new[i] == old[i]
}

/// The graph: storage of all nodes, and bookkeeping for merges.
pub struct Graph<L> {
    /// Internal storage of all allocated nodes. Once a node is
    /// put here, it is never mutated.
    nodes: Vec<Option<Node<L>>>,
    /// Pairs of nodes that have been merged (or are being merged), with
    /// the id of the result.
    merges: Vec<(NodeId, NodeId, NodeId)>,
    /// Hashes of pushed nodes, to find identical nodes pushed before.
    hashes: BTreeMap<u64, NodeId>,
}

impl<L> View for Graph<L> {
    type V = Seq<Option<NodeView<L>>>;

    closed spec fn view(&self) -> Seq<Option<NodeView<L>>> {
        Seq::new(self.nodes@.len(), |i: int| match self.nodes@[i] {
            Some(n) => Some(n@),
            None => None,
        })
    }
}

impl<L> Graph<L> {
    /// Ids fit in 32 bits, every node is sound and points inside the
    /// graph, and merged pairs and their results are ids of the graph.
    pub closed spec fn well_formed(&self) -> bool {
        &&& self.nodes@.len() <= u32::MAX as nat + 1
        &&& forall|i: int| 0 <= i < self.nodes@.len() ==> match #[trigger] self.nodes@[i] {
            Some(n) => n@.sound() && forall|id: NodeId| #[trigger] n@.points_to(id) ==> id.index() < self.nodes@.len(),
            None => true,
        }
        &&& forall|k: int| 0 <= k < self.merges@.len() ==> {
            let (a, b, m) = #[trigger] self.merges@[k];
            a.index() < self.nodes@.len() && b.index() < self.nodes@.len() && m.index() < self.nodes@.len()
        }
    }

    /// Whether `id` names a slot of the graph (filled or reserved).
    pub open spec fn has(&self, id: NodeId) -> bool {
        id.index() < self@.len()
    }

    /// A node that can be stored: sound and pointing inside the graph.
    pub open spec fn fits(&self, node: NodeView<L>) -> bool {
        node.sound() && forall|id: NodeId| #[trigger] node.points_to(id) ==> self.has(id)
    }

    /// Whether the graph can give out another id.
    pub open spec fn has_room(&self) -> bool {
        self@.len() <= u32::MAX
    }

    /// The merges remembered, oldest first: each pair, lower id first,
    /// with the id of its merge.
    pub closed spec fn memo(&self) -> Seq<(NodeId, NodeId, NodeId)> {
        self.merges@
    }

    /// The id kept for each hash of a pushed fork or rope: the first one
    /// pushed with that hash.
    pub closed spec fn hashed(&self) -> Map<u64, NodeId> {
        self.hashes@
    }

    /// The id of a node identical to `node` that the hash of `node` leads
    /// to, if any.
    pub open spec fn found_identical(&self, node: NodeView<L>) -> Option<NodeId> {
        let h = spec_fnv1a(node_encoding(node));
        if self.hashed().contains_key(h) && self.has(self.hashed()[h]) && self@[self.hashed()[h].index() as int] == Some(node) {
            Some(self.hashed()[h])
        } else {
            None
        }
    }

    proof fn lemma_view(&self)
        ensures
            self@.len() == self.nodes@.len(),
            forall|i: int| 0 <= i < self.nodes@.len() ==> #[trigger] self@[i] == match self.nodes@[i] {
                Some(n) => Some(n@),
                None => None,
            },
    {
    }

    /// An empty graph.
    pub fn new() -> (r: Graph<L>)
        ensures
            r.well_formed(),
            r@ == Seq::<Option<NodeView<L>>>::empty(),
    {
        let nodes: Vec<Option<Node<L>>> = Vec::new();
        let r = Graph { nodes, merges: Vec::new(), hashes: BTreeMap::new() };
        proof {
            assert(r@ =~= Seq::<Option<NodeView<L>>>::empty());
        }
        r
    }

    /// Whether the graph can give out another id.
    pub(crate) fn room(&self) -> (r: bool)
        requires
            self.well_formed(),
        ensures
            r == self.has_room(),
    {
        proof {
            self.lemma_view();
        }
        self.nodes.len() <= 4294967295usize
    }

    /// A well-formed graph has at most `u32::MAX + 1` slots.
    pub(crate) proof fn lemma_len_bound(&self)
        requires
            self.well_formed(),
        ensures
            self@.len() <= u32::MAX + 1,
    {
        self.lemma_view();
    }

    /// A node stored in a well-formed graph could be stored again.
    pub(crate) proof fn lemma_stored_fits(&self, id: NodeId)
        requires
            self.well_formed(),
            self.has(id),
            self@[id.index() as int] is Some,
        ensures
            self.fits(self@[id.index() as int]->Some_0),
    {
        self.lemma_view();
        let n = self@[id.index() as int]->Some_0;
        assert(self.nodes@[id.index() as int] is Some);
        assert forall|x: NodeId| #[trigger] n.points_to(x) implies self.has(x) by {}
    }

    /// The id the next node will get.
    fn next_id(&self) -> (r: NodeId)
        requires
            self.well_formed(),
            self.has_room(),
        ensures
            r.index() == self@.len(),
    {
        NodeId::new(self.nodes.len())
    }

    /// Reserve an empty slot for a node and return an id for it, to be
    /// filled by `insert`.
    pub fn reserve(&mut self) -> (r: ReservedId)
        requires
            old(self).well_formed(),
            old(self).has_room(),
        ensures
            final(self).well_formed(),
            final(self)@ == old(self)@.push(None),
            r.id().index() == old(self)@.len(),
            final(self).has(r.id()),
            final(self).memo() == old(self).memo(),
    {
        let id = self.next_id();
        self.nodes.push(None);
        proof {
            assert(self@ =~= old(self)@.push(None));
        }
        ReservedId(id)
    }

    /// Fill a reserved slot with a node; returns its id.
    pub fn insert(&mut self, id: ReservedId, node: Node<L>) -> (r: NodeId)
        requires
            old(self).well_formed(),
            old(self).has(id.id()),
            old(self).fits(node@),
        ensures
            final(self).well_formed(),
            final(self)@ == old(self)@.update(id.id().index() as int, Some(node@)),
            r == id.id(),
            final(self).memo() == old(self).memo(),
    {
        let ghost node_view = node@;
        let i = id.0.get();
        self.nodes.set(i, Some(node));
        proof {
            assert(self@ =~= old(self)@.update(i as int, Some(node_view)));
        }
        id.0
    }

    /// Push a node onto the graph and get its id. A fork or rope identical
    /// to one pushed before may get that node's id instead.
    pub fn push(&mut self, node: Node<L>) -> (r: NodeId)
        requires
            old(self).well_formed(),
            old(self).has_room(),
            old(self).fits(node@),
        ensures
            final(self).well_formed(),
            final(self).has(r),
            final(self)@[r.index() as int] == Some(node@),
            final(self)@ == old(self)@ || (final(self)@ == old(self)@.push(Some(node@)) && r.index() == old(self)@.len()),
            final(self).memo() == old(self).memo(),
            node@ is Leaf ==> final(self)@ == old(self)@.push(Some(node@)) && r.index() == old(self)@.len() && final(self).hashed()
                == old(self).hashed(),
            !(node@ is Leaf) ==> (old(self).found_identical(node@) matches Some(id) ==> (r == id && final(self)@ == old(self)@
                && final(self).hashed() == old(self).hashed())),
            !(node@ is Leaf) && old(self).found_identical(node@) is None ==> {
                &&& final(self)@ == old(self)@.push(Some(node@))
                &&& r.index() == old(self)@.len()
                &&& final(self).hashed() == if old(self).hashed().contains_key(spec_fnv1a(node_encoding(node@))) {
                    old(self).hashed()
                } else {
                    old(self).hashed().insert(spec_fnv1a(node_encoding(node@)), r)
                }
            },
    {
        if let Node::Leaf(_) = node {
            return self.push_unchecked(node);
        }
        let bytes = node_bytes(&node);
        let hash = fnv1a_hash(bytes.as_slice());
        let next_id = self.next_id();
        proof {
            lemma_hash_keys_ordered();
            self.lemma_view();
        }
        match self.hashes.get(&hash) {
            Some(found) => {
                let id = *found;
                let i = id.get();
                if i < self.nodes.len() {
                    match &self.nodes[i] {
                        Some(existing) => {
                            if existing.same(&node) {
                                return id;
                            }
                        },
                        None => {},
                    }
                }
            },
            None => {
                self.hashes.insert(hash, next_id);
            },
        }
        self.push_unchecked(node)
    }

    fn push_unchecked(&mut self, node: Node<L>) -> (r: NodeId)
        requires
            old(self).well_formed(),
            old(self).has_room(),
            old(self).fits(node@),
        ensures
            final(self).well_formed(),
            final(self)@ == old(self)@.push(Some(node@)),
            r.index() == old(self)@.len(),
            final(self).has(r),
            final(self).merges == old(self).merges,
            final(self).hashes == old(self).hashes,
    {
        let ghost node_view = node@;
        let id = self.next_id();
        self.nodes.push(Some(node));
        proof {
            assert(self@ =~= old(self)@.push(Some(node_view)));
        }
        id
    }

    /// The node with the given id, if its slot is filled.
    pub fn get(&self, id: NodeId) -> (r: Option<&Node<L>>)
        ensures
            match r {
                Some(n) => 0 <= id.index() < self@.len() && self@[id.index() as int] == Some(n@),
                None => id.index() >= self@.len() || self@[id.index() as int] is None,
            },
    {
        let i = id.get();
        if i < self.nodes.len() {
            match &self.nodes[i] {
                Some(n) => Some(n),
                None => None,
            }
        } else {
            None
        }
    }

    /// All node slots, in id order.
    pub fn nodes(&self) -> (r: &[Option<Node<L>>])
        ensures
            r@.len() == self@.len(),
            forall|i: int| 0 <= i < r@.len() ==> #[trigger] self@[i] == match r@[i] {
                Some(n) => Some(n@),
                None => None,
            },
    {
        self.nodes.as_slice()
    }
}

/// A fork whose table is empty and that misses to `id`.
pub open spec fn miss_only(fork: ForkView, id: NodeId) -> bool {
    &&& fork.lut == Seq::new(256, |i: int| None::<NodeId>)
    &&& fork.miss == Some(id)
}

/// How a table entry or a miss of two merged forks combine: one side's
/// target when the other has none, a merge of the two when both have one.
pub open spec fn combined<L: Disambiguate>(g: &Graph<L>, left: Option<NodeId>, right: Option<NodeId>, out: Option<NodeId>) -> bool {
    match (left, right) {
        (None, None) => out is None,
        (Some(a), None) => out == Some(a),
        (None, Some(b)) => out == Some(b),
        (Some(a), Some(b)) => out matches Some(m) && g.has(m) && merge_result(g, a, b, m),
    }
}

/// Two entries that can be put together without merging nodes: at most
/// one of them is present, or both go to the same node.
pub open spec fn mergeable(left: Option<NodeId>, right: Option<NodeId>) -> bool {
    !(left is Some && right is Some && left != right)
}

/// Two forks whose misses and entries can all be put together without
/// merging nodes.
pub open spec fn forks_mergeable(left: ForkView, right: ForkView) -> bool {
    &&& mergeable(left.miss, right.miss)
    &&& forall|b: int| 0 <= b < 256 ==> mergeable(#[trigger] left.lut[b], right.lut[b])
}

/// A table entry after a branch to `target`: an entry going elsewhere
/// goes to a merge of the two, any other goes to `target`.
pub open spec fn branched<L: Disambiguate>(g: &Graph<L>, before: Option<NodeId>, target: NodeId, after: Option<NodeId>) -> bool {
    match before {
        Some(x) => if x != target {
            after matches Some(m) && g.has(m) && merge_result(g, x, target, m)
        } else {
            after == Some(target)
        },
        None => after == Some(target),
    }
}

impl<L> Graph<L> {
    /// Every node points only at filled slots.
    pub open spec fn closed(&self) -> bool {
        forall|i: int| 0 <= i < self@.len() && (#[trigger] self@[i]) is Some ==> forall|id: NodeId| #[trigger] self@[i]->Some_0.points_to(id)
            ==> self.has(id) && self@[id.index() as int] is Some
    }

    /// Whether `id` names a filled slot.
    fn is_filled(&self, id: NodeId) -> (r: bool)
        ensures
            r == (self.has(id) && self@[id.index() as int] is Some),
    {
        proof {
            self.lemma_view();
        }
        let i = id.get();
        i < self.nodes.len() && self.nodes[i].is_some()
    }

    /// Whether every node `node` leads to is a filled slot.
    fn targets_filled(&self, node: &Node<L>) -> (r: bool)
        requires
            node@.sound(),
        ensures
            r == forall|id: NodeId| #[trigger] node@.points_to(id) ==> self.has(id) && self@[id.index() as int] is Some,
    {
        match node {
            Node::Fork(fork) => {
                proof {
                    fork.lemma_fields();
                    assert(node@ == NodeView::<L>::Fork(fork@));
                }
                if let Some(m) = fork.miss {
                    if !self.is_filled(m) {
                        proof {
                            assert(node@.points_to(m));
                        }
                        return false;
                    }
                }
                let mut b: usize = 0;
                while b < 256
                    invariant
                        b <= 256,
                        fork@.lut.len() == 256,
                        fork.lut@ == fork@.lut,
                            node@ == NodeView::<L>::Fork(fork@),
                        fork@.miss matches Some(m) ==> self.has(m) && self@[m.index() as int] is Some,
                        forall|k: int| 0 <= k < b ==> (#[trigger] fork@.lut[k] matches Some(x) ==> self.has(x) && self@[x.index() as int] is Some),
                    decreases 256 - b,
                {
                    if let Some(x) = fork.lut[b] {
                        if !self.is_filled(x) {
                            proof {
                                assert(fork@.lut[b as int] == Some(x));
                                assert(NodeView::<L>::Fork(fork@).points_to(x));
                            }
                            return false;
                        }
                    }
                    b = b + 1;
                }
                proof {
                    assert forall|id: NodeId| #[trigger] node@.points_to(id) implies self.has(id) && self@[id.index() as int] is Some by {
                        if fork@.miss != Some(id) {
                            assert(exists|k: int| 0 <= k < 256 && #[trigger] fork@.lut[k] == Some(id));
                            let k = choose|k: int| 0 <= k < 256 && #[trigger] fork@.lut[k] == Some(id);
                            assert(fork@.lut[k] matches Some(x) ==> self.has(x) && self@[x.index() as int] is Some);
                        }
                    }
                }
                true
            },
            Node::Rope(rope) => {
                proof {
                    assert(node@ == NodeView::<L>::Rope(rope@));
                    assert(node@.points_to(rope.target));
                }
                let first = rope.miss.first();
                let miss_ok = match first {
                    Some(m) => {
                        proof {
                            assert(node@.points_to(m));
                        }
                        self.is_filled(m)
                    },
                    None => true,
                };
                self.is_filled(rope.target) && miss_ok
            },
            Node::Leaf(_) => true,
        }
    }

    /// Whether every node points only at filled slots.
    pub fn is_closed(&self) -> (r: bool)
        requires
            self.well_formed(),
        ensures
            r == self.closed(),
    {
        proof {
            self.lemma_view();
        }
        let mut i: usize = 0;
        while i < self.nodes.len()
            invariant
                self.well_formed(),
                i <= self.nodes@.len(),
                self@.len() == self.nodes@.len(),
                forall|k: int| 0 <= k < i && (#[trigger] self@[k]) is Some ==> forall|id: NodeId| #[trigger] self@[k]->Some_0.points_to(id)
                    ==> self.has(id) && self@[id.index() as int] is Some,
            decreases self.nodes@.len() - i,
        {
            proof {
                self.lemma_view();
            }
            match &self.nodes[i] {
                Some(node) => {
                    proof {
                        assert(self@[i as int] == Some(node@));
                        assert(node@.sound());
                    }
                    if !self.targets_filled(node) {
                        proof {
                            let id = choose|id: NodeId| #[trigger] node@.points_to(id) && !(self.has(id) && self@[id.index() as int] is Some);
                            assert(self@[i as int]->Some_0.points_to(id));
                        }
                        return false;
                    }
                },
                None => {},
            }
            i = i + 1;
        }
        true
    }

    /// Remove every node that the root does not lead to.
    pub fn shake(&mut self, root: NodeId)
        requires
            old(self).well_formed(),
            old(self).has(root),
            filled_from(old(self)@, root.index() as int),
        ensures
            final(self).well_formed(),
            final(self).closed(),
            final(self)@.len() == old(self)@.len(),
            final(self)@[root.index() as int] == old(self)@[root.index() as int],
            final(self)@ == shaken(old(self)@, root.index() as int),
    {
        proof {
            self.lemma_view();
        }
        let mut filter: Vec<bool> = vec![false; self.nodes.len()];
        let r = root.get();
        filter.set(r, true);
        let ghost f0 = filter@;
        match &self.nodes[r] {
            Some(node) => {
                proof {
                    assert(self@[r as int] == Some(node@));
                    assert forall|id: NodeId| #[trigger] node@.points_to(id) implies self.has(id) && filled_from(self@, id.index() as int) by {
                        assert(self@[r as int]->Some_0.points_to(id));
                        lemma_filled_step(self@, r as int, id);
                    }
                    assert(node@.sound());
                }
                node.shake(self, &mut filter);
                proof {
                    assert(f0[r as int]);
                    assert(filter@[r as int]);
                    assert forall|k: int| 0 <= k < filter@.len() && #[trigger] filter@[k] implies reachable(self@, r as int, k) by {
                        if k == r {
                            assert(reaches(self@, r as int, k, 0));
                        } else {
                            assert(!f0[k]);
                            let x = choose|x: NodeId| #[trigger] node@.points_to(x) && reachable(self@, x.index() as int, k);
                            assert(self@[r as int]->Some_0.points_to(x));
                            lemma_reach_step(self@, r as int, x, k);
                        }
                    }
                }
            },
            None => {},
        }
        let ghost marked = filter@;
        let ghost g0 = self@;
        let mut i: usize = 0;
        while i < self.nodes.len()
            invariant
                self.nodes@.len() == g0.len(),
                filter@ == marked,
                marked.len() == g0.len(),
                self.merges == old(self).merges,
                old(self).well_formed(),
                g0 == old(self)@,
                forall|k: int| 0 <= k < g0.len() ==> #[trigger] self.nodes@[k] == if k < i && !marked[k] { None } else { old(self).nodes@[k] },
            decreases g0.len() - i,
        {
            if !filter[i] {
                self.nodes.set(i, None);
            }
            i = i + 1;
        }
        proof {
            self.lemma_view();
            old(self).lemma_view();
            assert forall|k: int| 0 <= k < g0.len() implies #[trigger] self@[k] == if !marked[k] { None } else { g0[k] } by {}
            assert forall|k: int| 0 <= k < self@.len() && (#[trigger] self@[k]) is Some implies forall|id: NodeId| #[trigger] self@[k]->Some_0.points_to(id)
                ==> self.has(id) && self@[id.index() as int] is Some by {
                assert(marked[k]);
                assert forall|id: NodeId| #[trigger] self@[k]->Some_0.points_to(id) implies self.has(id) && self@[id.index() as int] is Some by {
                    assert(g0[k] is Some);
                    assert(marked[id.index() as int]);
                }
            }
            assert(self.well_formed());
            assert(self.closed());
            assert forall|k: int| 0 <= k < g0.len() implies #[trigger] self@[k] == (if reachable(g0, r as int, k) { g0[k] } else { None }) by {
                if reachable(g0, r as int, k) {
                    let n = choose|n: nat| #[trigger] reaches(g0, r as int, k, n);
                    lemma_reached_kept(self, g0, r as int, k, n);
                }
            }
            assert(self@ =~= shaken(g0, r as int));
        }
    }

    /// The node `id` as a fork: a fork is copied, a rope is turned into a
    /// fork on its first range, and a leaf or reserved slot becomes an
    /// empty fork missing to it.
    pub fn fork_off(&mut self, id: NodeId) -> (r: Fork)
        requires
            old(self).well_formed(),
            old(self).has(id),
            old(self).has_room(),
        ensures
            final(self).well_formed(),
            grows(final(self)@, old(self)@),
            final(self)@.len() <= old(self)@.len() + 1,
            final(self).fits(NodeView::Fork(r@)),
            final(self).memo() == old(self).memo(),
            match old(self)@[id.index() as int] {
                Some(NodeView::Fork(fork)) => r@ == fork,
                Some(NodeView::Rope(rope)) => exists|next: NodeId| #[trigger] rope::first_step(rope, next, r@),
                _ => miss_only(r@, id),
            },
            old(self)@[id.index() as int] matches Some(NodeView::Fork(_)) ==> final(self)@ == old(self)@,
            (old(self)@[id.index() as int] is None || (old(self)@[id.index() as int] matches Some(NodeView::Leaf(_)))) ==> final(self)@
                == old(self)@,
            old(self)@[id.index() as int] matches Some(NodeView::Rope(rope)) ==> (rope.pattern.len() == 1 ==> rope::first_step(
                rope,
                rope.target,
                r@,
            ) && final(self)@ == old(self)@),
            old(self)@[id.index() as int] matches Some(NodeView::Rope(rope)) ==> (rope.pattern.len() > 1 ==> (exists|next: NodeId|
                #[trigger] rope::first_step(rope, next, r@) && final(self).has(next) && final(self)@[next.index() as int] == Some(
                NodeView::<L>::Rope(rope::rest_of(rope)),
            )) && (final(self)@ == old(self)@ || final(self)@ == old(self)@.push(Some(NodeView::<L>::Rope(rope::rest_of(rope)))))),
    {
        proof {
            self.lemma_view();
        }
        match self.get(id) {
            Some(Node::Fork(fork)) => {
                let r = fork.copy();
                proof {
                    assert(self.nodes@[id.index() as int] is Some);
                    assert(self.fits(NodeView::Fork(r@)));
                }
                r
            },
            Some(Node::Rope(rope)) => {
                let rope = rope.copy();
                proof {
                    assert(self.nodes@[id.index() as int] is Some);
                }
                let r = rope.into_fork(self);
                r
            },
            _ => {
                let r = Fork::new().miss(Some(id));
                proof {
                    assert(r@.lut =~= Seq::new(256, |i: int| None::<NodeId>));
                    assert forall|x: NodeId| #[trigger] NodeView::<L>::Fork(r@).points_to(x) implies self.has(x) by {
                        if r@.miss != Some(x) {
                            let b = choose|b: int| 0 <= b < 256 && #[trigger] r@.lut[b] == Some(x);
                        }
                    }
                }
                r
            },
        }
    }
}

/// What merging `a` and `b` gives when at most one of them is a fork or
/// rope: a leaf wins over a reserved slot, the higher ranking of two
/// leaves wins, and two reserved slots or two leaves of equal rank are
/// refused. Other pairs are not constrained here.
pub open spec fn merge_outcome<L: Disambiguate>(
    g: Seq<Option<NodeView<L>>>,
    a: NodeId,
    b: NodeId,
    r: Result<NodeId, GraphError>,
) -> bool {
    match (g[a.index() as int], g[b.index() as int]) {
        (None, None) => (r matches Err(GraphError::Unfilled(x, y)) && x == a && y == b),
        (Some(NodeView::Leaf(_)), None) => r == Ok::<NodeId, GraphError>(a),
        (None, Some(NodeView::Leaf(_))) => r == Ok::<NodeId, GraphError>(b),
        (Some(NodeView::Leaf(left)), Some(NodeView::Leaf(right))) => {
            &&& left.rank() < right.rank() ==> r == Ok::<NodeId, GraphError>(b)
            &&& left.rank() > right.rank() ==> r == Ok::<NodeId, GraphError>(a)
            &&& left.rank() == right.rank() ==> (r matches Err(GraphError::Ambiguous(e)) && e.0 == a && e.1 == b)
        },
        _ => true,
    }
}

/// Pushing a fork or rope again gives the id the first push gave, and
/// then leaves the graph as it is, unless a different node with the same
/// hash was pushed before it. `g1` and `r1` are what the contract of
/// `Graph::push` allows for pushing `node` onto `g0`.
pub proof fn law_push_again<L>(g0: &Graph<L>, g1: &Graph<L>, node: NodeView<L>, r1: NodeId)
    requires
        !(node is Leaf),
        !g0.hashed().contains_key(spec_fnv1a(node_encoding(node))) || g0.found_identical(node) is Some,
        g0.found_identical(node) matches Some(id) ==> (r1 == id && g1@ == g0@ && g1.hashed() == g0.hashed()),
        g0.found_identical(node) is None ==> {
            &&& g1@ == g0@.push(Some(node))
            &&& r1.index() == g0@.len()
            &&& g1.hashed() == if g0.hashed().contains_key(spec_fnv1a(node_encoding(node))) {
                g0.hashed()
            } else {
                g0.hashed().insert(spec_fnv1a(node_encoding(node)), r1)
            }
        },
    ensures
        g1.found_identical(node) == Some(r1),
{
}

/// Hash keys are ordered the way `BTreeMap` expects.
proof fn lemma_hash_keys_ordered()
    ensures
        vstd::laws_cmp::obeys_cmp::<u64>(),
{
    broadcast use vstd::laws_cmp::group_laws_cmp;
}

/// The fork taking each entry and the miss from whichever of two forks
/// has one (the first when both have).
pub open spec fn union_fork(x: ForkView, y: ForkView) -> ForkView {
    ForkView {
        lut: Seq::new(256, |i: int| if x.lut[i] is Some { x.lut[i] } else { y.lut[i] }),
        miss: if x.miss is Some { x.miss } else { y.miss },
    }
}

/// Whether the merge of two forks stops at its miss: there is none, or it
/// is a leaf or a reserved slot.
pub open spec fn miss_settled<L>(g: Seq<Option<NodeView<L>>>, miss: Option<NodeId>) -> bool {
    miss matches Some(x) ==> (0 <= x.index() < g.len() && ((g[x.index() as int] matches Some(NodeView::Leaf(_))) || g[x.index() as int] is None))
}

/// The fork branching on the first range of a rope to `next`, and
/// missing where the rope misses on its first byte.
pub open spec fn step_fork_to(rope: RopeView, next: NodeId) -> ForkView {
    ForkView {
        lut: Seq::new(256, |b: int| if rope.pattern[0].0 <= b <= rope.pattern[0].1 { Some(next) } else { None }),
        miss: rope.miss.spec_first(),
    }
}

/// The fork a rope of one range is merged as: the range leads to the
/// rope's target, and a miss goes where the rope misses on its first byte.
pub open spec fn step_fork(rope: RopeView) -> ForkView {
    step_fork_to(rope, rope.target)
}

/// Whether slot `a` holds a rope of several ranges and slot `b` is merged
/// as a fork with no entry in the rope's first range, whose miss and the
/// rope's can be put together, the miss of the two stopping the merge.
pub open spec fn rope_beside<L>(g: Seq<Option<NodeView<L>>>, a: NodeId, b: NodeId) -> bool {
    &&& g[a.index() as int] matches Some(NodeView::Rope(rope))
    &&& rope.pattern.len() > 1
    &&& slot_fork(g[b.index() as int], b) matches Some(fb)
    &&& forall|x: int| 0 <= x < 256 && rope.pattern[0].0 <= x <= rope.pattern[0].1 ==> (#[trigger] fb.lut[x]) is None
    &&& mergeable(rope.miss.spec_first(), fb.miss)
    &&& miss_settled(g, union_fork(step_fork_to(rope, rope.target), fb).miss)
}

/// Whether slot `m` holds the merge of a rope of several ranges with a
/// fork `other`: a fork branching on the rope's first range to a node
/// holding the rest of the rope, and elsewhere as `other` does.
pub open spec fn rope_merged<L>(g: Seq<Option<NodeView<L>>>, m: NodeId, rope: RopeView, other: ForkView) -> bool {
    exists|next: NodeId|
        0 <= next.index() < g.len() && g[next.index() as int] == Some(NodeView::<L>::Rope(rope::rest_of(rope))) && #[trigger] g[m.index() as int]
            == Some(NodeView::<L>::Fork(union_fork(step_fork_to(rope, next), other)))
}

/// The fork a slot is merged as, when it is not a rope of several
/// ranges: a fork as it is, a rope of one range as its step, and a leaf
/// or a reserved slot as a fork missing to it.
pub open spec fn slot_fork<L>(slot: Option<NodeView<L>>, id: NodeId) -> Option<ForkView> {
    match slot {
        Some(NodeView::Fork(f)) => Some(f),
        Some(NodeView::Rope(rope)) => if rope.pattern.len() == 1 {
            Some(step_fork(rope))
        } else {
            None
        },
        _ => Some(ForkView { lut: Seq::new(256, |i: int| None::<NodeId>), miss: Some(id) }),
    }
}

/// Whether merging `a` and `b` is settled without building a node: each
/// is a leaf or a reserved slot.
pub open spec fn merge_direct<L>(g: Seq<Option<NodeView<L>>>, a: NodeId, b: NodeId) -> bool {
    match (g[a.index() as int], g[b.index() as int]) {
        (None, None) => true,
        (Some(NodeView::Leaf(_)), None) => true,
        (None, Some(NodeView::Leaf(_))) => true,
        (Some(NodeView::Leaf(_)), Some(NodeView::Leaf(_))) => true,
        _ => false,
    }
}

/// The key a merged pair is remembered under: the lower id first.
pub open spec fn pair_key(a: NodeId, b: NodeId) -> (NodeId, NodeId) {
    if a.index() > b.index() {
        (b, a)
    } else {
        (a, b)
    }
}

/// The merge remembered last for the pair `(a, b)`, if any.
pub open spec fn remembered(memo: Seq<(NodeId, NodeId, NodeId)>, a: NodeId, b: NodeId) -> Option<NodeId>
    decreases memo.len(),
{
    if memo.len() == 0 {
        None
    } else if memo.last().0 == a && memo.last().1 == b {
        Some(memo.last().2)
    } else {
        remembered(memo.drop_last(), a, b)
    }
}

/// Every merge remembered in `old` is still remembered, with the same
/// result, in `new`.
pub open spec fn memo_kept<L>(new: &Graph<L>, old: &Graph<L>) -> bool {
    forall|x: NodeId, y: NodeId| #[trigger] remembered(old.memo(), x, y) is Some ==> remembered(new.memo(), x, y) == remembered(old.memo(), x, y)
}

/// `m` is what merging `a` and `b` gives in `g`: `a` itself when the two
/// are the same, the winner when the merge is settled directly, and the
/// merge remembered for the pair otherwise.
pub open spec fn merge_result<L: Disambiguate>(g: &Graph<L>, a: NodeId, b: NodeId, m: NodeId) -> bool {
    if a == b {
        m == a
    } else if merge_direct(g@, a, b) {
        merge_outcome(g@, a, b, Ok(m))
    } else {
        remembered(g.memo(), pair_key(a, b).0, pair_key(a, b).1) == Some(m)
    }
}

/// The last remembered entry for a pair is the one found scanning back
/// from the end.
proof fn lemma_remembered_scan(memo: Seq<(NodeId, NodeId, NodeId)>, a: NodeId, b: NodeId, k: int)
    requires
        0 <= k <= memo.len(),
        forall|j: int| k <= j < memo.len() ==> !((#[trigger] memo[j]).0 == a && memo[j].1 == b),
    ensures
        remembered(memo, a, b) == remembered(memo.take(k), a, b),
    decreases memo.len() - k,
{
    if k < memo.len() {
        assert(memo.take(memo.len() - 1) == memo.drop_last());
        lemma_remembered_scan(memo.drop_last(), a, b, k);
        assert(memo.drop_last().take(k) == memo.take(k));
    } else {
        assert(memo.take(k) == memo);
    }
}

/// Pushing an entry for a pair not remembered yet keeps every remembered
/// merge and remembers the new one.
proof fn lemma_remember_push(memo: Seq<(NodeId, NodeId, NodeId)>, e: (NodeId, NodeId, NodeId))
    requires
        remembered(memo, e.0, e.1) is None,
    ensures
        remembered(memo.push(e), e.0, e.1) == Some(e.2),
        forall|x: NodeId, y: NodeId| #[trigger] remembered(memo, x, y) is Some ==> remembered(memo.push(e), x, y) == remembered(memo, x, y),
{
    assert(memo.push(e).drop_last() == memo);
}

/// A merge result stays one as the graph grows and keeps its remembered merges.
proof fn lemma_merge_result_kept<L: Disambiguate>(old: &Graph<L>, new: &Graph<L>, a: NodeId, b: NodeId, m: NodeId)
    requires
        grows(new@, old@),
        memo_kept(new, old),
        old.has(a),
        old.has(b),
        merge_result(old, a, b, m),
    ensures
        merge_result(new, a, b, m),
{
    assert(new@[a.index() as int] == old@[a.index() as int]);
    assert(new@[b.index() as int] == old@[b.index() as int]);
    if a != b && !merge_direct(old@, a, b) {
        assert(remembered(old.memo(), pair_key(a, b).0, pair_key(a, b).1) is Some);
    }
}

/// Merging two leaves picks the same winner whichever of them comes
/// first, the leaf of higher rank; leaves of equal rank are ambiguous
/// either way.
pub proof fn law_merge_leaves_symmetric<L: Disambiguate>(
    g: Seq<Option<NodeView<L>>>,
    a: NodeId,
    b: NodeId,
    ab: Result<NodeId, GraphError>,
    ba: Result<NodeId, GraphError>,
)
    requires
        0 <= a.index() < g.len(),
        0 <= b.index() < g.len(),
        g[a.index() as int] matches Some(NodeView::Leaf(_)),
        g[b.index() as int] matches Some(NodeView::Leaf(_)),
        merge_outcome(g, a, b, ab),
        merge_outcome(g, b, a, ba),
    ensures
        ab is Ok <==> ba is Ok,
        ab is Ok ==> ab == ba,
{
}

/// Merging a pair again, either way round, gives what merging it gave
/// before: a merge settled directly picks the same winner, and any other
/// merge is remembered under the pair's key. `r` is any result that the
/// contract of `Graph::merge(b, a)` allows on a graph in which `m` is the
/// result of merging `a` and `b`.
pub proof fn law_merge_again<L: Disambiguate>(g: &Graph<L>, a: NodeId, b: NodeId, m: NodeId, r: Result<NodeId, GraphError>)
    requires
        g.has(a),
        g.has(b),
        merge_result(g, a, b, m),
        b == a ==> r == Ok::<NodeId, GraphError>(b),
        b != a ==> merge_outcome(g@, b, a, r),
        b != a ==> (!merge_direct(g@, b, a) ==> (remembered(g.memo(), pair_key(b, a).0, pair_key(b, a).1) matches Some(x)
            ==> r == Ok::<NodeId, GraphError>(x))),
    ensures
        r == Ok::<NodeId, GraphError>(m),
{
    NodeId::lemma_index_injective(a, b);
    if a != b {
        if merge_direct(g@, a, b) {
            assert(merge_outcome(g@, a, b, Ok::<NodeId, GraphError>(m)));
            assert(merge_direct(g@, b, a));
        } else {
            assert(pair_key(b, a) == pair_key(a, b));
        }
    }
}

/// A node inserted into a slot reserved for it is what reading that slot
/// gives back, and every slot there was before reads as it did.
pub proof fn law_insert_reads_back<L>(
    before: Seq<Option<NodeView<L>>>,
    reserved: Seq<Option<NodeView<L>>>,
    after: Seq<Option<NodeView<L>>>,
    id: NodeId,
    node: NodeView<L>,
)
    requires
        reserved == before.push(None),
        id.index() == before.len(),
        after == reserved.update(id.index() as int, Some(node)),
    ensures
        after[id.index() as int] == Some(node),
        grows(after, before),
        after.len() == before.len() + 1,
{
}

/// Number of unmarked slots.
pub open spec fn count_unmarked(s: Seq<bool>) -> nat
    decreases s.len(),
{
    if s.len() == 0 {
        0
    } else {
        count_unmarked(s.drop_last()) + if s.last() { 0nat } else { 1nat }
    }
}

/// Marking an unmarked slot leaves one fewer unmarked.
proof fn lemma_mark(s: Seq<bool>, i: int)
    requires
        0 <= i < s.len(),
        !s[i],
    ensures
        count_unmarked(s.update(i, true)) + 1 == count_unmarked(s),
    decreases s.len(),
{
    if i < s.len() - 1 {
        lemma_mark(s.drop_last(), i);
        assert(s.update(i, true).drop_last() == s.drop_last().update(i, true));
    } else {
        assert(s.update(i, true).drop_last() == s.drop_last());
    }
}

/// Adding marks never adds unmarked slots.
proof fn lemma_marks_grow_count(new: Seq<bool>, old: Seq<bool>)
    requires
        marks_grow(new, old),
    ensures
        count_unmarked(new) <= count_unmarked(old),
    decreases old.len(),
{
    if old.len() > 0 {
        assert(marks_grow(new.drop_last(), old.drop_last())) by {
            assert forall|i: int| 0 <= i < old.drop_last().len() && #[trigger] old.drop_last()[i] implies new.drop_last()[i] by {
                assert(old[i]);
            }
        }
        lemma_marks_grow_count(new.drop_last(), old.drop_last());
        if old.last() {
            assert(old[old.len() - 1]);
        }
    }
}

/// Marks only get added.
pub open spec fn marks_grow(new: Seq<bool>, old: Seq<bool>) -> bool {
    &&& new.len() == old.len()
    &&& forall|i: int| 0 <= i < old.len() && #[trigger] old[i] ==> new[i]
}

/// Every slot marked in `new` but not in `old` holds a node whose
/// targets are all marked.
pub open spec fn explored<L>(g: Seq<Option<NodeView<L>>>, new: Seq<bool>, old: Seq<bool>) -> bool {
    forall|i: int| 0 <= i < new.len() && #[trigger] new[i] && !old[i] ==> g[i] is Some && forall|id: NodeId| #[trigger] g[i]->Some_0.points_to(id) ==> new[id.index() as int]
}

/// Node `to` can be reached from node `from` by following at most
/// `steps` edges.
pub open spec fn reaches<L>(g: Seq<Option<NodeView<L>>>, from: int, to: int, steps: nat) -> bool
    decreases steps,
{
    from == to || (steps > 0 && 0 <= from < g.len() && g[from] is Some && exists|id: NodeId|
        #[trigger] g[from]->Some_0.points_to(id) && reaches(g, id.index() as int, to, (steps - 1) as nat))
}

/// Node `to` can be reached from node `from`.
pub open spec fn reachable<L>(g: Seq<Option<NodeView<L>>>, from: int, to: int) -> bool {
    exists|steps: nat| #[trigger] reaches(g, from, to, steps)
}

/// Every slot marked in `new` but not in `old` can be reached from one of
/// the nodes `node` leads to.
pub open spec fn marked_from_targets<L>(g: Seq<Option<NodeView<L>>>, new: Seq<bool>, old: Seq<bool>, node: NodeView<L>) -> bool {
    forall|k: int| 0 <= k < new.len() && #[trigger] new[k] && !old[k] ==> exists|id: NodeId|
        #[trigger] node.points_to(id) && reachable(g, id.index() as int, k)
}

/// One more edge in front of a path.
proof fn lemma_reach_step<L>(g: Seq<Option<NodeView<L>>>, from: int, id: NodeId, to: int)
    requires
        0 <= from < g.len(),
        g[from] is Some,
        g[from]->Some_0.points_to(id),
        reachable(g, id.index() as int, to),
    ensures
        reachable(g, from, to),
{
    let n = choose|n: nat| #[trigger] reaches(g, id.index() as int, to, n);
    assert(reaches(g, from, to, n + 1));
}

/// In a closed graph that keeps every node it has of `old` unchanged,
/// and keeps `from`, every node `from` leads to in `old` is kept.
proof fn lemma_reached_kept<L>(g: &Graph<L>, old: Seq<Option<NodeView<L>>>, from: int, to: int, steps: nat)
    requires
        g.closed(),
        g@.len() == old.len(),
        forall|i: int| 0 <= i < old.len() ==> #[trigger] g@[i] == old[i] || g@[i] is None,
        0 <= from < old.len(),
        g@[from] is Some,
        reaches(old, from, to, steps),
    ensures
        0 <= to < old.len(),
        g@[to] is Some,
    decreases steps,
{
    if from != to {
        let id = choose|id: NodeId| #[trigger] old[from]->Some_0.points_to(id) && reaches(old, id.index() as int, to, (steps - 1) as nat);
        assert(g@[from] == old[from]);
        assert(g@[from]->Some_0.points_to(id));
        lemma_reached_kept(g, old, id.index() as int, to, (steps - 1) as nat);
    }
}

/// Node `from` and every node it leads to are filled.
pub open spec fn filled_from<L>(g: Seq<Option<NodeView<L>>>, from: int) -> bool {
    &&& 0 <= from < g.len()
    &&& g[from] is Some
    &&& forall|k: int| #[trigger] reachable(g, from, k) ==> 0 <= k < g.len() && g[k] is Some
}

/// What a filled node leads to is filled from there on too.
proof fn lemma_filled_step<L>(g: Seq<Option<NodeView<L>>>, from: int, id: NodeId)
    requires
        filled_from(g, from),
        g[from]->Some_0.points_to(id),
    ensures
        filled_from(g, id.index() as int),
{
    assert(reaches(g, id.index() as int, id.index() as int, 0));
    lemma_reach_step(g, from, id, id.index() as int);
    assert forall|k: int| #[trigger] reachable(g, id.index() as int, k) implies 0 <= k < g.len() && g[k] is Some by {
        lemma_reach_step(g, from, id, k);
    }
}

/// In a graph where every node points only at filled slots, a filled node
/// and everything it leads to are filled.
pub proof fn lemma_closed_filled<L>(g: &Graph<L>, from: int)
    requires
        g.closed(),
        0 <= from < g@.len(),
        g@[from] is Some,
    ensures
        filled_from(g@, from),
{
    assert forall|k: int| #[trigger] reachable(g@, from, k) implies 0 <= k < g@.len() && g@[k] is Some by {
        let n = choose|n: nat| #[trigger] reaches(g@, from, k, n);
        lemma_reaches_filled(g, from, k, n);
    }
}

proof fn lemma_reaches_filled<L>(g: &Graph<L>, from: int, to: int, steps: nat)
    requires
        g.closed(),
        0 <= from < g@.len(),
        g@[from] is Some,
        reaches(g@, from, to, steps),
    ensures
        0 <= to < g@.len(),
        g@[to] is Some,
    decreases steps,
{
    if from != to {
        let id = choose|id: NodeId| #[trigger] g@[from]->Some_0.points_to(id) && reaches(g@, id.index() as int, to, (steps - 1) as nat);
        lemma_reaches_filled(g, id.index() as int, to, (steps - 1) as nat);
    }
}

/// What shaking from `root` leaves of a graph: the nodes `root` leads to.
pub open spec fn shaken<L>(g: Seq<Option<NodeView<L>>>, root: int) -> Seq<Option<NodeView<L>>> {
    Seq::new(g.len(), |i: int| if reachable(g, root, i) { g[i] } else { None })
}

/// A path from a node `root` leads to is still there once the graph is
/// shaken from `root`.
proof fn lemma_path_survives<L>(g: Seq<Option<NodeView<L>>>, root: int, from: int, to: int, steps: nat)
    requires
        reachable(g, root, from),
        reaches(g, from, to, steps),
    ensures
        reaches(shaken(g, root), from, to, steps),
    decreases steps,
{
    let h = shaken(g, root);
    if from != to {
        let id = choose|id: NodeId| #[trigger] g[from]->Some_0.points_to(id) && reaches(g, id.index() as int, to, (steps - 1) as nat);
        let n = choose|n: nat| #[trigger] reaches(g, root, from, n);
        assert(reachable(g, root, id.index() as int)) by {
            lemma_reach_join(g, root, from, id, n);
        }
        lemma_path_survives(g, root, id.index() as int, to, (steps - 1) as nat);
        assert(h[from] == g[from]);
        assert(h[from]->Some_0.points_to(id));
    }
}

/// A path to a node followed by one of its edges.
proof fn lemma_reach_join<L>(g: Seq<Option<NodeView<L>>>, root: int, from: int, id: NodeId, steps: nat)
    requires
        reaches(g, root, from, steps),
        0 <= from < g.len(),
        g[from] is Some,
        g[from]->Some_0.points_to(id),
    ensures
        reaches(g, root, id.index() as int, steps + 1),
    decreases steps,
{
    if root == from {
        assert(reaches(g, id.index() as int, id.index() as int, 0));
        assert(reaches(g, root, id.index() as int, 1));
        lemma_reaches_more(g, root, id.index() as int, 1, steps + 1);
    } else {
        let x = choose|x: NodeId| #[trigger] g[root]->Some_0.points_to(x) && reaches(g, x.index() as int, from, (steps - 1) as nat);
        lemma_reach_join(g, x.index() as int, from, id, (steps - 1) as nat);
        assert(reaches(g, root, id.index() as int, steps + 1));
    }
}

/// A path within some number of steps is one within more.
proof fn lemma_reaches_more<L>(g: Seq<Option<NodeView<L>>>, from: int, to: int, steps: nat, more: nat)
    requires
        reaches(g, from, to, steps),
        steps <= more,
    ensures
        reaches(g, from, to, more),
    decreases steps,
{
    if from != to {
        let x = choose|x: NodeId| #[trigger] g[from]->Some_0.points_to(x) && reaches(g, x.index() as int, to, (steps - 1) as nat);
        lemma_reaches_more(g, x.index() as int, to, (steps - 1) as nat, (more - 1) as nat);
        assert(reaches(g, from, to, more));
    }
}

/// Every node left by shaking from `root` can be reached from `root` in
/// what is left.
pub proof fn lemma_shaken_reachable<L>(g: Seq<Option<NodeView<L>>>, root: int, i: int)
    requires
        0 <= i < g.len(),
        shaken(g, root)[i] is Some,
    ensures
        reachable(shaken(g, root), root, i),
{
    let n = choose|n: nat| #[trigger] reaches(g, root, i, n);
    assert(reaches(g, root, root, 0));
    lemma_path_survives(g, root, root, i, n);
}

/// Shaking a shaken graph from the same root changes nothing.
pub proof fn law_shake_twice<L>(g: Seq<Option<NodeView<L>>>, root: int)
    ensures
        shaken(shaken(g, root), root) == shaken(g, root),
{
    let h = shaken(g, root);
    assert forall|i: int| 0 <= i < h.len() implies #[trigger] shaken(h, root)[i] == h[i] by {
        if reachable(g, root, i) {
            let n = choose|n: nat| #[trigger] reaches(g, root, i, n);
            assert(reaches(g, root, root, 0));
            lemma_path_survives(g, root, root, i, n);
        }
    }
    assert(shaken(h, root) =~= h);
}

/// A sequence of distinct ids, all below `n`, has at most `n` members.
pub(crate) proof fn lemma_distinct_ids_bounded(s: Seq<NodeId>, n: nat)
    requires
        s.no_duplicates(),
        forall|i: int| 0 <= i < s.len() ==> (#[trigger] s[i]).index() < n,
    ensures
        s.len() <= n,
{
    let f = |x: NodeId| x.index() as int;
    let ids = s.to_set();
    s.unique_seq_to_set();
    vstd::set_lib::lemma_int_range(0, n as int);
    assert(ids.finite());
    assert forall|x: NodeId, y: NodeId| ids.contains(x) && ids.contains(y) && #[trigger] f(x) == #[trigger] f(y) implies x == y by {
        NodeId::lemma_index_injective(x, y);
    }
    vstd::set_lib::lemma_map_size(ids, ids.map(f), f);
    assert forall|v: int| ids.map(f).contains(v) implies vstd::set_lib::set_int_range(0, n as int).contains(v) by {
        let x = choose|x: NodeId| ids.contains(x) && f(x) == v;
        let k = choose|k: int| 0 <= k < s.len() && s[k] == x;
    }
    vstd::set_lib::lemma_len_subset(ids.map(f), vstd::set_lib::set_int_range(0, n as int));
}

pub(crate) fn contains_id(stack: &Vec<NodeId>, id: NodeId) -> (r: bool)
    ensures
        r == stack@.contains(id),
{
    let mut i: usize = 0;
    while i < stack.len()
        invariant
            i <= stack@.len(),
            forall|k: int| 0 <= k < i ==> stack@[k] != id,
        decreases stack@.len() - i,
    {
        if stack[i] == id {
            return true;
        }
        i = i + 1;
    }
    false
}

impl<L: Disambiguate> Graph<L> {
    /// Merge the nodes `a` and `b` into a node matching what either
    /// matches, and return its id. Merging a leaf with a node keeps the
    /// leaf's id where the other is a reserved slot; of two leaves the
    /// higher ranking wins, and two of equal rank are an error. Merges of
    /// the same pair are remembered and reused.
    pub fn merge(&mut self, a: NodeId, b: NodeId) -> (r: Result<NodeId, GraphError>)
        requires
            old(self).well_formed(),
            old(self).has(a),
            old(self).has(b),
        ensures
            final(self).well_formed(),
            grows(final(self)@, old(self)@),
            r matches Ok(m) ==> final(self).has(m),
            a == b ==> r == Ok::<NodeId, GraphError>(a) && final(self)@ == old(self)@,
            a != b ==> merge_outcome(old(self)@, a, b, r),
            memo_kept(final(self), old(self)),
            r matches Ok(m) ==> merge_result(final(self), a, b, m),
            a != b && merge_direct(old(self)@, a, b) ==> final(self)@ == old(self)@ && final(self).memo() == old(self).memo(),
            a != b ==> (!merge_direct(old(self)@, a, b) ==> (remembered(old(self).memo(), pair_key(a, b).0, pair_key(a, b).1) matches Some(m)
                ==> (r == Ok::<NodeId, GraphError>(m) && final(self)@ == old(self)@ && final(self).memo() == old(self).memo()))),
            a != b && !merge_direct(old(self)@, a, b) ==> (slot_fork(old(self)@[a.index() as int], a) matches Some(fa) ==> (slot_fork(
                old(self)@[b.index() as int],
                b,
            ) matches Some(fb) ==> (forks_mergeable(fa, fb) && remembered(old(self).memo(), pair_key(a, b).0, pair_key(a, b).1) is None && miss_settled(
                old(self)@,
                union_fork(fa, fb).miss,
            ) ==> {
                &&& (r is Ok <==> old(self)@.len() < u32::MAX)
                &&& (r matches Ok(m) ==> final(self)@[m.index() as int] == Some(NodeView::<L>::Fork(union_fork(fa, fb))))
            }))),
            a != b && remembered(old(self).memo(), pair_key(a, b).0, pair_key(a, b).1) is None && old(self)@.len() + 2 < u32::MAX && rope_beside(
                old(self)@,
                a,
                b,
            ) ==> (r matches Ok(m) && rope_merged(
                final(self)@,
                m,
                old(self)@[a.index() as int]->Some_0->Rope_0,
                slot_fork(old(self)@[b.index() as int], b)->Some_0,
            )),
            a != b && remembered(old(self).memo(), pair_key(a, b).0, pair_key(a, b).1) is None && old(self)@.len() + 2 < u32::MAX && rope_beside(
                old(self)@,
                b,
                a,
            ) ==> (r matches Ok(m) && rope_merged(
                final(self)@,
                m,
                old(self)@[b.index() as int]->Some_0->Rope_0,
                slot_fork(old(self)@[a.index() as int], a)->Some_0,
            )),
        decreases u32::MAX + 1 - old(self)@.len(), 0int,
    {
        proof {
            self.lemma_view();
        }
        if a == b {
            return Ok(a);
        }
        match (self.get(a), self.get(b)) {
            (None, None) => {
                return Err(GraphError::Unfilled(a, b));
            },
            (Some(Node::Leaf(_)), None) => {
                return Ok(a);
            },
            (None, Some(Node::Leaf(_))) => {
                return Ok(b);
            },
            (Some(Node::Leaf(left)), Some(Node::Leaf(right))) => {
                return match winner(left, right) {
                    Winner::Right => Ok(b),
                    Winner::Left => Ok(a),
                    Winner::Tie => Err(GraphError::Ambiguous(DisambiguationError(a, b))),
                };
            },
            _ => {},
        }
        let (lo, hi) = if a.get() > b.get() { (b, a) } else { (a, b) };
        proof {
            assert forall|res: Result<NodeId, GraphError>| merge_outcome(old(self)@, a, b, res) by {}
            assert(!merge_direct(old(self)@, a, b));
            assert((lo, hi) == pair_key(a, b));
        }

        // If the pair is already merged (or being merged), reuse the result.
        let mut k: usize = self.merges.len();
        while k > 0
            invariant
                k <= self.merges@.len(),
                self.well_formed(),
                self@ == old(self)@,
                self.merges == old(self).merges,
                a != b,
                !merge_direct(old(self)@, a, b),
                (lo, hi) == pair_key(a, b),
                forall|res: Result<NodeId, GraphError>| merge_outcome(old(self)@, a, b, res),
                forall|j: int| k <= j < self.merges@.len() ==> !((#[trigger] self.merges@[j]).0 == lo && self.merges@[j].1 == hi),
            decreases k,
        {
            k = k - 1;
            let (x, y, m) = self.merges[k];
            if x == lo && y == hi {
                proof {
                    let memo = self.merges@;
                    lemma_remembered_scan(memo, lo, hi, k + 1);
                    assert(memo.take(k + 1).last() == memo[k as int]);
                    assert(memo.take(k + 1).drop_last() == memo.take(k as int));
                    assert(remembered(self.memo(), lo, hi) == Some(m));
                }
                return Ok(m);
            }
        }
        proof {
            lemma_remembered_scan(self.merges@, lo, hi, 0);
            assert(remembered(self.merges@.take(0), lo, hi) is None);
        }

        if self.nodes.len() > 4294967295usize {
            return Err(GraphError::Exhausted);
        }
        // Reserve the id of the merge and remember it, so that a loop
        // back to this pair does not merge it again.
        let reserved = self.reserve();
        let id = reserved.get();
        let ghost merges0 = self.merges@;
        self.merges.push((lo, hi, id));
        proof {
            lemma_remember_push(merges0, (lo, hi, id));
            assert(self.memo() == merges0.push((lo, hi, id)));
            assert(self.has(lo) && self.has(hi) && self.has(id));
            assert forall|k: int| 0 <= k < self.merges@.len() implies {
                let (x, y, m) = #[trigger] self.merges@[k];
                x.index() < self.nodes@.len() && y.index() < self.nodes@.len() && m.index() < self.nodes@.len()
            } by {
                if k < merges0.len() {
                    assert(self.merges@[k] == merges0[k]);
                }
            }
            assert(self.well_formed());
        }
        let ghost entry = self@;

        if self.nodes.len() > 4294967295usize {
            return Err(GraphError::Exhausted);
        }
        let mut fork = self.fork_off(lo);
        let ghost g_lo = self@;
        if self.nodes.len() > 4294967295usize {
            return Err(GraphError::Exhausted);
        }
        let other = self.fork_off(hi);
        let ghost lo_view = fork@;
        let ghost hi_view = other@;
        let ghost fork_case: bool = match (slot_fork(old(self)@[a.index() as int], a), slot_fork(old(self)@[b.index() as int], b)) {
            (Some(fa), Some(fb)) => forks_mergeable(fa, fb) && miss_settled(old(self)@, union_fork(fa, fb).miss),
            _ => false,
        };
        let ghost rope_case: bool = rope_beside(old(self)@, a, b) || rope_beside(old(self)@, b, a);
        let ghost rope_id: NodeId = if rope_beside(old(self)@, a, b) { a } else { b };
        let ghost other_id: NodeId = if rope_beside(old(self)@, a, b) { b } else { a };
        let ghost rope_view: RopeView = old(self)@[rope_id.index() as int]->Some_0->Rope_0;
        let ghost other_fork: ForkView = slot_fork(old(self)@[other_id.index() as int], other_id)->Some_0;
        let ghost rope_fork_view: ForkView = if rope_id == lo { lo_view } else { hi_view };
        let ghost other_view: ForkView = if rope_id == lo { hi_view } else { lo_view };
        let ghost next: NodeId = choose|next: NodeId| #[trigger] rope::first_step(rope_view, next, rope_fork_view) && self.has(next) && self@[next.index() as int]
            == Some(NodeView::<L>::Rope(rope::rest_of(rope_view)));
        let ghost merged_view: ForkView = if fork_case {
            union_fork(slot_fork(old(self)@[a.index() as int], a)->Some_0, slot_fork(old(self)@[b.index() as int], b)->Some_0)
        } else if rope_case {
            union_fork(step_fork_to(rope_view, next), other_fork)
        } else {
            fork@
        };
        let ghost settled: bool = fork_case || rope_case;
        proof {
            if rope_case {
                assert(rope_id == lo || rope_id == hi);
                if rope_id == lo {
                    let n = choose|n: NodeId| #[trigger] rope::first_step(rope_view, n, lo_view) && n.index() < g_lo.len() && g_lo[n.index() as int]
                        == Some(NodeView::<L>::Rope(rope::rest_of(rope_view)));
                    assert(self@[n.index() as int] == g_lo[n.index() as int]);
                    assert(rope::first_step(rope_view, n, rope_fork_view) && self.has(n));
                } else {
                    let n = choose|n: NodeId| #[trigger] rope::first_step(rope_view, n, hi_view) && self.has(n) && self@[n.index() as int]
                        == Some(NodeView::<L>::Rope(rope::rest_of(rope_view)));
                    assert(rope::first_step(rope_view, n, rope_fork_view));
                }
                assert(rope::first_step(rope_view, next, rope_fork_view));
                assert(rope_fork_view.lut =~= step_fork_to(rope_view, next).lut);
                if let Some(NodeView::Rope(r1)) = old(self)@[other_id.index() as int] {
                    assert(other_view.lut =~= step_fork(r1).lut);
                }
                assert(other_view == other_fork);
                assert(lo_view.lut.len() == 256 && hi_view.lut.len() == 256);
                assert forall|x: int| 0 <= x < 256 implies mergeable(#[trigger] lo_view.lut[x], hi_view.lut[x]) by {
                    if rope_view.pattern[0].0 <= x <= rope_view.pattern[0].1 {
                        assert(other_fork.lut[x] is None);
                    }
                }
                assert(forks_mergeable(lo_view, hi_view));
            }
            if let Some(NodeView::Rope(rope)) = old(self)@[lo.index() as int] {
                if rope.pattern.len() == 1 {
                    assert(lo_view.lut =~= step_fork(rope).lut);
                }
            }
            if let Some(NodeView::Rope(rope)) = old(self)@[hi.index() as int] {
                if rope.pattern.len() == 1 {
                    assert(hi_view.lut =~= step_fork(rope).lut);
                }
            }
            if fork_case {
                assert(lo_view.lut.len() == 256 && hi_view.lut.len() == 256);
                assert(forks_mergeable(lo_view, hi_view));
            }
        }
        match fork.merge(other, self) {
            Ok(()) => {},
            Err(e) => {
                return Err(e);
            },
        }
        proof {
            if fork_case {
                assert forall|i: int| 0 <= i < 256 implies #[trigger] fork@.lut[i] == merged_view.lut[i] by {
                    assert(combined(self, lo_view.lut[i], hi_view.lut[i], fork@.lut[i]));
                }
                assert(fork@.lut =~= merged_view.lut);
                assert(combined(self, lo_view.miss, hi_view.miss, fork@.miss));
                assert(fork@ == merged_view);
            }
            if rope_case {
                assert forall|i: int| 0 <= i < 256 implies #[trigger] fork@.lut[i] == merged_view.lut[i] by {
                    assert(combined(self, lo_view.lut[i], hi_view.lut[i], fork@.lut[i]));
                    if rope_view.pattern[0].0 <= i <= rope_view.pattern[0].1 {
                        assert(other_fork.lut[i] is None);
                    }
                }
                assert(fork@.lut =~= merged_view.lut);
                assert(combined(self, lo_view.miss, hi_view.miss, fork@.miss));
                assert(fork@ == merged_view);
                assert(miss_settled(old(self)@, fork@.miss));
                assert(self@[next.index() as int] == Some(NodeView::<L>::Rope(rope::rest_of(rope_view))));
            }
        }
        let ghost g_merged = self@;

        // Flatten the fork: fold in the forks its miss chain leads to.
        let mut stack: Vec<NodeId> = Vec::new();
        stack.push(id);
        proof {
            assert(stack@.no_duplicates());
        }
        loop
            invariant
                self.well_formed(),
                grows(self@, entry),
                grows(self@, old(self)@),
                self@.len() > old(self)@.len(),
                a != b,
                forall|res: Result<NodeId, GraphError>| merge_outcome(old(self)@, a, b, res),
                memo_kept(self, old(self)),
                remembered(self.memo(), lo, hi) == Some(id),
                remembered(old(self).memo(), lo, hi) is None,
                (lo, hi) == pair_key(a, b),
                !merge_direct(old(self)@, a, b),
                old(self).has(a),
                old(self).has(b),
                self.has(id),
                self@[id.index() as int] is None,
                self.fits(NodeView::Fork(fork@)),
                settled ==> fork@ == merged_view && self@ == g_merged && miss_settled(self@, fork@.miss) && id.index() >= old(self)@.len(),
                settled == (fork_case || rope_case),
                rope_case == (rope_beside(old(self)@, a, b) || rope_beside(old(self)@, b, a)),
                rope_case ==> 0 <= next.index() < g_merged.len() && g_merged[next.index() as int] == Some(NodeView::<L>::Rope(rope::rest_of(rope_view))),
                fork_case == match (slot_fork(old(self)@[a.index() as int], a), slot_fork(old(self)@[b.index() as int], b)) {
                    (Some(fa), Some(fb)) => forks_mergeable(fa, fb) && miss_settled(old(self)@, union_fork(fa, fb).miss),
                    _ => false,
                },
                fork@.lut.len() == 256,
                stack@.no_duplicates(),
                forall|i: int| 0 <= i < stack@.len() ==> self.has(#[trigger] stack@[i]),
            decreases u32::MAX + 2 - stack@.len(),
        {
            proof {
                lemma_distinct_ids_bounded(stack@, self@.len());
            }
            let ghost before_miss = fork@;
            let miss = match fork.miss {
                Some(miss) => miss,
                None => break,
            };
            proof {
                fork.lemma_fields();
                assert(NodeView::<L>::Fork(fork@).points_to(miss));
            }
            if contains_id(&stack, miss) {
                break;
            }
            let ghost before = stack@;
            stack.push(miss);
            proof {
                assert forall|i: int, j: int| 0 <= i < j < stack@.len() implies stack@[i] != stack@[j] by {
                    if j == stack@.len() - 1 {
                        assert(before.contains(stack@[i]) || i == j);
                    }
                }
            }
            let other = match self.get(miss) {
                Some(Node::Fork(other)) => {
                    proof {
                        assert(!settled);
                    }
                    other.copy()
                },
                Some(Node::Rope(other)) => {
                    proof {
                        assert(!settled);
                    }
                    let rope = other.copy();
                    if self.nodes.len() > 4294967295usize {
                        return Err(GraphError::Exhausted);
                    }
                    proof {
                        self.lemma_view();
                        assert(self.nodes@[miss.index() as int] is Some);
                    }
                    rope.into_fork(self)
                },
                _ => break,
            };
            proof {
                self.lemma_view();
            }
            match other.miss {
                Some(oid) => {
                    if self.get(oid).is_none() {
                        break;
                    }
                },
                None => {},
            }
            fork.miss = None;
            proof {
                fork.lemma_fields();
                assert forall|x: NodeId| #[trigger] NodeView::<L>::Fork(fork@).points_to(x) implies self.has(x) by {
                    let b = choose|b: int| 0 <= b < 256 && #[trigger] fork@.lut[b] == Some(x);
                    assert(NodeView::<L>::Fork(before_miss).points_to(x));
                }
            }
            match fork.merge(other, self) {
                Ok(()) => {},
                Err(e) => {
                    return Err(e);
                },
            }
        }

        let ghost before_insert = *self;
        let r = self.insert(reserved, Node::Fork(fork));
        proof {
            assert(self@[a.index() as int] == old(self)@[a.index() as int]);
            assert(self@[b.index() as int] == old(self)@[b.index() as int]);
            assert(!merge_direct(self@, a, b));
            assert(remembered(self.memo(), lo, hi) == Some(id));
        }
        Ok(r)
    }
}

/// Mark `id` and everything it leads to, unless it is marked already.
fn visit<L>(graph: &Graph<L>, id: NodeId, filter: &mut Vec<bool>)
    requires
        graph.well_formed(),
        old(filter)@.len() == graph@.len(),
        graph.has(id),
        filled_from(graph@, id.index() as int),
    ensures
        marks_grow(final(filter)@, old(filter)@),
        explored(graph@, final(filter)@, old(filter)@),
        final(filter)@[id.index() as int],
        forall|k: int| 0 <= k < final(filter)@.len() && #[trigger] final(filter)@[k] && !old(filter)@[k] ==> reachable(graph@, id.index() as int, k),
    decreases count_unmarked(old(filter)@), 0int,
{
    proof {
        NodeId::lemma_index_injective(id, id);
    }
    proof {
        graph.lemma_view();
    }
    let i = id.get();
    if !filter[i] {
        let ghost f0 = filter@;
        filter.set(i, true);
        proof {
            lemma_mark(f0, i as int);
        }
        match &graph.nodes[i] {
            Some(node) => {
                proof {
                    assert(graph@[i as int] == Some(node@));
                    assert forall|x: NodeId| #[trigger] node@.points_to(x) implies graph.has(x) && filled_from(graph@, x.index() as int) by {
                        assert(graph@[i as int]->Some_0.points_to(x));
                        lemma_filled_step(graph@, i as int, x);
                    }
                }
                let ghost f1 = filter@;
                proof {
                    assert(graph.nodes@[i as int] == Some(*node));
                    assert(node@.sound());
                }
                node.shake(graph, filter);
                proof {
                    assert(f1[i as int]);
                    assert(filter@[i as int]);
                    assert forall|k: int| 0 <= k < f0.len() && #[trigger] f0[k] implies filter@[k] by {
                        assert(f1[k]);
                    }
                    assert forall|k: int| 0 <= k < filter@.len() && #[trigger] filter@[k] && !f0[k] implies graph@[k] is Some && forall|x: NodeId| #[trigger] graph@[k]->Some_0.points_to(x) ==> filter@[x.index() as int] by {
                        if k != i {
                            assert(!f1[k]);
                        }
                    }
                    assert forall|k: int| 0 <= k < filter@.len() && #[trigger] filter@[k] && !f0[k] implies reachable(graph@, id.index() as int, k) by {
                        if k == i {
                            assert(reaches(graph@, i as int, k, 0));
                        } else {
                            assert(!f1[k]);
                            let x = choose|x: NodeId| #[trigger] node@.points_to(x) && reachable(graph@, x.index() as int, k);
                            assert(graph@[i as int]->Some_0.points_to(x));
                            lemma_reach_step(graph@, i as int, x, k);
                        }
                    }
                }
            },
            None => {
                proof {
                    assert forall|k: int| 0 <= k < filter@.len() && #[trigger] filter@[k] && !f0[k] implies reachable(graph@, id.index() as int, k) by {
                        assert(k == i);
                        assert(reaches(graph@, i as int, k, 0));
                    }
                }
            },
        }
    }
}

impl Fork {
    /// Mark every node this fork leads to, directly or not.
    pub fn shake<L>(&self, graph: &Graph<L>, filter: &mut Vec<bool>)
        requires
            graph.well_formed(),
            old(filter)@.len() == graph@.len(),
            self@.lut.len() == 256,
            forall|id: NodeId| #[trigger] NodeView::<L>::Fork(self@).points_to(id) ==> graph.has(id) && filled_from(graph@, id.index() as int),
        ensures
            marks_grow(final(filter)@, old(filter)@),
            explored(graph@, final(filter)@, old(filter)@),
            forall|id: NodeId| #[trigger] NodeView::<L>::Fork(self@).points_to(id) ==> final(filter)@[id.index() as int],
            marked_from_targets(graph@, final(filter)@, old(filter)@, NodeView::<L>::Fork(self@)),
        decreases count_unmarked(old(filter)@), 1int,
    {
        proof {
            self.lemma_fields();
        }
        let ghost f0 = filter@;
        if let Some(id) = self.miss {
            proof {
                assert(NodeView::<L>::Fork(self@).points_to(id));
            }
            visit(graph, id, filter);
            proof {
                assert forall|k: int| 0 <= k < filter@.len() && #[trigger] filter@[k] && !f0[k] implies exists|x: NodeId|
                    #[trigger] NodeView::<L>::Fork(self@).points_to(x) && reachable(graph@, x.index() as int, k) by {
                    assert(NodeView::<L>::Fork(self@).points_to(id) && reachable(graph@, id.index() as int, k));
                }
            }
        }
        proof {
            lemma_marks_grow_count(filter@, f0);
        }
        let ghost f1 = filter@;
        let mut b: usize = 0;
        while b < 256
            invariant
                b <= 256,
                graph.well_formed(),
                self.lut@.len() == 256,
                self@.lut == self.lut@,
                self@.miss == self.miss,
                marks_grow(filter@, f0),
                explored(graph@, filter@, f0),
                f0 == old(filter)@,
                filter@.len() == graph@.len(),
                count_unmarked(filter@) <= count_unmarked(f0),
                self.miss matches Some(m) ==> filter@[m.index() as int],
                marked_from_targets(graph@, filter@, f0, NodeView::<L>::Fork(self@)),
                forall|k: int| 0 <= k < b ==> (#[trigger] self.lut@[k] matches Some(x) ==> filter@[x.index() as int]),
                forall|id: NodeId| #[trigger] NodeView::<L>::Fork(self@).points_to(id) ==> graph.has(id) && filled_from(graph@, id.index() as int),
            decreases 256 - b,
        {
            if let Some(id) = self.lut[b] {
                proof {
                    assert(NodeView::<L>::Fork(self@).points_to(id));
                }
                let ghost before = filter@;
                visit(graph, id, filter);
                proof {
                    if let Some(m) = self.miss {
                        assert(NodeView::<L>::Fork(self@).points_to(m));
                        assert(before[m.index() as int]);
                    }
                    assert forall|k: int| 0 <= k < b + 1 implies (#[trigger] self.lut@[k] matches Some(x) ==> filter@[x.index() as int]) by {
                        if k < b {
                            if let Some(x) = self.lut@[k] {
                                assert(self@.lut[k] == Some(x));
                                assert(NodeView::<L>::Fork(self@).points_to(x));
                                assert(before[x.index() as int]);
                            }
                        }
                    }
                    lemma_marks_grow_count(filter@, before);
                    assert forall|k: int| 0 <= k < f0.len() && #[trigger] f0[k] implies filter@[k] by {
                        assert(before[k]);
                    }
                    assert forall|k: int| 0 <= k < filter@.len() && #[trigger] filter@[k] && !f0[k] implies exists|x: NodeId|
                        #[trigger] NodeView::<L>::Fork(self@).points_to(x) && reachable(graph@, x.index() as int, k) by {
                        if !before[k] {
                            assert(NodeView::<L>::Fork(self@).points_to(id) && reachable(graph@, id.index() as int, k));
                        }
                    }
                    assert forall|k: int| 0 <= k < filter@.len() && #[trigger] filter@[k] && !f0[k] implies graph@[k] is Some && forall|x: NodeId| #[trigger] graph@[k]->Some_0.points_to(x) ==> filter@[x.index() as int] by {
                        if !before[k] {
                        } else {
                        }
                    }
                }
            }
            b = b + 1;
        }
        proof {
            assert forall|id: NodeId| #[trigger] NodeView::<L>::Fork(self@).points_to(id) implies filter@[id.index() as int] by {
                if self@.miss != Some(id) {
                    let k = choose|k: int| 0 <= k < 256 && #[trigger] self@.lut[k] == Some(id);
                }
            }
        }
    }
}

impl Rope {
    /// Mark every node this rope leads to, directly or not.
    pub fn shake<L>(&self, graph: &Graph<L>, filter: &mut Vec<bool>)
        requires
            graph.well_formed(),
            old(filter)@.len() == graph@.len(),
            forall|id: NodeId| #[trigger] NodeView::<L>::Rope(self@).points_to(id) ==> graph.has(id) && filled_from(graph@, id.index() as int),
        ensures
            marks_grow(final(filter)@, old(filter)@),
            explored(graph@, final(filter)@, old(filter)@),
            forall|id: NodeId| #[trigger] NodeView::<L>::Rope(self@).points_to(id) ==> final(filter)@[id.index() as int],
            marked_from_targets(graph@, final(filter)@, old(filter)@, NodeView::<L>::Rope(self@)),
        decreases count_unmarked(old(filter)@), 1int,
    {
        let ghost f0 = filter@;
        if let Some(id) = self.miss.first() {
            proof {
                assert(NodeView::<L>::Rope(self@).points_to(id));
            }
            visit(graph, id, filter);
        }
        proof {
            assert(NodeView::<L>::Rope(self@).points_to(self.target));
        }
        let ghost f1 = filter@;
        proof {
            lemma_marks_grow_count(filter@, f0);
        }
        visit(graph, self.target, filter);
        proof {
            assert forall|k: int| 0 <= k < f0.len() && #[trigger] f0[k] implies filter@[k] by {
                assert(f1[k]);
            }
            assert forall|k: int| 0 <= k < filter@.len() && #[trigger] filter@[k] && !f0[k] implies graph@[k] is Some && forall|x: NodeId| #[trigger] graph@[k]->Some_0.points_to(x) ==> filter@[x.index() as int] by {
                if !f1[k] {
                } else {
                }
            }
        }
    }
}

impl Fork {
    /// Send every byte of `range` to `target`; a byte already going
    /// elsewhere goes to the merge of the two.
    pub fn add_branch<L: Disambiguate>(&mut self, range: Range, target: NodeId, graph: &mut Graph<L>) -> (r: Result<(), GraphError>)
        requires
            old(graph).well_formed(),
            old(graph).fits(NodeView::Fork(old(self)@)),
            old(graph).has(target),
        ensures
            final(graph).well_formed(),
            grows(final(graph)@, old(graph)@),
            r is Ok ==> {
                &&& final(graph).fits(NodeView::Fork(final(self)@))
                &&& final(self)@.miss == old(self)@.miss
                &&& forall|b: int| 0 <= b < 256 && !(range.0 <= b <= range.1) ==> #[trigger] final(self)@.lut[b] == old(self)@.lut[b]
                &&& forall|b: int| 0 <= b < 256 && range.0 <= b <= range.1 ==> branched(final(graph), #[trigger] old(self)@.lut[b], target, final(self)@.lut[b])
            },
            (forall|b: int| 0 <= b < 256 && range.0 <= b <= range.1 ==> mergeable(#[trigger] old(self)@.lut[b], Some(target)))
                ==> r is Ok && final(graph)@ == old(graph)@,
            memo_kept(final(graph), old(graph)),
    {
        let ghost left0 = self@;
        let ghost g0 = graph@;
        proof {
            self.lemma_fields();
        }
        let mut x: u16 = range.0 as u16;
        while x <= range.1 as u16
            invariant
                graph.well_formed(),
                grows(graph@, g0),
                g0 == old(graph)@,
                left0 == old(self)@,
                left0.lut.len() == 256,
                self.lut@.len() == 256,
                self.miss == left0.miss,
                graph.has(target),
                graph.fits(NodeView::Fork(left0)),
                range.0 as u16 <= x <= range.1 as u16 + 1 || (range.0 > range.1 && x == range.0 as u16),
                forall|b: int| 0 <= b < 256 && !(range.0 <= b < x) ==> #[trigger] self.lut@[b] == left0.lut[b],
                forall|b: int| 0 <= b < 256 && range.0 <= b < x ==> branched(graph, #[trigger] left0.lut[b], target, self.lut@[b]),
                (forall|b: int| 0 <= b < 256 && range.0 <= b <= range.1 ==> mergeable(#[trigger] left0.lut[b], Some(target))) ==> graph@ == g0,
                memo_kept(graph, old(graph)),
            decreases range.1 as u16 + 1 - x,
        {
            let ghost g_before = *graph;
            let i = x as usize;
            let entry = match self.lut[i] {
                Some(other) => {
                    if other != target {
                        proof {
                            assert(self.lut@[i as int] == left0.lut[i as int]);
                            assert(NodeView::<L>::Fork(left0).points_to(other));
                            assert(!mergeable(left0.lut[i as int], Some(target)));
                        }
                        match graph.merge(other, target) {
                            Ok(m) => Some(m),
                            Err(e) => {
                                return Err(e);
                            },
                        }
                    } else {
                        Some(target)
                    }
                },
                None => Some(target),
            };
            proof {
                assert forall|b: int| 0 <= b < 256 && range.0 <= b < x implies branched(graph, #[trigger] left0.lut[b], target, self.lut@[b]) by {
                    assert(branched(&g_before, left0.lut[b], target, self.lut@[b]));
                    if let Some(y) = left0.lut[b] {
                        if y != target {
                            assert(NodeView::<L>::Fork(left0).points_to(y));
                            lemma_merge_result_kept(&g_before, graph, y, target, self.lut@[b]->Some_0);
                        }
                    }
                }
            }
            self.lut.set(i, entry);
            x = x + 1;
        }
        proof {
            self.lemma_fields();
            assert forall|y: NodeId| #[trigger] NodeView::<L>::Fork(self@).points_to(y) implies graph.has(y) by {
                if self@.miss == Some(y) {
                    assert(NodeView::<L>::Fork(left0).points_to(y));
                } else {
                    let b = choose|b: int| 0 <= b < 256 && #[trigger] self@.lut[b] == Some(y);
                    if !(range.0 <= b <= range.1) {
                        assert(NodeView::<L>::Fork(left0).points_to(y));
                    } else {
                        assert(branched(graph, left0.lut[b], target, self@.lut[b]));
                    }
                }
            }
        }
        Ok(())
    }

    /// Merge another fork into this one: entries and misses present on
    /// one side are kept, and those present on both are merged.
    pub fn merge<L: Disambiguate>(&mut self, other: Fork, graph: &mut Graph<L>) -> (r: Result<(), GraphError>)
        requires
            old(graph).well_formed(),
            old(graph).fits(NodeView::Fork(old(self)@)),
            old(graph).fits(NodeView::Fork(other@)),
        ensures
            final(graph).well_formed(),
            grows(final(graph)@, old(graph)@),
            r is Ok ==> {
                &&& final(graph).fits(NodeView::Fork(final(self)@))
                &&& combined(final(graph), old(self)@.miss, other@.miss, final(self)@.miss)
                &&& forall|b: int| 0 <= b < 256 ==> combined(final(graph), #[trigger] old(self)@.lut[b], other@.lut[b], final(self)@.lut[b])
            },
            forks_mergeable(old(self)@, other@) ==> r is Ok && final(graph)@ == old(graph)@,
            memo_kept(final(graph), old(graph)),
        decreases u32::MAX + 1 - old(graph)@.len(), 1int,
    {
        let ghost left0 = self@;
        let ghost g0 = graph@;
        proof {
            self.lemma_fields();
            other.lemma_fields();
            if let Some(x) = left0.miss {
                assert(NodeView::<L>::Fork(left0).points_to(x));
            }
            if let Some(y) = other@.miss {
                assert(NodeView::<L>::Fork(other@).points_to(y));
            }
        }
        let miss = match (self.miss, other.miss) {
            (None, None) => None,
            (Some(id), None) => Some(id),
            (None, Some(id)) => Some(id),
            (Some(x), Some(y)) => {
                proof {
                    assert(NodeView::<L>::Fork(left0).points_to(x));
                    assert(NodeView::<L>::Fork(other@).points_to(y));
                }
                match graph.merge(x, y) {
                    Ok(m) => Some(m),
                    Err(e) => {
                        proof {
                            assert(x != y);
                            assert(!forks_mergeable(left0, other@));
                        }
                        return Err(e);
                    },
                }
            },
        };
        self.miss = miss;
        proof {
            if let (Some(x), Some(y)) = (left0.miss, other@.miss) {
                assert(combined(graph, left0.miss, other@.miss, miss));
            }
        }
        let mut i: usize = 0;
        while i < 256
            invariant
                i <= 256,
                graph.well_formed(),
                grows(graph@, g0),
                self.lut@.len() == 256,
                other.lut@.len() == 256,
                self.miss == miss,
                combined(graph, left0.miss, other@.miss, miss),
                g0 == old(graph)@,
                other@.lut == other.lut@,
                forall|b: int| i <= b < 256 ==> #[trigger] self.lut@[b] == left0.lut[b],
                forall|b: int| 0 <= b < i ==> combined(graph, #[trigger] left0.lut[b], other@.lut[b], self.lut@[b]),
                forall|b: int| 0 <= b < i ==> (#[trigger] self.lut@[b] matches Some(m) ==> graph.has(m)),
                miss matches Some(m) ==> graph.has(m),
                graph.fits(NodeView::Fork(left0)),
                graph.fits(NodeView::Fork(other@)),
                left0 == old(self)@,
                forks_mergeable(left0, other@) ==> graph@ == g0,
                memo_kept(graph, old(graph)),
            decreases 256 - i,
        {
            let ghost g_before = *graph;
            proof {
                assert(self.lut@[i as int] == left0.lut[i as int]);
                if let Some(x) = left0.lut[i as int] {
                    assert(NodeView::<L>::Fork(left0).points_to(x));
                }
                if let Some(y) = other@.lut[i as int] {
                    assert(NodeView::<L>::Fork(other@).points_to(y));
                }
            }
            let entry = match (self.lut[i], other.lut[i]) {
                (None, None) => None,
                (Some(id), None) => Some(id),
                (None, Some(id)) => Some(id),
                (Some(x), Some(y)) => {
                    proof {
                        assert(NodeView::<L>::Fork(left0).points_to(x));
                        assert(NodeView::<L>::Fork(other@).points_to(y));
                    }
                    match graph.merge(x, y) {
                        Ok(m) => Some(m),
                        Err(e) => {
                            proof {
                                assert(x != y);
                                assert(!mergeable(left0.lut[i as int], other@.lut[i as int]));
                            }
                            return Err(e);
                        },
                    }
                },
            };
            proof {
                if let (Some(x), Some(y)) = (left0.miss, other@.miss) {
                    assert(NodeView::<L>::Fork(left0).points_to(x));
                    assert(NodeView::<L>::Fork(other@).points_to(y));
                    lemma_merge_result_kept(&g_before, graph, x, y, miss->Some_0);
                }
                assert forall|b: int| 0 <= b < i implies combined(graph, #[trigger] left0.lut[b], other@.lut[b], self.lut@[b]) by {
                    assert(combined(&g_before, left0.lut[b], other@.lut[b], self.lut@[b]));
                    if let (Some(x), Some(y)) = (left0.lut[b], other@.lut[b]) {
                        assert(NodeView::<L>::Fork(left0).points_to(x));
                        assert(NodeView::<L>::Fork(other@).points_to(y));
                        lemma_merge_result_kept(&g_before, graph, x, y, self.lut@[b]->Some_0);
                    }
                }
            }
            self.lut.set(i, entry);
            i = i + 1;
        }
        proof {
            self.lemma_fields();
            assert forall|x: NodeId| #[trigger] NodeView::<L>::Fork(self@).points_to(x) implies graph.has(x) by {
                if self@.miss != Some(x) {
                    let b = choose|b: int| 0 <= b < 256 && #[trigger] self@.lut[b] == Some(x);
                }
            }
        }
        Ok(())
    }
}

} // verus!
