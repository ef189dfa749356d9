use vstd::prelude::*;

use super::range::Range;
use super::{Graph, GraphError, NodeId};

verus! {

broadcast use vstd::std_specs::vec::group_vec_axioms;

/// A state branching on one byte: a lookup table from each byte to the
/// next state, and a state to go to when no entry matches.
#[derive(PartialEq, Eq, Hash, Debug)]
pub struct Fork {
    pub(crate) lut: Vec<Option<NodeId>>,
    /// State to go to if no arms are matching.
    pub miss: Option<NodeId>,
}

/// Model of a fork: its 256 table entries and its miss.
pub struct ForkView {
    pub lut: Seq<Option<NodeId>>,
    pub miss: Option<NodeId>,
}

impl View for Fork {
    type V = ForkView;

    closed spec fn view(&self) -> ForkView {
        ForkView { lut: self.lut@, miss: self.miss }
    }
}


impl Fork {
    /// The model of a fork is its fields.
    pub(crate) proof fn lemma_fields(&self)
        ensures
            self@.lut == self.lut@,
            self@.miss == self.miss,
    {
    }
}

/// The maximal run of slots holding `Some(id)` starting at `start` ends
/// just before `end`.
pub open spec fn run_ends_at(lut: Seq<Option<NodeId>>, start: int, end: int, id: NodeId) -> bool {
    &&& start < end <= lut.len()
    &&& forall|k: int| start <= k < end ==> #[trigger] lut[k] == Some(id)
    &&& (end < lut.len() ==> lut[end] != Some(id))
}

impl Fork {
    /// An empty fork: no entries, no miss.
    pub fn new() -> (r: Fork)
        ensures
            r@.lut == Seq::new(256, |i: int| None::<NodeId>),
            r@.miss is None,
    {
        let mut lut: Vec<Option<NodeId>> = Vec::new();
        let mut i: usize = 0;
        while i < 256
            invariant
                i <= 256,
                lut@ == Seq::new(i as nat, |k: int| None::<NodeId>),
            decreases 256 - i,
        {
            lut.push(None);
            i = i + 1;
            proof {
                assert(lut@ =~= Seq::new(i as nat, |k: int| None::<NodeId>));
            }
        }
        Fork { lut, miss: None }
    }

    /// The same fork with another miss.
    pub fn miss(self, miss: Option<NodeId>) -> (r: Fork)
        ensures
            r@.lut == self@.lut,
            r@.miss == miss,
    {
        Fork { lut: self.lut, miss }
    }

    /// Copy of the fork.
    pub fn copy(&self) -> (r: Fork)
        requires
            self@.lut.len() == 256,
        ensures
            r@ == self@,
    {
        let mut lut: Vec<Option<NodeId>> = Vec::new();
        let mut i: usize = 0;
        while i < 256
            invariant
                i <= 256,
                self.lut@.len() == 256,
                lut@ == self.lut@.take(i as int),
            decreases 256 - i,
        {
            proof {
                assert(self.lut@.take(i + 1) == self.lut@.take(i as int).push(self.lut@[i as int]));
            }
            lut.push(self.lut[i]);
            i = i + 1;
        }
        proof {
            assert(self.lut@.take(256) == self.lut@);
        }
        Fork { lut, miss: self.miss }
    }

    /// Structural equality of forks.
    pub fn same(&self, other: &Fork) -> (r: bool)
        requires
            self@.lut.len() == 256,
            other@.lut.len() == 256,
        ensures
            r == (self@ == other@),
    {
        if self.miss != other.miss {
            return false;
        }
        let mut i: usize = 0;
        while i < 256
            invariant
                i <= 256,
                self.lut@.len() == 256,
                other.lut@.len() == 256,
                forall|k: int| 0 <= k < i ==> self.lut@[k] == #[trigger] other.lut@[k],
            decreases 256 - i,
        {
            if self.lut[i] != other.lut[i] {
                return false;
            }
            i = i + 1;
        }
        proof {
            assert(self.lut@ =~= other.lut@);
        }
        true
    }

    /// The number of entries of the table: one per byte in every fork the
    /// library builds.
    pub fn table_len(&self) -> (r: usize)
        ensures
            r == self@.lut.len(),
    {
        self.lut.len()
    }

    /// The table entry for a byte.
    pub fn get(&self, byte: u8) -> (r: Option<NodeId>)
        requires
            self@.lut.len() == 256,
        ensures
            r == self@.lut[byte as int],
    {
        self.lut[byte as usize]
    }

    /// Whether no byte has an entry.
    pub fn is_empty(&self) -> (r: bool)
        requires
            self@.lut.len() == 256,
        ensures
            r == forall|i: int| 0 <= i < 256 ==> #[trigger] self@.lut[i] is None,
    {
        let mut i: usize = 0;
        while i < 256
            invariant
                i <= 256,
                self.lut@.len() == 256,
                forall|k: int| 0 <= k < i ==> #[trigger] self.lut@[k] is None,
            decreases 256 - i,
        {
            if self.lut[i].is_some() {
                return false;
            }
            i = i + 1;
        }
        true
    }

    /// Whether the fork loops on `this`: some byte has an entry, and every
    /// byte that has one goes back to `this`. Such a fork reads bytes for
    /// as long as they match and then goes to its miss.
    pub fn loops_on(&self, this: NodeId) -> (r: bool)
        requires
            self@.lut.len() == 256,
        ensures
            r == ((exists|b: int| 0 <= b < 256 && #[trigger] self@.lut[b] is Some) && forall|b: int|
                0 <= b < 256 && #[trigger] self@.lut[b] is Some ==> self@.lut[b] == Some(this)),
    {
        proof {
            self.lemma_fields();
        }
        let mut any = false;
        let mut i: usize = 0;
        while i < 256
            invariant
                i <= 256,
                self.lut@.len() == 256,
                self@.lut == self.lut@,
                any == exists|k: int| 0 <= k < i && #[trigger] self.lut@[k] is Some,
                forall|k: int| 0 <= k < i && #[trigger] self.lut@[k] is Some ==> self.lut@[k] == Some(this),
            decreases 256 - i,
        {
            match self.lut[i] {
                Some(id) => {
                    if id != this {
                        return false;
                    }
                    any = true;
                },
                None => {},
            }
            i = i + 1;
        }
        any
    }

    /// The same fork with every byte of `range` going to `target`; a byte
    /// already going elsewhere is a construction error.
    pub fn branch(self, range: Range, target: NodeId) -> (r: Fork)
        requires
            self@.lut.len() == 256,
            forall|b: int| range.0 <= b <= range.1 ==> (#[trigger] self@.lut[b] matches Some(id) ==> id == target),
        ensures
            r@.miss == self@.miss,
            r@.lut.len() == 256,
            forall|b: int| 0 <= b < 256 ==> #[trigger] r@.lut[b] == (if range.0 <= b <= range.1 { Some(target) } else { self@.lut[b] }),
    {
        let mut fork = self;
        let ghost lut0 = fork.lut@;
        let mut x: u16 = range.0 as u16;
        while x <= range.1 as u16
            invariant
                fork.lut@.len() == 256,
                fork.miss == self.miss,
                lut0 == self@.lut,
                range.0 as u16 <= x <= range.1 as u16 + 1 || (range.0 > range.1 && x == range.0 as u16),
                forall|b: int| 0 <= b < 256 ==> #[trigger] fork.lut@[b] == (if range.0 <= b < x { Some(target) } else { lut0[b] }),
            decreases range.1 as u16 + 1 - x,
        {
            fork.lut.set(x as usize, Some(target));
            x = x + 1;
        }
        fork
    }

    /// Iterator over the runs of bytes going to the same state.
    pub fn branches(&self) -> (r: ForkIter<'_>)
        requires
            self@.lut.len() == 256,
        ensures
            r.offset == 0,
            r.lut@ == self@.lut,
    {
        ForkIter { offset: 0, lut: self.lut.as_slice() }
    }
}

/// Iterator over the branches of a fork: each maximal run of bytes going
/// to the same state, as a range and the state.
pub struct ForkIter<'a> {
    pub offset: usize,
    pub lut: &'a [Option<NodeId>],
}

impl<'a> ForkIter<'a> {
    /// The next run of bytes going to the same state, skipping bytes
    /// without an entry.
    pub fn next(&mut self) -> (r: Option<(Range, NodeId)>)
        requires
            old(self).lut@.len() == 256,
            old(self).offset <= 256,
        ensures
            final(self).lut == old(self).lut,
            final(self).offset <= 256,
            match r {
                Some((range, id)) => {
                    &&& old(self).offset <= range.0
                    &&& forall|k: int| old(self).offset <= k < range.0 ==> #[trigger] old(self).lut@[k] is None
                    &&& run_ends_at(old(self).lut@, range.0 as int, range.1 + 1, id)
                    &&& final(self).offset == range.1 + 1
                },
                None => {
                    &&& forall|k: int| old(self).offset <= k < 256 ==> #[trigger] old(self).lut@[k] is None
                    &&& final(self).offset == 256
                },
            },
    {
        while self.offset < 256 && self.lut[self.offset].is_none()
            invariant
                self.lut == old(self).lut,
                self.lut@.len() == 256,
                old(self).offset <= self.offset <= 256,
                forall|k: int| old(self).offset <= k < self.offset ==> #[trigger] self.lut@[k] is None,
            decreases 256 - self.offset,
        {
            self.offset = self.offset + 1;
        }
        if self.offset >= 256 {
            return None;
        }
        let target = match self.lut[self.offset] {
            Some(id) => id,
            None => {
                return None;
            },
        };
        let start = self.offset;
        while self.offset < 256 && self.lut[self.offset] == Some(target)
            invariant
                self.lut == old(self).lut,
                self.lut@.len() == 256,
                start < 256,
                self.lut@[start as int] == Some(target),
                start <= self.offset <= 256,
                forall|k: int| start <= k < self.offset ==> #[trigger] self.lut@[k] == Some(target),
            decreases 256 - self.offset,
        {
            self.offset = self.offset + 1;
        }
        Some((Range(start as u8, (self.offset - 1) as u8), target))
    }
}

} // verus!
