use vstd::prelude::*;

use std::cmp::Ordering;

verus! {

/// Leaves that can be ranked against each other when two of them match
/// the same input.
pub trait Disambiguate: Sized {
    /// The rank of a leaf: the higher one wins.
    spec fn rank(&self) -> int;

    /// Compare the ranks of two leaves.
    fn cmp(left: &Self, right: &Self) -> (r: Ordering)
        ensures
            (r is Less) == (left.rank() < right.rank()),
            (r is Equal) == (left.rank() == right.rank()),
            (r is Greater) == (left.rank() > right.rank()),
    ;
}

/// Which of two leaves matching the same input wins.
#[derive(Clone, Copy, PartialEq, Eq, Debug)]
pub enum Winner {
    Left,
    Right,
    Tie,
}

/// The higher ranking of two leaves, or a tie.
pub fn winner<L: Disambiguate>(left: &L, right: &L) -> (r: Winner)
    ensures
        (r == Winner::Right) == (left.rank() < right.rank()),
        (r == Winner::Tie) == (left.rank() == right.rank()),
        (r == Winner::Left) == (left.rank() > right.rank()),
{
    match Disambiguate::cmp(left, right) {
        Ordering::Less => Winner::Right,
        Ordering::Equal => Winner::Tie,
        Ordering::Greater => Winner::Left,
    }
}

} // verus!
