//! Mirrorings of the board of three by three cells that are applied one
//! after another, each once. Such a pass takes a position towards the front
//! of the board; it does not find the least position that the mirrorings
//! together lead to, which `min_max::symmetry` does.

pub use crate::min_max::symmetry::GridSymmetryAxis;
use crate::min_max::symmetry::{GridSymmetryAxisContext, GridSymmetryAxisContext3x3};
use vstd::prelude::*;

verus! {

/// Symmetries under which several targets are the same: one target stands
/// for those that are normalised to it.
pub trait Symmetries<T> {
    /// What `target` is normalised to.
    spec fn normalised(&self, target: &T) -> T;

    /// The targets that `normalised` stands for.
    spec fn expanded(&self, normalised: &T) -> Seq<T>;

    fn normalise(&self, target: &T) -> (r: T)
        ensures
            r == self.normalised(target),
    ;

    fn expand(&self, normalised: &T) -> (r: Vec<T>)
        ensures
            r@ == self.expanded(normalised),
    ;
}

/// The first end of the first of `pairs` whose second end is `index`, and
/// `index` itself where it is the second end of none.
pub open spec fn first_end(pairs: Seq<(usize, usize)>, index: usize) -> usize
    decreases pairs.len(),
{
    if pairs.len() == 0 {
        index
    } else if pairs[0].1 == index {
        pairs[0].0
    } else {
        first_end(pairs.drop_first(), index)
    }
}

/// Where `index` is taken by the mirroring at `axis`: a position that is the
/// second of a pair goes to the first, any other stays.
pub open spec fn normalised_by_axis(index: usize, axis: GridSymmetryAxis) -> usize {
    first_end(GridSymmetryAxisContext3x3::grid().pairs(axis), index)
}

/// Where `index` is taken by the mirrorings at `axes`, one after another in
/// their order.
pub open spec fn normalised_by_axes(axes: Seq<GridSymmetryAxis>, index: usize) -> usize
    decreases axes.len(),
{
    if axes.len() == 0 {
        index
    } else {
        normalised_by_axis(normalised_by_axes(axes.drop_last(), index), axes.last())
    }
}

/// The positions of the board, in rising order.
pub open spec fn positions(n: nat) -> Seq<usize> {
    Seq::new(n, |p: int| p as usize)
}

/// Where `index` is taken by the mirroring at `axis`.
pub fn normalise_by_axes(index: usize, axis: GridSymmetryAxis) -> (r: usize)
    ensures
        r == normalised_by_axis(index, axis),
{
    let pairs = axis.symmetric_indices_3x3();
    let mut k: usize = 0;
    proof {
        assert(pairs@.skip(0) =~= pairs@);
    }
    while k < 3
        invariant
            0 <= k <= 3,
            pairs@.len() == 3,
            pairs@ == GridSymmetryAxisContext3x3::grid().pairs(axis),
            first_end(pairs@, index) == first_end(pairs@.skip(k as int), index),
        decreases 3 - k,
    {
        let (first, second) = pairs[k];
        proof {
            assert(pairs@.skip(k as int)[0] == pairs@[k as int]);
            assert(pairs@.skip(k as int).drop_first() =~= pairs@.skip(k + 1));
        }
        if index == second {
            return first;
        }
        k += 1;
    }
    index
}

/// Mirrorings of the board of three by three cells, in the order in which
/// a position is taken through them.
#[derive(Debug, Clone, PartialEq, Eq)]
pub struct GridSymmetry3x3 {
    pub axes: Vec<GridSymmetryAxis>,
}

impl Symmetries<usize> for GridSymmetry3x3 {
    open spec fn normalised(&self, target: &usize) -> usize {
        normalised_by_axes(self.axes@, *target)
    }

    open spec fn expanded(&self, normalised: &usize) -> Seq<usize> {
        positions(9).filter(|p: usize| normalised_by_axes(self.axes@, p) == *normalised)
    }

    /// Takes `target` through the mirrorings, each once.
    fn normalise(&self, target: &usize) -> (r: usize) {
        let mut index: usize = *target;
        let mut k: usize = 0;
        while k < self.axes.len()
            invariant
                0 <= k <= self.axes.len(),
                index == normalised_by_axes(self.axes@.take(k as int), *target),
            decreases self.axes.len() - k,
        {
            proof {
                assert(self.axes@.take(k + 1).drop_last() =~= self.axes@.take(k as int));
            }
            index = normalise_by_axes(index, self.axes[k]);
            k += 1;
        }
        proof {
            assert(self.axes@.take(k as int) =~= self.axes@);
        }
        index
    }

    /// The positions of the board that `normalise` takes to `normalised`,
    /// in rising order.
    fn expand(&self, normalised: &usize) -> (r: Vec<usize>) {
        let ghost wanted = |p: usize| normalised_by_axes(self.axes@, p) == *normalised;
        let mut found: Vec<usize> = Vec::new();
        let mut p: usize = 0;
        proof {
            reveal(Seq::filter);
            assert(positions(0).filter(wanted) =~= Seq::<usize>::empty());
        }
        while p < 9
            invariant
                0 <= p <= 9,
                wanted == |q: usize| normalised_by_axes(self.axes@, q) == *normalised,
                found@ == positions(p as nat).filter(wanted),
            decreases 9 - p,
        {
            let at = self.normalise(&p);
            proof {
                reveal(Seq::filter);
                assert(positions((p + 1) as nat).drop_last() =~= positions(p as nat));
                assert(positions((p + 1) as nat).last() == p);
            }
            if at == *normalised {
                found.push(p);
            }
            p += 1;
        }
        found
    }
}

} // verus!
