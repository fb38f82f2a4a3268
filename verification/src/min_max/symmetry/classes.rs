//! The classes of positions that mirror each other: what it means that
//! mirrorings lead from one position to another, and what follows from it.

use crate::min_max::symmetry::{GridSymmetryAxes, GridSymmetryAxis};
use vstd::prelude::*;

verus! {

/// The layout of a grid: how many positions it has, and which positions each
/// axis pairs.
pub struct Grid {
    pub positions: nat,
    pub vertical: Seq<(usize, usize)>,
    pub horizontal: Seq<(usize, usize)>,
    pub diagonal_top_bottom: Seq<(usize, usize)>,
    pub diagonal_bottom_top: Seq<(usize, usize)>,
}

impl Grid {
    /// The pairs of positions that mirror each other at `axis`.
    pub open spec fn pairs(self, axis: GridSymmetryAxis) -> Seq<(usize, usize)> {
        match axis {
            GridSymmetryAxis::Vertical => self.vertical,
            GridSymmetryAxis::Horizontal => self.horizontal,
            GridSymmetryAxis::DiagonalTopBottom => self.diagonal_top_bottom,
            GridSymmetryAxis::DiagonalBottomTop => self.diagonal_bottom_top,
        }
    }

    /// Whether the grid has a position and every pair lies on it.
    pub open spec fn well_formed(self) -> bool {
        &&& 0 < self.positions <= usize::MAX
        &&& forall|axis: GridSymmetryAxis, k: int|
            0 <= k < self.pairs(axis).len() ==> (#[trigger] self.pairs(axis)[k]).0 < self.positions
                && self.pairs(axis)[k].1 < self.positions
    }
}

/// The other end of a pair that `index` is an end of.
pub open spec fn partner_in(pair: (usize, usize), index: usize) -> Option<usize> {
    if index == pair.0 {
        Some(pair.1)
    } else if index == pair.1 {
        Some(pair.0)
    } else {
        None
    }
}

/// `partner_in` for a fixed index.
pub open spec fn partner_of(index: usize) -> spec_fn((usize, usize)) -> Option<usize> {
    |pair: (usize, usize)| partner_in(pair, index)
}

/// `index`, and after it its partner in each of `pairs` that it is an end of.
pub open spec fn expand_index_spec(pairs: Seq<(usize, usize)>, index: usize) -> Seq<usize> {
    seq![index] + pairs.filter_map(partner_of(index))
}

/// Whether `axis` mirrors `a` to `b`.
pub open spec fn paired(grid: Grid, axis: GridSymmetryAxis, a: usize, b: usize) -> bool {
    exists|k: int|
        0 <= k < grid.pairs(axis).len() && partner_in(#[trigger] grid.pairs(axis)[k], a) == Some(b)
}

/// Whether one of `axes` mirrors `a` to `b`.
pub open spec fn linked(grid: Grid, axes: GridSymmetryAxes, a: usize, b: usize) -> bool {
    exists|axis: GridSymmetryAxis| axes.has(axis) && #[trigger] paired(grid, axis, a, b)
}

/// Whether at most `n` mirrorings at axes of `axes` lead from `a` to `b`.
pub open spec fn reaches(grid: Grid, axes: GridSymmetryAxes, a: usize, b: usize, n: nat) -> bool
    decreases n,
{
    a == b || (n > 0 && exists|c: usize|
        reaches(grid, axes, a, c, (n - 1) as nat) && #[trigger] linked(grid, axes, c, b))
}

/// Whether mirrorings at axes of `axes` lead from `a` to `b`: the two are in
/// one class.
pub open spec fn connected(grid: Grid, axes: GridSymmetryAxes, a: usize, b: usize) -> bool {
    exists|n: nat| reaches(grid, axes, a, b, n)
}

/// Whether `r` is the least position of the class of `index`.
pub open spec fn is_canonical(grid: Grid, axes: GridSymmetryAxes,
    index: usize,
    r: usize,
) -> bool {
    &&& connected(grid, axes, index, r)
    &&& forall|j: usize| #[trigger] connected(grid, axes, index, j) ==> r <= j
}

/// Whether `mapping` gives each position of the grid the least position of
/// its class.
pub open spec fn is_mapping(grid: Grid, axes: GridSymmetryAxes, mapping: Seq<usize>) -> bool {
    &&& mapping.len() == grid.positions
    &&& forall|i: int|
        0 <= i < mapping.len() ==> is_canonical(grid, axes, i as usize, #[trigger] mapping[i])
}

/// What maps to `b` is in what `filter_map` gives.
proof fn lemma_filter_map_has<A, B>(s: Seq<A>, f: spec_fn(A) -> Option<B>, k: int, b: B)
    requires
        0 <= k < s.len(),
        f(s[k]) == Some(b),
    ensures
        s.filter_map(f).contains(b),
    decreases s.len(),
{
    let rest = s.drop_last();
    if k == s.len() - 1 {
        let out = rest.filter_map(f) + seq![b];
        assert(out[out.len() - 1] == b);
    } else {
        lemma_filter_map_has(rest, f, k, b);
        let at = choose|at: int| 0 <= at < rest.filter_map(f).len() && rest.filter_map(f)[at] == b;
        assert(s.filter_map(f)[at] == b);
    }
}

/// What `expand_index` gives is the index and the positions that the axis
/// mirrors it to.
pub proof fn lemma_expand_index(grid: Grid, axis: GridSymmetryAxis,
    index: usize,
    j: usize,
)
    ensures
        expand_index_spec(grid.pairs(axis), index).contains(j) <==> (j == index || paired(grid,
            axis,
            index,
            j,
        )),
{
    let s = grid.pairs(axis);
    let f = partner_of(index);
    let out = s.filter_map(f);
    let all = expand_index_spec(grid.pairs(axis), index);
    if all.contains(j) && j != index {
        let at = choose|at: int| 0 <= at < all.len() && all[at] == j;
        assert(out[at - 1] == j);
        s.lemma_filter_map_contains(f, j);
        let t = choose|t: (usize, usize)| #[trigger] s.contains(t) && f(t) == Some(j);
        let k = choose|k: int| 0 <= k < s.len() && s[k] == t;
        assert(partner_in(grid.pairs(axis)[k], index) == Some(j));
    }
    if j == index {
        assert(all[0] == j);
    }
    if paired(grid, axis, index, j) {
        let k = choose|k: int|
            0 <= k < grid.pairs(axis).len() && partner_in(#[trigger] grid.pairs(axis)[k], index)
                == Some(j);
        lemma_filter_map_has(s, f, k, j);
        let at = choose|at: int| 0 <= at < out.len() && out[at] == j;
        assert(all[at + 1] == j);
    }
}

/// What an axis mirrors one way it mirrors the other way.
pub proof fn lemma_paired_symmetric(grid: Grid, axis: GridSymmetryAxis,
    a: usize,
    b: usize,
)
    requires
        paired(grid, axis, a, b),
    ensures
        paired(grid, axis, b, a),
{
    let k = choose|k: int|
        0 <= k < grid.pairs(axis).len() && partner_in(#[trigger] grid.pairs(axis)[k], a) == Some(b);
    assert(partner_in(grid.pairs(axis)[k], b) == Some(a));
}

/// One more mirroring leads on from what was reached.
pub proof fn lemma_reaches_step(grid: Grid, axes: GridSymmetryAxes,
    a: usize,
    c: usize,
    b: usize,
    n: nat,
)
    requires
        reaches(grid, axes, a, c, n),
        linked(grid, axes, c, b),
    ensures
        reaches(grid, axes, a, b, n + 1),
        connected(grid, axes, a, b),
{
    let m: nat = n + 1;
    assert(reaches(grid, axes, a, b, m));
}

/// Two paths in a row are a path.
pub proof fn lemma_reaches_transitive(grid: Grid, axes: GridSymmetryAxes,
    a: usize,
    b: usize,
    c: usize,
    n: nat,
    m: nat,
)
    requires
        reaches(grid, axes, a, b, n),
        reaches(grid, axes, b, c, m),
    ensures
        reaches(grid, axes, a, c, n + m),
    decreases m,
{
    if b == c {
        lemma_reaches_longer(grid, axes, a, c, n, n + m);
    } else {
        let d = choose|d: usize|
            reaches(grid, axes, b, d, (m - 1) as nat) && #[trigger] linked(grid, axes, d, c);
        lemma_reaches_transitive(grid, axes, a, b, d, n, (m - 1) as nat);
        lemma_reaches_step(grid, axes, a, d, c, (n + m - 1) as nat);
    }
}

/// What is reached in `n` steps is reached in more.
pub proof fn lemma_reaches_longer(grid: Grid, axes: GridSymmetryAxes,
    a: usize,
    b: usize,
    n: nat,
    m: nat,
)
    requires
        reaches(grid, axes, a, b, n),
        n <= m,
    ensures
        reaches(grid, axes, a, b, m),
    decreases n,
{
    if a != b {
        let c = choose|c: usize|
            reaches(grid, axes, a, c, (n - 1) as nat) && #[trigger] linked(grid, axes, c, b);
        lemma_reaches_longer(grid, axes, a, c, (n - 1) as nat, (m - 1) as nat);
    }
}

/// A path can be walked back.
pub proof fn lemma_reaches_symmetric(grid: Grid, axes: GridSymmetryAxes,
    a: usize,
    b: usize,
    n: nat,
)
    requires
        reaches(grid, axes, a, b, n),
    ensures
        reaches(grid, axes, b, a, n),
    decreases n,
{
    if a != b {
        let c = choose|c: usize|
            reaches(grid, axes, a, c, (n - 1) as nat) && #[trigger] linked(grid, axes, c, b);
        lemma_reaches_symmetric(grid, axes, a, c, (n - 1) as nat);
        let axis = choose|axis: GridSymmetryAxis| axes.has(axis) && #[trigger] paired(grid, axis, c,
            b);
        lemma_paired_symmetric(grid, axis, c, b);
        assert(linked(grid, axes, b, c));
        assert(reaches(grid, axes, b, b, 0));
        lemma_reaches_step(grid, axes, b, b, c, 0);
        lemma_reaches_transitive(grid, axes, b, c, a, 1, (n - 1) as nat);
    }
}

/// Being in one class is symmetric.
pub proof fn lemma_connected_symmetric(grid: Grid, axes: GridSymmetryAxes,
    a: usize,
    b: usize,
)
    requires
        connected(grid, axes, a, b),
    ensures
        connected(grid, axes, b, a),
{
    let n = choose|n: nat| reaches(grid, axes, a, b, n);
    lemma_reaches_symmetric(grid, axes, a, b, n);
}

/// Being in one class is transitive.
pub proof fn lemma_connected_transitive(grid: Grid, axes: GridSymmetryAxes,
    a: usize,
    b: usize,
    c: usize,
)
    requires
        connected(grid, axes, a, b),
        connected(grid, axes, b, c),
    ensures
        connected(grid, axes, a, c),
{
    let n = choose|n: nat| reaches(grid, axes, a, b, n);
    let m = choose|m: nat| reaches(grid, axes, b, c, m);
    lemma_reaches_transitive(grid, axes, a, b, c, n, m);
}

/// A class has one least position.
pub proof fn lemma_canonical_unique(grid: Grid, axes: GridSymmetryAxes,
    index: usize,
    r: usize,
    q: usize,
)
    requires
        is_canonical(grid, axes, index, r),
        is_canonical(grid, axes, index, q),
    ensures
        r == q,
{
}

/// The representative of a class is its own representative: to canonicalize
/// twice is to canonicalize once.
pub proof fn lemma_canonical_idempotent(grid: Grid, axes: GridSymmetryAxes,
    index: usize,
    r: usize,
    q: usize,
)
    requires
        is_canonical(grid, axes, index, r),
        is_canonical(grid, axes, r, q),
    ensures
        q == r,
{
    assert(reaches(grid, axes, r, r, 0));
    assert(connected(grid, axes, r, r));
    lemma_connected_transitive(grid, axes, index, r, q);
}

/// Without an active axis every position is its own representative.
pub proof fn lemma_canonical_without_axes(grid: Grid, axes: GridSymmetryAxes, index: usize)
    requires
        forall|axis: GridSymmetryAxis| !axes.has(axis),
    ensures
        is_canonical(grid, axes, index, index),
        canonical_of(grid, axes, index) == index,
{
    assert(reaches(grid, axes, index, index, 0));
    assert forall|j: usize| #[trigger] connected(grid, axes, index, j) implies index <= j by {
        let n = choose|n: nat| reaches(grid, axes, index, j, n);
        lemma_reaches_without_axes(grid, axes, index, j, n);
    }
}

/// Without an active axis nothing leads away from a position.
proof fn lemma_reaches_without_axes(grid: Grid, axes: GridSymmetryAxes,
    a: usize,
    b: usize,
    n: nat,
)
    requires
        forall|axis: GridSymmetryAxis| !axes.has(axis),
        reaches(grid, axes, a, b, n),
    ensures
        a == b,
    decreases n,
{
    if a != b {
        let c = choose|c: usize|
            reaches(grid, axes, a, c, (n - 1) as nat) && #[trigger] linked(grid, axes, c, b);
        assert(linked(grid, axes, c, b));
    }
}

/// What `index` expands to at each axis of `list`, one axis after the other.
pub open spec fn expand_along(grid: Grid, list: Seq<GridSymmetryAxis>, index: usize) -> Seq<usize>
    decreases list.len(),
{
    if list.len() == 0 {
        Seq::empty()
    } else {
        expand_along(grid, list.drop_last(), index) + expand_index_spec(
            grid.pairs(list.last()),
            index,
        )
    }
}

/// What `index` expands to under `axes`: at each active axis the index and
/// the positions that the axis mirrors it to, one axis after the other, and
/// the index alone where no axis is active. A position can occur more than
/// once.
pub open spec fn expand_spec(grid: Grid, axes: GridSymmetryAxes, index: usize) -> Seq<usize> {
    if axes.listed().len() == 0 {
        seq![index]
    } else {
        expand_along(grid, axes.listed(), index)
    }
}

/// The least position of the class of `index`.
pub open spec fn canonical_of(grid: Grid, axes: GridSymmetryAxes, index: usize) -> usize {
    choose|r: usize| is_canonical(grid, axes, index, r)
}

/// An index is among what it expands to.
pub proof fn lemma_expansion_holds_index(grid: Grid, axes: GridSymmetryAxes, index: usize)
    ensures
        expand_spec(grid, axes, index).contains(index),
{
    let list = axes.listed();
    if list.len() == 0 {
        assert(seq![index][0] == index);
    } else {
        let front = expand_along(grid, list.drop_last(), index);
        let all = expand_along(grid, list, index);
        assert(all[front.len() as int] == index);
    }
}

/// What a position of the grid expands to lies on the grid.
pub proof fn lemma_expansion_on_grid(grid: Grid, axes: GridSymmetryAxes, index: usize, x: usize)
    requires
        grid.well_formed(),
        index < grid.positions,
        expand_spec(grid, axes, index).contains(x),
    ensures
        x < grid.positions,
{
    if axes.listed().len() > 0 {
        lemma_expand_along_on_grid(grid, axes.listed(), index, x);
    }
}

proof fn lemma_expand_along_on_grid(grid: Grid, list: Seq<GridSymmetryAxis>, index: usize, x: usize)
    requires
        grid.well_formed(),
        index < grid.positions,
        expand_along(grid, list, index).contains(x),
    ensures
        x < grid.positions,
    decreases list.len(),
{
    if list.len() > 0 {
        let front = expand_along(grid, list.drop_last(), index);
        let part = expand_index_spec(grid.pairs(list.last()), index);
        let all = expand_along(grid, list, index);
        let at = choose|at: int| 0 <= at < all.len() && all[at] == x;
        if at < front.len() {
            assert(front[at] == x);
            lemma_expand_along_on_grid(grid, list.drop_last(), index, x);
        } else {
            assert(part[at - front.len()] == x);
            lemma_expand_index(grid, list.last(), index, x);
            if x != index {
                let k = choose|k: int|
                    0 <= k < grid.pairs(list.last()).len() && partner_in(
                        #[trigger] grid.pairs(list.last())[k],
                        index,
                    ) == Some(x);
            }
        }
    }
}

/// Every class of positions has a least position.
pub proof fn lemma_canonical_exists(grid: Grid, axes: GridSymmetryAxes, index: usize, bound: usize)
    requires
        connected(grid, axes, index, bound),
    ensures
        is_canonical(grid, axes, index, canonical_of(grid, axes, index)),
        canonical_of(grid, axes, index) <= bound,
    decreases bound,
{
    if forall|j: usize| #[trigger] connected(grid, axes, index, j) ==> bound <= j {
        assert(is_canonical(grid, axes, index, bound));
    } else {
        let j = choose|j: usize| #[trigger] connected(grid, axes, index, j) && j < bound;
        lemma_canonical_exists(grid, axes, index, j);
    }
}

/// A position is in its own class.
pub proof fn lemma_connected_reflexive(grid: Grid, axes: GridSymmetryAxes, index: usize)
    ensures
        connected(grid, axes, index, index),
{
    assert(reaches(grid, axes, index, index, 0));
}

/// The axis and the pair that link two positions.
pub proof fn lemma_link(grid: Grid, axes: GridSymmetryAxes, a: usize, b: usize) -> (found: (
    GridSymmetryAxis,
    int,
))
    requires
        linked(grid, axes, a, b),
    ensures
        axes.has(found.0),
        0 <= found.1 < grid.pairs(found.0).len(),
        partner_in(grid.pairs(found.0)[found.1], a) == Some(b),
{
    let axis = choose|axis: GridSymmetryAxis| axes.has(axis) && #[trigger] paired(grid, axis, a, b);
    let k = choose|k: int|
        0 <= k < grid.pairs(axis).len() && partner_in(#[trigger] grid.pairs(axis)[k], a) == Some(b);
    (axis, k)
}

/// What holds of a position, and of every position that is linked with one
/// that it holds of, holds of the whole class of the position.
pub proof fn lemma_class_induction(
    grid: Grid,
    axes: GridSymmetryAxes,
    from: usize,
    to: usize,
    holds: spec_fn(usize) -> bool,
)
    requires
        connected(grid, axes, from, to),
        holds(from),
        forall|a: usize, b: usize| holds(a) && #[trigger] linked(grid, axes, a, b) ==> holds(b),
    ensures
        holds(to),
{
    let n = choose|n: nat| reaches(grid, axes, from, to, n);
    lemma_reach_induction(grid, axes, from, to, n, holds);
}

proof fn lemma_reach_induction(
    grid: Grid,
    axes: GridSymmetryAxes,
    from: usize,
    to: usize,
    n: nat,
    holds: spec_fn(usize) -> bool,
)
    requires
        reaches(grid, axes, from, to, n),
        holds(from),
        forall|a: usize, b: usize| holds(a) && #[trigger] linked(grid, axes, a, b) ==> holds(b),
    ensures
        holds(to),
    decreases n,
{
    if from != to {
        let c = choose|c: usize|
            reaches(grid, axes, from, c, (n - 1) as nat) && #[trigger] linked(grid, axes, c, to);
        lemma_reach_induction(grid, axes, from, c, (n - 1) as nat, holds);
    }
}

} // verus!
