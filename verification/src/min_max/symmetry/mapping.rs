//! Finding the least position of each class: by collecting the class of one
//! position, by settling all positions at once, and for every set of axes in
//! one table.

use crate::min_max::cache::{table_insert, Key, KeyedTable};
use crate::min_max::symmetry::classes::{
    connected, expand_index_spec, is_canonical, is_mapping, lemma_class_induction,
    lemma_connected_transitive, lemma_expand_index, lemma_link, lemma_paired_symmetric,
    lemma_reaches_step, linked, paired, partner_in, reaches, Grid,
};
use crate::min_max::symmetry::{GridSymmetryAxes, GridSymmetryAxis, GridSymmetryAxisContext};
use itertools::Itertools;
use std::collections::HashMap;
use std::collections::HashSet;
use vstd::prelude::*;

verus! {

/// A set of positions, hashed by `ahash`.
pub type IndexSet = HashSet<usize, ahash::RandomState>;

/// `HashSet::insert` on a set hashed by `ahash`: afterwards the set holds
/// `index` besides what it held.
#[verifier::external_body]
fn set_insert(set: &mut IndexSet, index: usize)
    ensures
        final(set)@ == old(set)@.insert(index),
{
    set.insert(index);
}

/// `Clone` of a set hashed by `ahash`: a set that holds the same positions.
#[verifier::external_body]
fn set_copy(set: &IndexSet) -> (r: IndexSet)
    ensures
        r@ == set@,
{
    set.clone()
}

/// `==` of two sets hashed by `ahash`: whether they hold the same positions.
#[verifier::external_body]
fn set_same(a: &IndexSet, b: &IndexSet) -> (r: bool)
    ensures
        r == (a@ == b@),
{
    a == b
}

/// The positions that a set hashed by `ahash` hands out when it is walked, in
/// the order in which it hands them out, of which nothing is known.
#[verifier::external_body]
fn set_items(set: &IndexSet) -> (r: Vec<usize>)
    ensures
        r@.to_set() == set@,
{
    set.iter().copied().collect()
}

/// Whether `x` is `index` or a position that an axis of `axes` mirrors it to,
/// where `axes` holds an axis at all.
pub open spec fn expands_to(grid: Grid, axes: GridSymmetryAxes, index: usize, x: usize) -> bool {
    exists|axis: GridSymmetryAxis|
        axes.has(axis) && #[trigger] expand_index_spec(grid.pairs(axis), index).contains(x)
}

/// Whether every position of `set` lies on the grid and in the class of
/// `origin`.
pub open spec fn in_class(grid: Grid, axes: GridSymmetryAxes, origin: usize, set: Set<usize>)
    -> bool {
    forall|x: usize| #[trigger]
        set.contains(x) ==> x < grid.positions && connected(grid, axes, origin, x)
}

/// Whether no mirroring leads out of `set`.
pub open spec fn closed(grid: Grid, axes: GridSymmetryAxes, set: Set<usize>) -> bool {
    forall|a: usize, b: usize| set.contains(a) && #[trigger] linked(grid, axes, a, b)
        ==> set.contains(b)
}

/// A set that no mirroring leads out of holds the class of each of its
/// positions.
proof fn lemma_closed_holds_class(
    grid: Grid,
    axes: GridSymmetryAxes,
    set: Set<usize>,
    origin: usize,
    target: usize,
)
    requires
        closed(grid, axes, set),
        set.contains(origin),
        connected(grid, axes, origin, target),
    ensures
        set.contains(target),
{
    lemma_class_induction(grid, axes, origin, target, |x: usize| set.contains(x));
}

/// What a position expands to is itself or what it is linked with, and the
/// other way round where an axis is active.
proof fn lemma_expands_to(grid: Grid, axes: GridSymmetryAxes, index: usize, x: usize)
    ensures
        expands_to(grid, axes, index, x) ==> x == index || linked(grid, axes, index, x),
        linked(grid, axes, index, x) ==> expands_to(grid, axes, index, x),
        x == index && (exists|axis: GridSymmetryAxis| axes.has(axis)) ==> expands_to(
            grid,
            axes,
            index,
            x,
        ),
{
    if expands_to(grid, axes, index, x) {
        let axis = choose|axis: GridSymmetryAxis|
            axes.has(axis) && #[trigger] expand_index_spec(grid.pairs(axis), index).contains(x);
        lemma_expand_index(grid, axis, index, x);
        if x != index {
            assert(paired(grid, axis, index, x));
        }
    }
    if linked(grid, axes, index, x) {
        let axis = choose|axis: GridSymmetryAxis| axes.has(axis) && #[trigger] paired(grid, axis,
            index, x);
        lemma_expand_index(grid, axis, index, x);
    }
    if x == index && (exists|axis: GridSymmetryAxis| axes.has(axis)) {
        let axis = choose|axis: GridSymmetryAxis| axes.has(axis);
        lemma_expand_index(grid, axis, index, x);
    }
}

/// How many of the first `n` positions `set` does not hold.
spec fn missing(set: Set<usize>, n: nat) -> nat
    decreases n,
{
    if n == 0 {
        0
    } else {
        missing(set, (n - 1) as nat) + if set.contains((n - 1) as usize) {
            0nat
        } else {
            1nat
        }
    }
}

/// A larger set misses no more.
proof fn lemma_missing_shrinks(a: Set<usize>, b: Set<usize>, n: nat)
    requires
        a.subset_of(b),
    ensures
        missing(b, n) <= missing(a, n),
    decreases n,
{
    if n > 0 {
        lemma_missing_shrinks(a, b, (n - 1) as nat);
    }
}

/// A set that holds one position more misses less.
proof fn lemma_missing_drops(a: Set<usize>, b: Set<usize>, n: nat, x: usize)
    requires
        a.subset_of(b),
        x < n <= usize::MAX,
        b.contains(x),
        !a.contains(x),
    ensures
        missing(b, n) < missing(a, n),
    decreases n,
{
    if x == n - 1 {
        lemma_missing_shrinks(a, b, (n - 1) as nat);
    } else {
        lemma_missing_drops(a, b, (n - 1) as nat, x);
    }
}

/// Adds to `current` what `index` expands to at each active axis.
fn extend_with_expansions<Ctx: GridSymmetryAxisContext>(
    current: &mut IndexSet,
    axes: &GridSymmetryAxes,
    active: &Vec<GridSymmetryAxis>,
    index: usize,
)
    requires
        active@ == axes.listed(),
    ensures
        forall|x: usize|
            #![trigger final(current)@.contains(x)]
            final(current)@.contains(x) <==> (old(current)@.contains(x) || expands_to(
                Ctx::grid(),
                *axes,
                index,
                x,
            )),
{
    let ghost grid = Ctx::grid();
    let mut a: usize = 0;
    while a < active.len()
        invariant
            0 <= a <= active.len(),
            grid == Ctx::grid(),
            forall|x: usize|
                #![trigger current@.contains(x)]
                current@.contains(x) <==> (old(current)@.contains(x) || exists|t: int|
                    0 <= t < a && #[trigger] expand_index_spec(
                        grid.pairs(active[t]),
                        index,
                    ).contains(x)),
        decreases active.len() - a,
    {
        let expansion = Ctx::expand_index(active[a], index);
        let ghost before = current@;
        let mut e: usize = 0;
        while e < expansion.len()
            invariant
                0 <= e <= expansion.len(),
                forall|x: usize|
                    #![trigger current@.contains(x)]
                    current@.contains(x) <==> (before.contains(x) || exists|t: int|
                        0 <= t < e && #[trigger] expansion[t] == x),
            decreases expansion.len() - e,
        {
            let ghost held = current@;
            let item = expansion[e];
            set_insert(current, item);
            proof {
                assert forall|x: usize|
                    #![trigger current@.contains(x)]
                    current@.contains(x) <==> (before.contains(x) || exists|t: int|
                        0 <= t < e + 1 && #[trigger] expansion[t] == x) by {
                    if x == item {
                        assert(expansion[e as int] == x);
                    }
                    if held.contains(x) && !before.contains(x) {
                        let t = choose|t: int| 0 <= t < e && #[trigger] expansion[t] == x;
                        assert(0 <= t < e + 1 && expansion[t] == x);
                    }
                }
            }
            e += 1;
        }
        proof {
            let part = expand_index_spec(grid.pairs(active[a as int]), index);
            assert(part == expansion@);
            assert forall|x: usize| #[trigger] current@.contains(x) implies (old(current)@.contains(
                x,
            ) || exists|t: int|
                0 <= t < a + 1 && #[trigger] expand_index_spec(
                    grid.pairs(active[t]),
                    index,
                ).contains(x)) by {
                if before.contains(x) {
                    if !old(current)@.contains(x) {
                        let t = choose|t: int|
                            0 <= t < a && #[trigger] expand_index_spec(
                                grid.pairs(active[t]),
                                index,
                            ).contains(x);
                        assert(0 <= t < a + 1 && expand_index_spec(
                            grid.pairs(active[t]),
                            index,
                        ).contains(x));
                    }
                } else {
                    let t = choose|t: int| 0 <= t < e && #[trigger] expansion[t] == x;
                    assert(part[t] == x);
                    assert(expand_index_spec(grid.pairs(active[a as int]), index).contains(x));
                }
            }
            assert forall|x: usize|
                (old(current)@.contains(x) || exists|t: int|
                    0 <= t < a + 1 && #[trigger] expand_index_spec(
                        grid.pairs(active[t]),
                        index,
                    ).contains(x)) implies #[trigger] current@.contains(x) by {
                if !old(current)@.contains(x) {
                    let t = choose|t: int|
                        0 <= t < a + 1 && #[trigger] expand_index_spec(
                            grid.pairs(active[t]),
                            index,
                        ).contains(x);
                    if t < a {
                        assert(before.contains(x));
                    } else {
                        let at = choose|at: int| 0 <= at < part.len() && part[at] == x;
                        assert(expansion[at] == x);
                    }
                }
            }
        }
        a += 1;
    }
    proof {
        axes.lemma_listed();
        assert forall|x: usize|
            #![trigger current@.contains(x)]
            current@.contains(x) <==> (old(current)@.contains(x) || expands_to(grid, *axes, index,
                x)) by {
            if expands_to(grid, *axes, index, x) {
                let axis = choose|axis: GridSymmetryAxis|
                    axes.has(axis) && #[trigger] expand_index_spec(grid.pairs(axis),
                        index).contains(x);
                assert(active@.contains(axis));
                let t = choose|t: int| 0 <= t < active@.len() && active@[t] == axis;
                assert(expand_index_spec(grid.pairs(active[t]), index).contains(x));
            }
            if current@.contains(x) && !old(current)@.contains(x) {
                let t = choose|t: int|
                    0 <= t < a && #[trigger] expand_index_spec(grid.pairs(active[t]),
                        index).contains(x);
                assert(active@.contains(active@[t]));
                assert(axes.has(active[t]));
            }
        }
    }
}

/// The least position that mirrorings at the axes of `axes` lead to from
/// `origin`. It is found by collecting what the positions found so
/// far expand to, until nothing new is found.
fn canonical_index<Ctx: GridSymmetryAxisContext>(axes: &GridSymmetryAxes, origin: usize) -> (r:
    usize)
    requires
        origin < Ctx::grid().positions,
    ensures
        is_canonical(Ctx::grid(), *axes, origin, r),
{
    let ghost grid = Ctx::grid();
    proof {
        Ctx::lemma_grid();
        axes.lemma_listed();
        assert(reaches(grid, *axes, origin, origin, 0));
    }
    let active = axes.to_vec();
    let mut current: IndexSet = HashSet::default();
    set_insert(&mut current, origin);
    let mut previous = set_copy(&current);
    loop
        invariant_except_break
            current@.subset_of(previous@),
            active.len() == 0 ==> current@ == previous@,
        invariant
            grid == Ctx::grid(),
            grid.well_formed(),
            active@ == axes.listed(),
            previous@.contains(origin),
            in_class(grid, *axes, origin, previous@),
            in_class(grid, *axes, origin, current@),
        ensures
            current@ == previous@,
            closed(grid, *axes, previous@),
        decreases missing(previous@, grid.positions),
    {
        let items = set_items(&previous);
        let ghost base = current@;
        let mut k: usize = 0;
        while k < items.len()
            invariant
                0 <= k <= items.len(),
                grid == Ctx::grid(),
                active@ == axes.listed(),
                forall|x: usize|
                    #![trigger current@.contains(x)]
                    current@.contains(x) <==> (base.contains(x) || exists|t: int|
                        0 <= t < k && #[trigger] expands_to(grid, *axes, items[t], x)),
            decreases items.len() - k,
        {
            let ghost held = current@;
            let item = items[k];
            extend_with_expansions::<Ctx>(&mut current, axes, &active, item);
            proof {
                assert forall|x: usize|
                    #![trigger current@.contains(x)]
                    current@.contains(x) <==> (base.contains(x) || exists|t: int|
                        0 <= t < k + 1 && #[trigger] expands_to(grid, *axes, items[t], x)) by {
                    if expands_to(grid, *axes, item, x) {
                        assert(expands_to(grid, *axes, items[k as int], x));
                    }
                    if held.contains(x) && !base.contains(x) {
                        let t = choose|t: int|
                            0 <= t < k && #[trigger] expands_to(grid, *axes, items[t], x);
                        assert(0 <= t < k + 1 && expands_to(grid, *axes, items[t], x));
                    }
                    if !held.contains(x) && !expands_to(grid, *axes, item, x) {
                        if exists|t: int|
                            0 <= t < k + 1 && #[trigger] expands_to(grid, *axes, items[t], x) {
                            let t = choose|t: int|
                                0 <= t < k + 1 && #[trigger] expands_to(grid, *axes, items[t], x);
                            assert(t < k);
                        }
                    }
                }
            }
            k += 1;
        }
        proof {
            assert forall|x: usize| #[trigger] current@.contains(x) implies x < grid.positions
                && connected(grid, *axes, origin, x) by {
                if !base.contains(x) {
                    let t = choose|t: int|
                        0 <= t < k && #[trigger] expands_to(grid, *axes, items[t], x);
                    assert(items@.to_set().contains(items@[t]));
                    lemma_expands_to(grid, *axes, items[t], x);
                    if x != items[t] {
                        let n = choose|n: nat| reaches(grid, *axes, origin, items[t], n);
                        lemma_reaches_step(grid, *axes, origin, items[t], x, n);
                        let axis = choose|axis: GridSymmetryAxis|
                            axes.has(axis) && #[trigger] paired(grid, axis, items[t], x);
                        let at = choose|at: int|
                            0 <= at < grid.pairs(axis).len() && partner_in(
                                #[trigger] grid.pairs(axis)[at],
                                items[t],
                            ) == Some(x);
                    }
                }
            }
        }
        if set_same(&current, &previous) {
            proof {
                assert forall|a: usize, b: usize|
                    previous@.contains(a) && #[trigger] linked(grid, *axes, a, b)
                        implies previous@.contains(
                    b,
                ) by {
                    assert(items@.to_set().contains(a));
                    let t = choose|t: int| 0 <= t < items@.len() && items@[t] == a;
                    lemma_expands_to(grid, *axes, a, b);
                    assert(expands_to(grid, *axes, items[t], b));
                }
            }
            break;
        }
        proof {
            axes.lemma_listed();
            if active.len() == 0 {
                assert forall|x: usize| current@.contains(x) implies base.contains(x) by {
                    if !base.contains(x) {
                        let t = choose|t: int|
                            0 <= t < k && #[trigger] expands_to(grid, *axes, items[t], x);
                        let axis = choose|axis: GridSymmetryAxis|
                            axes.has(axis) && #[trigger] expand_index_spec(
                                grid.pairs(axis),
                                items[t],
                            ).contains(x);
                        assert(axes.listed().contains(axis));
                    }
                }
                assert(current@ =~= previous@);
            }
            assert(axes.listed().contains(active@[0]));
            assert(axes.has(active@[0]));
            assert forall|x: usize| previous@.contains(x) implies current@.contains(x) by {
                assert(items@.to_set().contains(x));
                let t = choose|t: int| 0 <= t < items@.len() && items@[t] == x;
                lemma_expands_to(grid, *axes, x, x);
                assert(expands_to(grid, *axes, items[t], x));
            }
            if forall|x: usize| current@.contains(x) == previous@.contains(x) {
                assert(current@ =~= previous@);
            }
            let extra = choose|x: usize| current@.contains(x) != previous@.contains(x);
            lemma_missing_drops(previous@, current@, grid.positions, extra);
        }
        std::mem::swap(&mut current, &mut previous);
    }
    let found = set_items(&current);
    proof {
        assert(found@.to_set().contains(origin));
    }
    let mut least = found[0];
    let mut k: usize = 1;
    while k < found.len()
        invariant
            1 <= k <= found.len(),
            found@.contains(least),
            forall|t: int| 0 <= t < k ==> least <= #[trigger] found[t],
        decreases found.len() - k,
    {
        if found[k] < least {
            least = found[k];
        }
        k += 1;
    }
    proof {
        assert(found@.to_set().contains(least));
        assert forall|j: usize| #[trigger]
            connected(grid, *axes, origin, j) implies least <= j by {
            lemma_closed_holds_class(grid, *axes, previous@, origin, j);
            assert(found@.to_set().contains(j));
            let t = choose|t: int| 0 <= t < found@.len() && found@[t] == j;
            assert(least <= found[t]);
        }
    }
    least
}

/// The sum of the first `n` entries.
spec fn total(mapping: Seq<usize>, n: int) -> int
    decreases n,
{
    if n <= 0 {
        0
    } else {
        total(mapping, n - 1) + mapping[n - 1]
    }
}

/// A smaller entry makes a smaller sum.
proof fn lemma_total_drops(mapping: Seq<usize>, at: int, value: usize, n: int)
    requires
        0 <= at < mapping.len(),
        0 <= n <= mapping.len(),
        value < mapping[at],
    ensures
        total(mapping.update(at, value), n) <= total(mapping, n),
        at < n ==> total(mapping.update(at, value), n) < total(mapping, n),
        total(mapping, n) >= 0,
    decreases n,
{
    if n > 0 {
        lemma_total_drops(mapping, at, value, n - 1);
    }
}

/// Whether each entry is a position of the class of its place, and not a
/// later one.
pub open spec fn is_labelling(grid: Grid, axes: GridSymmetryAxes, mapping: Seq<usize>) -> bool {
    &&& mapping.len() == grid.positions
    &&& forall|i: int|
        0 <= i < mapping.len() ==> (#[trigger] mapping[i]) <= i && connected(
            grid,
            axes,
            i as usize,
            mapping[i],
        )
}

/// Whether the two ends of every pair of `pairs` have one entry.
pub open spec fn agrees_on(mapping: Seq<usize>, pairs: Seq<(usize, usize)>) -> bool {
    forall|k: int|
        0 <= k < pairs.len() ==> mapping[(#[trigger] pairs[k]).0 as int]
            == mapping[pairs[k].1 as int]
}

/// Whether the two ends of every pair of every active axis have one entry.
pub open spec fn is_settled(grid: Grid, axes: GridSymmetryAxes, mapping: Seq<usize>) -> bool {
    forall|axis: GridSymmetryAxis| axes.has(axis) ==> agrees_on(mapping, #[trigger] grid.pairs(
        axis))
}

/// A settled labelling gives each position the least position of its class.
proof fn lemma_settled_is_mapping(grid: Grid, axes: GridSymmetryAxes, mapping: Seq<usize>)
    requires
        grid.well_formed(),
        is_labelling(grid, axes, mapping),
        is_settled(grid, axes, mapping),
    ensures
        is_mapping(grid, axes, mapping),
{
    assert forall|i: int| 0 <= i < mapping.len() implies is_canonical(
        grid,
        axes,
        i as usize,
        #[trigger] mapping[i],
    ) by {
        let at = i as usize;
        let alike = |x: usize| x < grid.positions && mapping[x as int] == mapping[i];
        assert forall|a: usize, b: usize|
            alike(a) && #[trigger] linked(grid, axes, a, b) implies alike(b) by {
            let (axis, k) = lemma_link(grid, axes, a, b);
            assert(agrees_on(mapping, grid.pairs(axis)));
        }
        assert forall|j: usize| #[trigger] connected(grid, axes, at, j) implies mapping[i] <= j by {
            lemma_class_induction(grid, axes, at, j, alike);
        }
    }
}

/// Gives position `to` the entry of position `from`, its partner at an
/// active axis, where that entry is the smaller one.
fn take_smaller<Ctx: GridSymmetryAxisContext>(
    mapping: &mut Vec<usize>,
    axes: &GridSymmetryAxes,
    axis: GridSymmetryAxis,
    from: usize,
    to: usize,
)
    requires
        Ctx::grid().well_formed(),
        axes.has(axis),
        paired(Ctx::grid(), axis, to, from),
        is_labelling(Ctx::grid(), *axes, old(mapping)@),
        from < old(mapping).len(),
        to < old(mapping).len(),
        old(mapping)[from as int] < old(mapping)[to as int],
    ensures
        is_labelling(Ctx::grid(), *axes, final(mapping)@),
        final(mapping)@ == old(mapping)@.update(to as int, old(mapping)[from as int]),
{
    let ghost grid = Ctx::grid();
    let label = mapping[from];
    proof {
        assert(linked(grid, *axes, to, from));
        assert(reaches(grid, *axes, to, to, 0));
        lemma_reaches_step(grid, *axes, to, to, from, 0);
        lemma_connected_transitive(grid, *axes, to, from, label);
    }
    mapping[to] = label;
}

/// For each position of the grid the least position that mirrorings at the
/// axes of `axes` lead to from it. Every position starts as its own, and the
/// two ends of each pair of each active axis take the smaller of their two
/// entries, again and again until no entry changes.
pub fn canonicalization_mapping<Ctx: GridSymmetryAxisContext>(axes: &GridSymmetryAxes) -> (r: Vec<
    usize,
>)
    ensures
        is_mapping(Ctx::grid(), *axes, r@),
{
    let ghost grid = Ctx::grid();
    proof {
        Ctx::lemma_grid();
        axes.lemma_listed();
    }
    let size = Ctx::size();
    let active = axes.to_vec();
    let mut mapping: Vec<usize> = Vec::with_capacity(size);
    let mut index: usize = 0;
    while index < size
        invariant
            0 <= index <= size,
            size == grid.positions,
            mapping.len() == index,
            forall|i: int| 0 <= i < index ==> #[trigger] mapping[i] == i,
        decreases size - index,
    {
        mapping.push(index);
        index += 1;
    }
    proof {
        assert forall|i: int| 0 <= i < mapping.len() implies (#[trigger] mapping[i]) <= i
            && connected(grid, *axes, i as usize, mapping[i]) by {
            assert(reaches(grid, *axes, i as usize, i as usize, 0));
        }
    }
    loop
        invariant
            grid == Ctx::grid(),
            grid.well_formed(),
            size == grid.positions,
            active@ == axes.listed(),
            forall|axis: GridSymmetryAxis| active@.contains(axis) == axes.has(axis),
            is_labelling(grid, *axes, mapping@),
        ensures
            is_settled(grid, *axes, mapping@),
        decreases total(mapping@, size as int),
    {
        let ghost start = mapping@;
        let mut changed = false;
        let mut a: usize = 0;
        while a < active.len()
            invariant
                0 <= a <= active.len(),
                grid == Ctx::grid(),
                grid.well_formed(),
                size == grid.positions,
                start.len() == size,
                forall|axis: GridSymmetryAxis| active@.contains(axis) == axes.has(axis),
                is_labelling(grid, *axes, mapping@),
                total(mapping@, size as int) <= total(start, size as int),
                changed ==> total(mapping@, size as int) < total(start, size as int),
                !changed ==> mapping@ == start,
                !changed ==> forall|t: int|
                    0 <= t < a ==> agrees_on(start, grid.pairs(#[trigger] active@[t])),
            decreases active.len() - a,
        {
            let axis = active[a];
            let pairs = Ctx::symmetric_indices(axis);
            proof {
                assert(active@.contains(active@[a as int]));
            }
            let mut k: usize = 0;
            while k < pairs.len()
                invariant
                    0 <= k <= pairs.len(),
                    grid == Ctx::grid(),
                    grid.well_formed(),
                    size == grid.positions,
                    start.len() == size,
                    axes.has(axis),
                    pairs@ == grid.pairs(axis),
                    is_labelling(grid, *axes, mapping@),
                    total(mapping@, size as int) <= total(start, size as int),
                    changed ==> total(mapping@, size as int) < total(start, size as int),
                    !changed ==> mapping@ == start,
                    !changed ==> agrees_on(start, pairs@.take(k as int)),
                    !changed ==> forall|t: int|
                        0 <= t < a ==> agrees_on(start, grid.pairs(#[trigger] active@[t])),
                decreases pairs.len() - k,
            {
                let (first, second) = pairs[k];
                proof {
                    assert(grid.pairs(axis)[k as int] == (first, second));
                    assert(partner_in(grid.pairs(axis)[k as int], first) == Some(second));
                }
                let ghost held = mapping@;
                let one = mapping[first];
                let other = mapping[second];
                if one < other {
                    proof {
                        assert(paired(grid, axis, second, first)) by {
                            lemma_paired_symmetric(grid, axis, first, second);
                        }
                        lemma_total_drops(held, second as int, one, size as int);
                    }
                    take_smaller::<Ctx>(&mut mapping, axes, axis, first, second);
                    changed = true;
                } else if other < one {
                    proof {
                        lemma_total_drops(held, first as int, other, size as int);
                    }
                    take_smaller::<Ctx>(&mut mapping, axes, axis, second, first);
                    changed = true;
                } else {
                    proof {
                        if !changed {
                            let before = pairs@.take(k as int);
                            let after = pairs@.take(k + 1);
                            assert forall|t: int| 0 <= t < after.len() implies start[(
                            #[trigger] after[t]).0 as int] == start[after[t].1 as int] by {
                                if t < k {
                                    assert(before[t] == after[t]);
                                }
                            }
                        }
                    }
                }
                k += 1;
            }
            proof {
                assert(pairs@.take(pairs.len() as int) =~= pairs@);
                if !changed {
                    assert(agrees_on(start, grid.pairs(active@[a as int])));
                    assert forall|t: int| 0 <= t < a + 1 implies agrees_on(
                        start,
                        grid.pairs(#[trigger] active@[t]),
                    ) by {
                    }
                }
            }
            a += 1;
        }
        if !changed {
            proof {
                assert forall|axis: GridSymmetryAxis| axes.has(axis) implies agrees_on(
                    mapping@,
                    #[trigger] grid.pairs(axis),
                ) by {
                    assert(active@.contains(axis));
                    let t = choose|t: int| 0 <= t < active@.len() && active@[t] == axis;
                    assert(agrees_on(start, grid.pairs(active@[t])));
                }
            }
            break;
        }
        proof {
            lemma_total_nonnegative(mapping@, size as int);
        }
    }
    proof {
        lemma_settled_is_mapping(grid, *axes, mapping@);
    }
    mapping
}

/// A sum of entries is not negative.
proof fn lemma_total_nonnegative(mapping: Seq<usize>, n: int)
    ensures
        total(mapping, n) >= 0,
    decreases n,
{
    if n > 0 {
        lemma_total_nonnegative(mapping, n - 1);
    }
}

/// The items of `items` that `picks` picks, in their order.
pub open spec fn selected<A>(items: Seq<A>, picks: Seq<bool>) -> Seq<A>
    decreases items.len(),
{
    if items.len() == 0 {
        Seq::empty()
    } else {
        let front = selected(items.drop_last(), picks.drop_last());
        if picks.last() {
            front.push(items.last())
        } else {
            front
        }
    }
}

/// Whether one of `lists` is what `picks` picks of `items`.
pub open spec fn holds_selection(
    lists: Seq<Vec<GridSymmetryAxis>>,
    items: Seq<GridSymmetryAxis>,
    picks: Seq<bool>,
) -> bool {
    exists|k: int| 0 <= k < lists.len() && (#[trigger] lists[k])@ == selected(items, picks)
}

/// `Itertools::powerset` of a list of axes: the lists of every selection of
/// the axes, each selection in the order of the list.
#[verifier::external_body]
fn axis_powerset(items: Vec<GridSymmetryAxis>) -> (r: Vec<Vec<GridSymmetryAxis>>)
    ensures
        forall|picks: Seq<bool>|
            picks.len() == items.len() ==> #[trigger] holds_selection(r@, items@, picks),
{
    items.into_iter().powerset().collect()
}

/// The mapping of every set of axes, filed under the key of the set.
pub type MappingTable = KeyedTable<Vec<usize>>;

/// Whether the table holds, for every set of axes, the least position of
/// the class of every position.
pub open spec fn is_mapping_table(grid: Grid, table: Map<Key, Vec<usize>>) -> bool {
    forall|axes: GridSymmetryAxes|
        table.contains_key(#[trigger] axes.key_of()) && is_mapping(
            grid,
            axes,
            table[axes.key_of()]@,
        )
}

/// Whether `key` is the key of a set of axes.
pub open spec fn is_axes_key(key: Key) -> bool {
    exists|axes: GridSymmetryAxes| key == #[trigger] axes.key_of()
}

/// For each position of the grid the least position of its class, each
/// found by collecting the class.
fn collected_mapping<Ctx: GridSymmetryAxisContext>(axes: &GridSymmetryAxes) -> (r: Vec<usize>)
    ensures
        is_mapping(Ctx::grid(), *axes, r@),
{
    let size = Ctx::size();
    let mut mapping: Vec<usize> = Vec::new();
    let mut index: usize = 0;
    while index < size
        invariant
            0 <= index <= size,
            size == Ctx::grid().positions,
            mapping.len() == index,
            forall|i: int|
                0 <= i < mapping.len() ==> is_canonical(
                    Ctx::grid(),
                    *axes,
                    i as usize,
                    #[trigger] mapping[i],
                ),
        decreases size - index,
    {
        let canonical = canonical_index::<Ctx>(axes, index);
        mapping.push(canonical);
        index += 1;
    }
    mapping
}

/// The table of the mappings of all sets of axes: for every set, and every
/// position of the grid, the least position that mirrorings at the axes of
/// the set lead to from the position.
pub fn generate_axis_to_canonical_indices<Ctx: GridSymmetryAxisContext>() -> (r: MappingTable)
    ensures
        is_mapping_table(Ctx::grid(), r@),
        forall|key: Key| r@.contains_key(key) ==> #[trigger] is_axes_key(key),
{
    let ghost grid = Ctx::grid();
    let every = GridSymmetryAxes::all();
    let all = every.to_vec();
    let subsets = axis_powerset(every.to_vec());
    let mut table: MappingTable = HashMap::default();
    let mut k: usize = 0;
    while k < subsets.len()
        invariant
            0 <= k <= subsets.len(),
            grid == Ctx::grid(),
            forall|axis: GridSymmetryAxis| every.has(axis),
            forall|picks: Seq<bool>|
                picks.len() == every.listed().len() ==> #[trigger] holds_selection(
                    subsets@,
                    every.listed(),
                    picks,
                ),
            forall|axes: GridSymmetryAxes|
                table@.contains_key(#[trigger] axes.key_of()) ==> is_mapping(
                    grid,
                    axes,
                    table@[axes.key_of()]@,
                ),
            forall|key: Key| table@.contains_key(key) ==> #[trigger] is_axes_key(key),
            forall|t: int, axes: GridSymmetryAxes|
                0 <= t < k && (#[trigger] subsets[t])@ == #[trigger] axes.listed()
                    ==> table@.contains_key(axes.key_of()),
        decreases subsets.len() - k,
    {
        let subset = &subsets[k];
        let mut axis_set = GridSymmetryAxes::empty();
        let mut a: usize = 0;
        while a < subset.len()
            invariant
                0 <= a <= subset.len(),
                forall|axis: GridSymmetryAxis|
                    axis_set.has(axis) == (exists|t: int| 0 <= t < a && subset@[t] == axis),
            decreases subset.len() - a,
        {
            let ghost held = axis_set;
            axis_set.insert(subset[a]);
            proof {
                assert forall|axis: GridSymmetryAxis|
                    axis_set.has(axis) == (exists|t: int| 0 <= t < a + 1 && subset@[t] == axis) by {
                    if held.has(axis) {
                        let t = choose|t: int| 0 <= t < a && subset@[t] == axis;
                        assert(0 <= t < a + 1 && subset@[t] == axis);
                    }
                    if axis == subset@[a as int] {
                        assert(0 <= a < a + 1 && subset@[a as int] == axis);
                    }
                }
            }
            a += 1;
        }
        let canonical_indices = collected_mapping::<Ctx>(&axis_set);
        let ghost before = table@;
        table_insert(&mut table, axis_set.key(), canonical_indices);
        proof {
            assert(is_axes_key(axis_set.key_of()));
            assert forall|key: Key| table@.contains_key(key) implies #[trigger] is_axes_key(
                key) by {
                if key != axis_set.key_of() {
                    assert(before.contains_key(key));
                }
            }
            assert forall|axes: GridSymmetryAxes|
                table@.contains_key(#[trigger] axes.key_of()) implies is_mapping(
                grid,
                axes,
                table@[axes.key_of()]@,
            ) by {
                axes.lemma_key_injective(axis_set);
            }
            assert forall|t: int, axes: GridSymmetryAxes|
                0 <= t < k + 1 && (#[trigger] subsets[t])@ == #[trigger] axes.listed()
                    implies table@.contains_key(
                axes.key_of(),
            ) by {
                if t == k {
                    axes.lemma_listed();
                    assert forall|axis: GridSymmetryAxis| axes.has(axis) == axis_set.has(axis) by {
                        if axis_set.has(axis) {
                            let at = choose|at: int| 0 <= at < a && subset@[at] == axis;
                            assert(axes.listed().contains(axis));
                        }
                        if axes.has(axis) {
                            assert(subset@.contains(axis));
                        }
                    }
                    assert(axes.vertical == axes.has(GridSymmetryAxis::Vertical));
                    assert(axes.horizontal == axes.has(GridSymmetryAxis::Horizontal));
                    assert(axes.diagonal_top_bottom == axes.has(
                        GridSymmetryAxis::DiagonalTopBottom,
                    ));
                    assert(axes.diagonal_bottom_top == axes.has(
                        GridSymmetryAxis::DiagonalBottomTop,
                    ));
                    assert(axes == axis_set);
                } else {
                    assert(before.contains_key(axes.key_of()));
                }
            }
        }
        k += 1;
    }
    proof {
        assert forall|axes: GridSymmetryAxes|
            table@.contains_key(#[trigger] axes.key_of()) && is_mapping(
                grid,
                axes,
                table@[axes.key_of()]@,
            ) by {
            let picks = seq![
                axes.vertical,
                axes.horizontal,
                axes.diagonal_top_bottom,
                axes.diagonal_bottom_top,
            ];
            assert(every.has(GridSymmetryAxis::Vertical) && every.has(GridSymmetryAxis::Horizontal)
                && every.has(GridSymmetryAxis::DiagonalTopBottom) && every.has(
                GridSymmetryAxis::DiagonalBottomTop,
            ));
            assert(every.listed() =~= seq![
                GridSymmetryAxis::Vertical,
                GridSymmetryAxis::Horizontal,
                GridSymmetryAxis::DiagonalTopBottom,
                GridSymmetryAxis::DiagonalBottomTop,
            ]);
            lemma_selected_axes(axes);
            assert(holds_selection(subsets@, every.listed(), picks));
            let t = choose|t: int|
                0 <= t < subsets@.len() && (#[trigger] subsets@[t])@ == selected(
                    every.listed(),
                    picks,
                );
            assert(subsets[t]@ == axes.listed());
        }
    }
    table
}

/// The axes that a set of axes picks of all four are the axes of the set.
proof fn lemma_selected_axes(axes: GridSymmetryAxes)
    ensures
        selected(
            seq![
                GridSymmetryAxis::Vertical,
                GridSymmetryAxis::Horizontal,
                GridSymmetryAxis::DiagonalTopBottom,
                GridSymmetryAxis::DiagonalBottomTop,
            ],
            seq![
                axes.vertical,
                axes.horizontal,
                axes.diagonal_top_bottom,
                axes.diagonal_bottom_top,
            ],
        ) == axes.listed(),
{
    let items = seq![
        GridSymmetryAxis::Vertical,
        GridSymmetryAxis::Horizontal,
        GridSymmetryAxis::DiagonalTopBottom,
        GridSymmetryAxis::DiagonalBottomTop,
    ];
    let picks = seq![
        axes.vertical,
        axes.horizontal,
        axes.diagonal_top_bottom,
        axes.diagonal_bottom_top,
    ];
    let items3 = items.drop_last();
    let picks3 = picks.drop_last();
    let items2 = items3.drop_last();
    let picks2 = picks3.drop_last();
    let items1 = items2.drop_last();
    let picks1 = picks2.drop_last();
    assert(items1.drop_last().len() == 0);
    assert(selected(items1.drop_last(), picks1.drop_last()) =~= Seq::<GridSymmetryAxis>::empty());
    assert(selected(items1, picks1) =~= if axes.vertical {
        seq![GridSymmetryAxis::Vertical]
    } else {
        Seq::empty()
    });
    assert(selected(items2, picks2) =~= selected(items1, picks1) + (if axes.horizontal {
        seq![GridSymmetryAxis::Horizontal]
    } else {
        Seq::empty()
    }));
    assert(selected(items3, picks3) =~= selected(items2, picks2) + (if axes.diagonal_top_bottom {
        seq![GridSymmetryAxis::DiagonalTopBottom]
    } else {
        Seq::empty()
    }));
    assert(selected(items, picks) =~= selected(items3, picks3) + (if axes.diagonal_bottom_top {
        seq![GridSymmetryAxis::DiagonalBottomTop]
    } else {
        Seq::empty()
    }));
    assert(selected(items, picks) =~= axes.listed());
}

} // verus!
