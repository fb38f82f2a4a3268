//! Mirror symmetries of a square grid: which positions of a board stand for
//! one another, and which one stands for its class.

pub mod classes;
pub mod mapping;

pub use crate::min_max::symmetry::classes::{
    canonical_of, connected, expand_along, expand_index_spec, expand_spec, is_canonical, is_mapping,
    lemma_canonical_exists, lemma_canonical_idempotent,
    lemma_canonical_unique, lemma_canonical_without_axes, lemma_class_induction,
    lemma_connected_reflexive, lemma_connected_symmetric, lemma_connected_transitive,
    lemma_expand_index, lemma_expansion_holds_index, lemma_expansion_on_grid, lemma_link,
    lemma_paired_symmetric, lemma_reaches_longer, lemma_reaches_step, lemma_reaches_symmetric,
    lemma_reaches_transitive, linked, paired, partner_in, partner_of, reaches, Grid,
};
pub use crate::min_max::symmetry::mapping::{
    agrees_on, canonicalization_mapping, closed, expands_to, generate_axis_to_canonical_indices,
    holds_selection, in_class, is_axes_key, is_labelling, is_mapping_table, is_settled, selected,
    IndexSet, MappingTable,
};
use crate::min_max::cache::{table_get, Key};
use std::marker::PhantomData;
use vstd::prelude::*;
use vstd::std_specs::cmp::PartialEqSpec;
use vstd::std_specs::cmp::PartialEqSpecImpl;
use vstd::std_specs::convert::FromSpecImpl;
use vstd::std_specs::ops::BitOrSpecImpl;

verus! {

/// A way to tell which values stand for one another.
pub trait Symmetry<T> {
    /// The values that have a representative.
    spec fn covers(&self, target: &T) -> bool;

    /// The representative of the class of `target`.
    spec fn canonical(&self, target: &T) -> T;

    /// What a representative expands to.
    spec fn expansion(&self, normalised: &T) -> Seq<T>;

    fn canonicalize(&self, target: &T) -> (r: T)
        requires
            self.covers(target),
        ensures
            r == self.canonical(target),
    ;

    fn expand(&self, normalised: &T) -> (r: Vec<T>)
        ensures
            r@ == self.expansion(normalised),
    ;
}

/// A move that stands for every move that mirrors it: the representative, and
/// the symmetry of the state that it was made for.
#[derive(Debug, Clone, PartialEq, Eq)]
pub struct SymmetricMove<I, S: Symmetry<I>>(pub I, pub S);

impl<I, S: Symmetry<I>> SymmetricMove<I, S> {
    /// The representative.
    pub fn index(&self) -> (r: &I)
        ensures
            *r == self.0,
    {
        &self.0
    }

    /// Every move that the representative stands for.
    pub fn expanded_indices(&self) -> (r: Vec<I>)
        ensures
            r@ == self.1.expansion(&self.0),
    {
        self.1.expand(&self.0)
    }
}

impl<I: View, S: Symmetry<I> + View> View for SymmetricMove<I, S> {
    type V = (I::V, S::V);

    open spec fn view(&self) -> (I::V, S::V) {
        (self.0@, self.1@)
    }
}

/// A line that a square grid can be mirrored at.
#[derive(Debug, Copy, Clone, PartialEq, Eq, Hash, Structural)]
pub enum GridSymmetryAxis {
    Vertical,
    Horizontal,
    DiagonalTopBottom,
    DiagonalBottomTop,
}

impl GridSymmetryAxis {
    /// The pairs of positions of the grid of three by three that mirror each
    /// other at the axis.
    pub fn symmetric_indices_3x3(&self) -> (r: [(usize, usize); 3])
        ensures
            r@ == GridSymmetryAxisContext3x3::grid().pairs(*self),
    {
        match self {
            GridSymmetryAxis::Vertical => VERTICAL_PAIRS,
            GridSymmetryAxis::Horizontal => HORIZONTAL_PAIRS,
            GridSymmetryAxis::DiagonalTopBottom => DIAGONAL_TOP_BOTTOM_PAIRS,
            GridSymmetryAxis::DiagonalBottomTop => DIAGONAL_BOTTOM_TOP_PAIRS,
        }
    }
}

/// A set of axes.
#[derive(Debug, Copy, Clone, PartialEq, Eq, Hash, Structural)]
pub struct GridSymmetryAxes {
    pub vertical: bool,
    pub horizontal: bool,
    pub diagonal_top_bottom: bool,
    pub diagonal_bottom_top: bool,
}

impl GridSymmetryAxes {
    /// Whether `axis` is in the set.
    pub open spec fn has(self, axis: GridSymmetryAxis) -> bool {
        match axis {
            GridSymmetryAxis::Vertical => self.vertical,
            GridSymmetryAxis::Horizontal => self.horizontal,
            GridSymmetryAxis::DiagonalTopBottom => self.diagonal_top_bottom,
            GridSymmetryAxis::DiagonalBottomTop => self.diagonal_bottom_top,
        }
    }

    /// The axes of the set, in the order in which the axes are declared.
    pub open spec fn listed(self) -> Seq<GridSymmetryAxis> {
        (if self.vertical {
            seq![GridSymmetryAxis::Vertical]
        } else {
            Seq::empty()
        }) + (if self.horizontal {
            seq![GridSymmetryAxis::Horizontal]
        } else {
            Seq::empty()
        }) + (if self.diagonal_top_bottom {
            seq![GridSymmetryAxis::DiagonalTopBottom]
        } else {
            Seq::empty()
        }) + (if self.diagonal_bottom_top {
            seq![GridSymmetryAxis::DiagonalBottomTop]
        } else {
            Seq::empty()
        })
    }

    /// The set without an axis.
    pub fn empty() -> (r: Self)
        ensures
            forall|axis: GridSymmetryAxis| !r.has(axis),
    {
        GridSymmetryAxes {
            vertical: false,
            horizontal: false,
            diagonal_top_bottom: false,
            diagonal_bottom_top: false,
        }
    }

    /// The set of all four axes.
    pub fn all() -> (r: Self)
        ensures
            forall|axis: GridSymmetryAxis| r.has(axis),
    {
        GridSymmetryAxes {
            vertical: true,
            horizontal: true,
            diagonal_top_bottom: true,
            diagonal_bottom_top: true,
        }
    }

    /// The set that holds `axis` and nothing else.
    pub fn only(axis: GridSymmetryAxis) -> (r: Self)
        ensures
            forall|other: GridSymmetryAxis| r.has(other) == (other == axis),
    {
        let mut r = Self::empty();
        r.insert(axis);
        r
    }

    pub fn contains(&self, axis: GridSymmetryAxis) -> (r: bool)
        ensures
            r == self.has(axis),
    {
        match axis {
            GridSymmetryAxis::Vertical => self.vertical,
            GridSymmetryAxis::Horizontal => self.horizontal,
            GridSymmetryAxis::DiagonalTopBottom => self.diagonal_top_bottom,
            GridSymmetryAxis::DiagonalBottomTop => self.diagonal_bottom_top,
        }
    }

    pub fn insert(&mut self, axis: GridSymmetryAxis)
        ensures
            forall|other: GridSymmetryAxis|
                final(self).has(other) == (other == axis || old(self).has(other)),
    {
        match axis {
            GridSymmetryAxis::Vertical => {
                self.vertical = true;
            },
            GridSymmetryAxis::Horizontal => {
                self.horizontal = true;
            },
            GridSymmetryAxis::DiagonalTopBottom => {
                self.diagonal_top_bottom = true;
            },
            GridSymmetryAxis::DiagonalBottomTop => {
                self.diagonal_bottom_top = true;
            },
        }
    }

    /// The axes of either set.
    pub fn union(self, other: Self) -> (r: Self)
        ensures
            forall|axis: GridSymmetryAxis| r.has(axis) == (self.has(axis) || other.has(axis)),
    {
        GridSymmetryAxes {
            vertical: self.vertical || other.vertical,
            horizontal: self.horizontal || other.horizontal,
            diagonal_top_bottom: self.diagonal_top_bottom || other.diagonal_top_bottom,
            diagonal_bottom_top: self.diagonal_bottom_top || other.diagonal_bottom_top,
        }
    }

    pub fn is_empty(&self) -> (r: bool)
        ensures
            r == (forall|axis: GridSymmetryAxis| !self.has(axis)),
    {
        let r = !self.vertical && !self.horizontal && !self.diagonal_top_bottom
            && !self.diagonal_bottom_top;
        proof {
            if !r {
                assert(self.has(GridSymmetryAxis::Vertical) || self.has(
                    GridSymmetryAxis::Horizontal)
                    || self.has(GridSymmetryAxis::DiagonalTopBottom) || self.has(
                    GridSymmetryAxis::DiagonalBottomTop,
                ));
            }
        }
        r
    }

    /// The axes of the set, in the order in which the axes are declared.
    pub fn to_vec(&self) -> (r: Vec<GridSymmetryAxis>)
        ensures
            r@ == self.listed(),
            forall|axis: GridSymmetryAxis| r@.contains(axis) == self.has(axis),
    {
        let mut r: Vec<GridSymmetryAxis> = Vec::new();
        if self.vertical {
            r.push(GridSymmetryAxis::Vertical);
        }
        if self.horizontal {
            r.push(GridSymmetryAxis::Horizontal);
        }
        if self.diagonal_top_bottom {
            r.push(GridSymmetryAxis::DiagonalTopBottom);
        }
        if self.diagonal_bottom_top {
            r.push(GridSymmetryAxis::DiagonalBottomTop);
        }
        proof {
            assert(r@ =~= self.listed());
            self.lemma_listed();
        }
        r
    }

    /// The number under which a table files the set: one bit for each axis.
    pub open spec fn key_of(self) -> Key {
        (
            ((if self.vertical {
                1int
            } else {
                0int
            }) + (if self.horizontal {
                2int
            } else {
                0int
            }) + (if self.diagonal_top_bottom {
                4int
            } else {
                0int
            }) + (if self.diagonal_bottom_top {
                8int
            } else {
                0int
            })) as u128,
            0u128,
        )
    }

    pub fn key(&self) -> (r: Key)
        ensures
            r == self.key_of(),
    {
        let mut bits: u128 = 0;
        if self.vertical {
            bits += 1;
        }
        if self.horizontal {
            bits += 2;
        }
        if self.diagonal_top_bottom {
            bits += 4;
        }
        if self.diagonal_bottom_top {
            bits += 8;
        }
        (bits, 0)
    }

    /// Sets with one key are one set.
    pub proof fn lemma_key_injective(self, other: Self)
        ensures
            self.key_of() == other.key_of() ==> self == other,
    {
    }

    /// The list holds the axes of the set and no others.
    pub proof fn lemma_listed(self)
        ensures
            forall|axis: GridSymmetryAxis| self.listed().contains(axis) == self.has(axis),
    {
        let l = self.listed();
        assert forall|axis: GridSymmetryAxis| l.contains(axis) == self.has(axis) by {
            if self.has(axis) {
                let before_v: int = 0;
                let before_h: int = if self.vertical { 1 } else { 0 };
                let before_t: int = before_h + if self.horizontal { 1int } else { 0int };
                let before_b: int = before_t + if self.diagonal_top_bottom { 1int } else { 0int };
                let at = match axis {
                    GridSymmetryAxis::Vertical => before_v,
                    GridSymmetryAxis::Horizontal => before_h,
                    GridSymmetryAxis::DiagonalTopBottom => before_t,
                    GridSymmetryAxis::DiagonalBottomTop => before_b,
                };
                assert(l[at] == axis);
            }
        }
    }
}

/// The grid that the axes mirror.
pub trait GridSymmetryAxisContext: Sized {
    /// The layout of the grid.
    spec fn grid() -> Grid;

    proof fn lemma_grid()
        ensures
            Self::grid().well_formed(),
    ;

    /// The number of positions of the grid.
    fn size() -> (r: usize)
        ensures
            r == Self::grid().positions,
    ;

    /// The pairs of positions that mirror each other at `axis`.
    fn symmetric_indices(axis: GridSymmetryAxis) -> (r: &'static [(usize, usize)])
        ensures
            r@ == Self::grid().pairs(axis),
    ;

    /// `index`, and after it each position that `axis` pairs it with.
    fn expand_index(axis: GridSymmetryAxis, index: usize) -> (r: Vec<usize>)
        ensures
            r@ == expand_index_spec(Self::grid().pairs(axis), index),
    {
        let pairs = Self::symmetric_indices(axis);
        let mut result: Vec<usize> = Vec::new();
        result.push(index);
        let mut k: usize = 0;
        while k < pairs.len()
            invariant
                0 <= k <= pairs.len(),
                result@ == seq![index] + pairs@.take(k as int).filter_map(partner_of(index)),
            decreases pairs.len() - k,
        {
            let (first, second) = pairs[k];
            proof {
                pairs@.lemma_filter_map_take_succ(partner_of(index), k as int);
            }
            if index == first {
                result.push(second);
            } else if index == second {
                result.push(first);
            }
            k += 1;
        }
        proof {
            assert(pairs@.take(pairs.len() as int) =~= pairs@);
        }
        result
    }
}

/// What names axes: an axis, or a set of them.
pub trait IntoAxes: Sized {
    /// The axes that the value names.
    spec fn named(self) -> GridSymmetryAxes;

    fn into_axes(self) -> (r: GridSymmetryAxes)
        ensures
            r == self.named(),
    ;
}

impl IntoAxes for GridSymmetryAxes {
    open spec fn named(self) -> GridSymmetryAxes {
        self
    }

    fn into_axes(self) -> (r: GridSymmetryAxes) {
        self
    }
}

impl IntoAxes for GridSymmetryAxis {
    open spec fn named(self) -> GridSymmetryAxes {
        GridSymmetryAxes {
            vertical: self == GridSymmetryAxis::Vertical,
            horizontal: self == GridSymmetryAxis::Horizontal,
            diagonal_top_bottom: self == GridSymmetryAxis::DiagonalTopBottom,
            diagonal_bottom_top: self == GridSymmetryAxis::DiagonalBottomTop,
        }
    }

    fn into_axes(self) -> (r: GridSymmetryAxes) {
        GridSymmetryAxes::from(self)
    }
}

impl From<GridSymmetryAxis> for GridSymmetryAxes {
    fn from(axis: GridSymmetryAxis) -> (r: Self) {
        let r = GridSymmetryAxes::only(axis);
        assert(r.has(GridSymmetryAxis::Vertical) == (axis == GridSymmetryAxis::Vertical));
        assert(r.has(GridSymmetryAxis::Horizontal) == (axis == GridSymmetryAxis::Horizontal));
        assert(r.has(GridSymmetryAxis::DiagonalTopBottom) == (axis
            == GridSymmetryAxis::DiagonalTopBottom));
        assert(r.has(GridSymmetryAxis::DiagonalBottomTop) == (axis
            == GridSymmetryAxis::DiagonalBottomTop));
        r
    }
}

impl FromSpecImpl<GridSymmetryAxis> for GridSymmetryAxes {
    open spec fn obeys_from_spec() -> bool {
        true
    }

    open spec fn from_spec(axis: GridSymmetryAxis) -> Self {
        GridSymmetryAxes {
            vertical: axis == GridSymmetryAxis::Vertical,
            horizontal: axis == GridSymmetryAxis::Horizontal,
            diagonal_top_bottom: axis == GridSymmetryAxis::DiagonalTopBottom,
            diagonal_bottom_top: axis == GridSymmetryAxis::DiagonalBottomTop,
        }
    }
}

impl core::ops::BitOr for GridSymmetryAxis {
    type Output = GridSymmetryAxes;

    /// The set of the two axes.
    fn bitor(self, other: GridSymmetryAxis) -> (r: GridSymmetryAxes) {
        let r = GridSymmetryAxes::from(self).union(GridSymmetryAxes::from(other));
        assert(r.has(GridSymmetryAxis::Vertical) == (self == GridSymmetryAxis::Vertical || other
            == GridSymmetryAxis::Vertical));
        assert(r.has(GridSymmetryAxis::Horizontal) == (self == GridSymmetryAxis::Horizontal
            || other == GridSymmetryAxis::Horizontal));
        assert(r.has(GridSymmetryAxis::DiagonalTopBottom) == (self
            == GridSymmetryAxis::DiagonalTopBottom || other
            == GridSymmetryAxis::DiagonalTopBottom));
        assert(r.has(GridSymmetryAxis::DiagonalBottomTop) == (self
            == GridSymmetryAxis::DiagonalBottomTop || other
            == GridSymmetryAxis::DiagonalBottomTop));
        r
    }
}

impl BitOrSpecImpl for GridSymmetryAxis {
    open spec fn obeys_bitor_spec() -> bool {
        true
    }

    open spec fn bitor_req(self, other: GridSymmetryAxis) -> bool {
        true
    }

    open spec fn bitor_spec(self, other: GridSymmetryAxis) -> GridSymmetryAxes {
        GridSymmetryAxes {
            vertical: self == GridSymmetryAxis::Vertical || other == GridSymmetryAxis::Vertical,
            horizontal: self == GridSymmetryAxis::Horizontal || other
                == GridSymmetryAxis::Horizontal,
            diagonal_top_bottom: self == GridSymmetryAxis::DiagonalTopBottom || other
                == GridSymmetryAxis::DiagonalTopBottom,
            diagonal_bottom_top: self == GridSymmetryAxis::DiagonalBottomTop || other
                == GridSymmetryAxis::DiagonalBottomTop,
        }
    }
}

/// The positions that mirror each other left and right.
pub const VERTICAL_PAIRS: [(usize, usize); 3] = [(0, 2), (3, 5), (6, 8)];

/// The positions that mirror each other top and bottom.
pub const HORIZONTAL_PAIRS: [(usize, usize); 3] = [(0, 6), (1, 7), (2, 8)];

/// The positions that mirror each other at the diagonal from the top left.
pub const DIAGONAL_TOP_BOTTOM_PAIRS: [(usize, usize); 3] = [(1, 3), (2, 6), (5, 7)];

/// The positions that mirror each other at the diagonal from the bottom left.
pub const DIAGONAL_BOTTOM_TOP_PAIRS: [(usize, usize); 3] = [(0, 8), (1, 5), (3, 7)];

/// The grid of three by three positions, numbered row by row.
#[derive(Debug)]
pub struct GridSymmetryAxisContext3x3;

impl GridSymmetryAxisContext for GridSymmetryAxisContext3x3 {
    open spec fn grid() -> Grid {
        Grid {
            positions: 9,
            vertical: VERTICAL_PAIRS@,
            horizontal: HORIZONTAL_PAIRS@,
            diagonal_top_bottom: DIAGONAL_TOP_BOTTOM_PAIRS@,
            diagonal_bottom_top: DIAGONAL_BOTTOM_TOP_PAIRS@,
        }
    }

    proof fn lemma_grid() {
    }

    fn size() -> (r: usize) {
        9
    }

    fn symmetric_indices(axis: GridSymmetryAxis) -> (r: &'static [(usize, usize)]) {
        let r: &'static [(usize, usize)] = match axis {
            GridSymmetryAxis::Vertical => &VERTICAL_PAIRS,
            GridSymmetryAxis::Horizontal => &HORIZONTAL_PAIRS,
            GridSymmetryAxis::DiagonalTopBottom => &DIAGONAL_TOP_BOTTOM_PAIRS,
            GridSymmetryAxis::DiagonalBottomTop => &DIAGONAL_BOTTOM_TOP_PAIRS,
        };
        assert(r@ =~= Self::grid().pairs(axis));
        r
    }

}

/// The positions of the large grid that mirror each other left and right.
pub const VERTICAL_PAIRS_9X9: [(usize, usize); 36] = [
    (0, 8), (1, 7), (2, 6), (3, 5), (9, 17), (10, 16), (11, 15), (12, 14), (18, 26), (19, 25),
    (20, 24), (21, 23), (27, 35), (28, 34), (29, 33), (30, 32), (36, 44), (37, 43), (38, 42),
    (39, 41), (45, 53), (46, 52), (47, 51), (48, 50), (54, 62), (55, 61), (56, 60), (57, 59),
    (63, 71), (64, 70), (65, 69), (66, 68), (72, 80), (73, 79), (74, 78), (75, 77),
];

/// The positions of the large grid that mirror each other top and bottom.
pub const HORIZONTAL_PAIRS_9X9: [(usize, usize); 36] = [
    (0, 72), (1, 73), (2, 74), (3, 75), (4, 76), (5, 77), (6, 78), (7, 79), (8, 80), (9, 63),
    (10, 64), (11, 65), (12, 66), (13, 67), (14, 68), (15, 69), (16, 70), (17, 71), (18, 54),
    (19, 55), (20, 56), (21, 57), (22, 58), (23, 59), (24, 60), (25, 61), (26, 62), (27, 45),
    (28, 46), (29, 47), (30, 48), (31, 49), (32, 50), (33, 51), (34, 52), (35, 53),
];

/// The positions of the large grid that mirror each other at the diagonal from the
/// top left.
pub const DIAGONAL_TOP_BOTTOM_PAIRS_9X9: [(usize, usize); 36] = [
    (1, 9), (2, 18), (3, 27), (4, 36), (5, 45), (6, 54), (7, 63), (8, 72), (11, 19), (12, 28),
    (13, 37), (14, 46), (15, 55), (16, 64), (17, 73), (21, 29), (22, 38), (23, 47), (24, 56),
    (25, 65), (26, 74), (31, 39), (32, 48), (33, 57), (34, 66), (35, 75), (41, 49), (42, 58),
    (43, 67), (44, 76), (51, 59), (52, 68), (53, 77), (61, 69), (62, 78), (71, 79),
];

/// The positions of the large grid that mirror each other at the diagonal from the
/// bottom left.
pub const DIAGONAL_BOTTOM_TOP_PAIRS_9X9: [(usize, usize); 36] = [
    (0, 80), (1, 71), (2, 62), (3, 53), (4, 44), (5, 35), (6, 26), (7, 17), (9, 79), (10, 70),
    (11, 61), (12, 52), (13, 43), (14, 34), (15, 25), (18, 78), (19, 69), (20, 60), (21, 51),
    (22, 42), (23, 33), (27, 77), (28, 68), (29, 59), (30, 50), (31, 41), (36, 76), (37, 67),
    (38, 58), (39, 49), (45, 75), (46, 66), (47, 57), (54, 74), (55, 65), (63, 73),
];

/// The grid of nine by nine positions, numbered row by row: the cells of nine
/// boards of three by three that lie in a grid of three by three.
#[derive(Debug)]
pub struct GridSymmetryAxisContext9x9;

impl GridSymmetryAxisContext for GridSymmetryAxisContext9x9 {
    open spec fn grid() -> Grid {
        Grid {
            positions: 81,
            vertical: VERTICAL_PAIRS_9X9@,
            horizontal: HORIZONTAL_PAIRS_9X9@,
            diagonal_top_bottom: DIAGONAL_TOP_BOTTOM_PAIRS_9X9@,
            diagonal_bottom_top: DIAGONAL_BOTTOM_TOP_PAIRS_9X9@,
        }
    }

    proof fn lemma_grid() {
    }

    fn size() -> (r: usize) {
        81
    }

    fn symmetric_indices(axis: GridSymmetryAxis) -> (r: &'static [(usize, usize)]) {
        let r: &'static [(usize, usize)] = match axis {
            GridSymmetryAxis::Vertical => &VERTICAL_PAIRS_9X9,
            GridSymmetryAxis::Horizontal => &HORIZONTAL_PAIRS_9X9,
            GridSymmetryAxis::DiagonalTopBottom => &DIAGONAL_TOP_BOTTOM_PAIRS_9X9,
            GridSymmetryAxis::DiagonalBottomTop => &DIAGONAL_BOTTOM_TOP_PAIRS_9X9,
        };
        assert(r@ =~= Self::grid().pairs(axis));
        r
    }
}

/// The symmetry of a state of the grid: the axes that the state mirrors at,
/// and for each position the least position of its class.
#[derive(Debug)]
pub struct GridSymmetry<Ctx: GridSymmetryAxisContext> {
    axes: GridSymmetryAxes,
    canonical_index: Vec<usize>,
    ctx: PhantomData<Ctx>,
}

impl<Ctx: GridSymmetryAxisContext> View for GridSymmetry<Ctx> {
    type V = GridSymmetryAxes;

    closed spec fn view(&self) -> GridSymmetryAxes {
        self.axes
    }
}

impl<Ctx: GridSymmetryAxisContext> Clone for GridSymmetry<Ctx> {
    fn clone(&self) -> (r: Self)
        ensures
            r@ == self@,
    {
        proof {
            use_type_invariant(self);
        }
        let canonical_index = self.canonical_index.clone();
        assert(canonical_index@ =~= self.canonical_index@);
        Self { axes: self.axes, canonical_index, ctx: PhantomData }
    }
}

impl<Ctx: GridSymmetryAxisContext> PartialEq for GridSymmetry<Ctx> {
    fn eq(&self, other: &Self) -> (r: bool) {
        self.axes == other.axes
    }
}

impl<Ctx: GridSymmetryAxisContext> PartialEqSpecImpl for GridSymmetry<Ctx> {
    open spec fn obeys_eq_spec() -> bool {
        true
    }

    open spec fn eq_spec(&self, other: &Self) -> bool {
        self@ == other@
    }
}

impl<Ctx: GridSymmetryAxisContext> Eq for GridSymmetry<Ctx> {

}

impl<Ctx: GridSymmetryAxisContext> GridSymmetry<Ctx> {
    #[verifier::type_invariant]
    closed spec fn holds_mapping(self) -> bool {
        is_mapping(Ctx::grid(), self.axes, self.canonical_index@)
    }

    /// The symmetry with the axes that `axes` names: one axis, or a set of
    /// axes.
    pub fn new<A: IntoAxes>(axes: A) -> (r: Self)
        ensures
            r@ == axes.named(),
    {
        Self::with_axes(axes.into_axes())
    }

    /// The symmetry with the axes of `axes`.
    pub fn with_axes(axes: GridSymmetryAxes) -> (r: Self)
        ensures
            r@ == axes,
    {
        let canonical_index = canonicalization_mapping::<Ctx>(&axes);
        Self { axes, canonical_index, ctx: PhantomData }
    }

    /// The symmetry with the axes of `axes`, its mapping looked up in a
    /// table of the mappings of all sets of axes.
    pub fn with_table(table: &MappingTable, axes: GridSymmetryAxes) -> (r: Self)
        requires
            is_mapping_table(Ctx::grid(), table@),
        ensures
            r@ == axes,
    {
        let found = table_get(table, axes.key());
        proof {
            assert(table@.contains_key(axes.key_of()));
        }
        match found {
            Some(mapping) => {
                let canonical_index = mapping.clone();
                assert(canonical_index@ =~= mapping@);
                Self { axes, canonical_index, ctx: PhantomData }
            },
            None => Self::with_axes(axes),
        }
    }

    /// The symmetry without an axis.
    pub fn none() -> (r: Self)
        ensures
            forall|axis: GridSymmetryAxis| !r@.has(axis),
    {
        Self::with_axes(GridSymmetryAxes::empty())
    }

    /// The axes of the symmetry.
    pub fn axes(&self) -> (r: GridSymmetryAxes)
        ensures
            r == self@,
    {
        self.axes
    }
}

impl<Ctx: GridSymmetryAxisContext> Symmetry<usize> for GridSymmetry<Ctx> {
    open spec fn covers(&self, target: &usize) -> bool {
        *target < Ctx::grid().positions
    }

    open spec fn canonical(&self, target: &usize) -> usize {
        canonical_of(Ctx::grid(), self@, *target)
    }

    open spec fn expansion(&self, normalised: &usize) -> Seq<usize> {
        expand_spec(Ctx::grid(), self@, *normalised)
    }

    /// The least position that mirrorings at the active axes lead to from
    /// `target`.
    fn canonicalize(&self, target: &usize) -> (r: usize)
        ensures
            is_canonical(Ctx::grid(), self@, *target, r),
    {
        proof {
            use_type_invariant(self);
        }
        let r = self.canonical_index[*target];
        assert(is_canonical(Ctx::grid(), self@, *target as usize,
            self.canonical_index@[*target as int]));
        r
    }

    /// At each active axis `normalised` and the positions that the axis
    /// mirrors it to, and `normalised` alone where no axis is active.
    fn expand(&self, normalised: &usize) -> (r: Vec<usize>)
        ensures
            r@.contains(*normalised),
    {
        let ghost grid = Ctx::grid();
        let active = self.axes.to_vec();
        let mut result: Vec<usize> = Vec::new();
        if active.len() == 0 {
            result.push(*normalised);
            proof {
                assert(result@ =~= seq![*normalised]);
                lemma_expansion_holds_index(grid, self@, *normalised);
            }
            return result;
        }
        let mut a: usize = 0;
        while a < active.len()
            invariant
                0 <= a <= active.len(),
                grid == Ctx::grid(),
                result@ == expand_along(grid, active@.take(a as int), *normalised),
            decreases active.len() - a,
        {
            let mut part = Ctx::expand_index(active[a], *normalised);
            proof {
                assert(active@.take(a + 1).drop_last() =~= active@.take(a as int));
                assert(active@.take(a + 1).last() == active@[a as int]);
            }
            result.append(&mut part);
            a += 1;
        }
        proof {
            assert(active@.take(active.len() as int) =~= active@);
            lemma_expansion_holds_index(grid, self@, *normalised);
        }
        result
    }
}

/// The symmetry of a board of three by three cells.
pub type GridSymmetry3x3 = GridSymmetry<GridSymmetryAxisContext3x3>;

/// A move on a board of three by three cells.
pub type SymmetricMove3x3 = SymmetricMove<usize, GridSymmetry3x3>;

/// The symmetry of a grid of nine by nine cells.
pub type GridSymmetry9x9 = GridSymmetry<GridSymmetryAxisContext9x9>;

/// Whether the cells at the two ends of each pair are equal.
pub open spec fn mirrored<C: PartialEq>(cells: Seq<C>, pairs: Seq<(usize, usize)>) -> bool {
    forall|k: int|
        0 <= k < pairs.len() ==> cells[(#[trigger] pairs[k]).0 as int].eq_spec(
            &cells[pairs[k].1 as int],
        )
}

/// The position that a mirroring takes `p` to: the other end of the pair
/// that `p` is an end of, and `p` itself where it is an end of none.
pub open spec fn image(pairs: Seq<(usize, usize)>, p: usize) -> usize
    decreases pairs.len(),
{
    if pairs.len() == 0 {
        p
    } else if pairs[0].0 == p {
        pairs[0].1
    } else if pairs[0].1 == p {
        pairs[0].0
    } else {
        image(pairs.drop_first(), p)
    }
}

/// Whether `b` is `a` mirrored: each cell of `a` equals the cell of `b` at
/// the position that the mirroring takes its position to.
pub open spec fn mirrored_onto<C: PartialEq>(
    a: Seq<C>,
    b: Seq<C>,
    pairs: Seq<(usize, usize)>,
) -> bool {
    forall|p: int|
        0 <= p < a.len() ==> (#[trigger] a[p]).eq_spec(&b[image(pairs, p as usize) as int])
}

/// A mirroring takes a position of the grid to a position of the grid.
pub proof fn lemma_image_on_grid(pairs: Seq<(usize, usize)>, p: usize, positions: nat)
    requires
        p < positions,
        forall|k: int|
            0 <= k < pairs.len() ==> (#[trigger] pairs[k]).0 < positions && pairs[k].1
                < positions,
    ensures
        image(pairs, p) < positions,
    decreases pairs.len(),
{
    if pairs.len() > 0 && pairs[0].0 != p && pairs[0].1 != p {
        assert forall|k: int| 0 <= k < pairs.drop_first().len() implies (
        #[trigger] pairs.drop_first()[k]).0 < positions && pairs.drop_first()[k].1 < positions by {
            assert(pairs.drop_first()[k] == pairs[k + 1]);
        }
        lemma_image_on_grid(pairs.drop_first(), p, positions);
    }
}

/// The position that the mirroring of `pairs` takes `p` to.
pub fn image_of(pairs: &[(usize, usize)], p: usize) -> (r: usize)
    ensures
        r == image(pairs@, p),
{
    let mut k: usize = 0;
    proof {
        assert(pairs@.skip(0) =~= pairs@);
    }
    while k < pairs.len()
        invariant
            0 <= k <= pairs.len(),
            image(pairs@, p) == image(pairs@.skip(k as int), p),
        decreases pairs.len() - k,
    {
        let (first, second) = pairs[k];
        proof {
            assert(pairs@.skip(k as int)[0] == pairs@[k as int]);
            assert(pairs@.skip(k as int).drop_first() =~= pairs@.skip(k + 1));
        }
        if first == p {
            return second;
        }
        if second == p {
            return first;
        }
        k += 1;
    }
    proof {
        assert(pairs@.skip(pairs.len() as int).len() == 0);
    }
    p
}

/// Whether each cell of `a` equals the cell of `b` at the same position.
pub open spec fn cellwise<C: PartialEq>(a: Seq<C>, b: Seq<C>) -> bool {
    forall|p: int| 0 <= p < a.len() ==> (#[trigger] a[p]).eq_spec(&b[p])
}

/// Whether two boards count as the same: they are equal cell by cell, or
/// one is the other mirrored at one axis. Of two mirrorings in a row nothing
/// is seen.
pub open spec fn is_same_spec<C: PartialEq>(a: Seq<C>, b: Seq<C>) -> bool {
    cellwise(a, b) || exists|axis: GridSymmetryAxis|
        mirrored_onto(a, b, #[trigger] GridSymmetryAxisContext3x3::grid().pairs(axis))
}

impl GridSymmetry<GridSymmetryAxisContext3x3> {
    /// The symmetry of a board: an axis is active where the cells at the two
    /// ends of each of its pairs are equal.
    pub fn from<C: PartialEq>(cells: &[C; 9]) -> (r: Self)
        ensures
            C::obeys_eq_spec() ==> forall|axis: GridSymmetryAxis|
                r@.has(axis) == mirrored(
                    cells@,
                    #[trigger] GridSymmetryAxisContext3x3::grid().pairs(axis),
                ),
    {
        let ghost grid = GridSymmetryAxisContext3x3::grid();
        let every = GridSymmetryAxes::all();
        let all = every.to_vec();
        let mut axes = GridSymmetryAxes::empty();
        let mut a: usize = 0;
        proof {
            GridSymmetryAxisContext3x3::lemma_grid();
            assert forall|axis: GridSymmetryAxis| all@.contains(axis) by {
                assert(every.has(axis));
            }
        }
        while a < all.len()
            invariant
                0 <= a <= all.len(),
                grid == GridSymmetryAxisContext3x3::grid(),
                grid.well_formed(),
                forall|axis: GridSymmetryAxis| all@.contains(axis),
                forall|axis: GridSymmetryAxis|
                    axes.has(axis) ==> exists|t: int| 0 <= t < a && all@[t] == axis,
                C::obeys_eq_spec() ==> forall|t: int|
                    0 <= t < a ==> axes.has(#[trigger] all@[t]) == mirrored(
                        cells@,
                        grid.pairs(all@[t]),
                    ),
            decreases all.len() - a,
        {
            let axis = all[a];
            let pairs = GridSymmetryAxisContext3x3::symmetric_indices(axis);
            let mut matches = true;
            let mut k: usize = 0;
            while matches && k < pairs.len()
                invariant
                    0 <= k <= pairs.len(),
                    pairs@ == grid.pairs(axis),
                    grid.positions == 9,
                    grid.well_formed(),
                    C::obeys_eq_spec() && matches ==> mirrored(cells@, pairs@.take(k as int)),
                    C::obeys_eq_spec() && !matches ==> !mirrored(cells@, pairs@),
                decreases pairs.len() - k, (if matches { 1nat } else { 0nat }),
            {
                let (first, second) = pairs[k];
                proof {
                    assert(grid.pairs(axis)[k as int] == (first, second));
                }
                let equal = cells[first] == cells[second];
                proof {
                    let before = pairs@.take(k as int);
                    let after = pairs@.take(k + 1);
                    if C::obeys_eq_spec() {
                        if !equal && mirrored(cells@, pairs@) {
                            assert(pairs@[k as int] == (first, second));
                        }
                        if mirrored(cells@, before) && equal {
                            assert forall|t: int| 0 <= t < after.len() implies cells@[(
                            #[trigger] after[t]).0 as int].eq_spec(&cells@[after[t].1 as int]) by {
                                if t < k {
                                    assert(after[t] == before[t]);
                                }
                            }
                        }
                    }
                }
                if !equal {
                    matches = false;
                }
                k += 1;
            }
            proof {
                assert(pairs@.take(pairs.len() as int) =~= pairs@);
            }
            let ghost held = axes;
            if matches {
                axes.insert(axis);
            }
            proof {
                assert forall|other: GridSymmetryAxis| axes.has(other) implies exists|t: int|
                    0 <= t < a + 1 && all@[t] == other by {
                    if held.has(other) {
                        let t = choose|t: int| 0 <= t < a && all@[t] == other;
                        assert(0 <= t < a + 1 && all@[t] == other);
                    } else {
                        assert(all@[a as int] == other);
                    }
                }
                if C::obeys_eq_spec() {
                    assert forall|t: int| 0 <= t < a + 1 implies axes.has(#[trigger] all@[t])
                        == mirrored(cells@, grid.pairs(all@[t])) by {
                        if t < a && all@[t] == axis {
                            assert(held.has(all@[t]) == mirrored(cells@, grid.pairs(all@[t])));
                        }
                    }
                }
            }
            a += 1;
        }
        proof {
            if C::obeys_eq_spec() {
                assert forall|axis: GridSymmetryAxis|
                    axes.has(axis) == mirrored(cells@, #[trigger] grid.pairs(axis)) by {
                    assert(all@.contains(axis));
                    let t = choose|t: int| 0 <= t < all@.len() && all@[t] == axis;
                    assert(axes.has(all@[t]) == mirrored(cells@, grid.pairs(all@[t])));
                }
            }
        }
        Self::with_axes(axes)
    }

    /// Whether two boards are the same: equal cell by cell, or the second
    /// is the first mirrored at one of the four axes, all nine cells held
    /// against each other. Of two mirrorings in a row nothing is seen.
    pub fn is_same<C: PartialEq + Clone>(cells1: &[C; 9], cells2: &[C; 9]) -> (r: bool)
        ensures
            C::obeys_eq_spec() ==> r == is_same_spec(cells1@, cells2@),
    {
        let ghost grid = GridSymmetryAxisContext3x3::grid();
        proof {
            GridSymmetryAxisContext3x3::lemma_grid();
        }
        let mut equal = true;
        let mut p: usize = 0;
        while equal && p < 9
            invariant
                0 <= p <= 9,
                C::obeys_eq_spec() && equal ==> (forall|t: int|
                    0 <= t < p ==> (#[trigger] cells1@[t]).eq_spec(&cells2@[t])),
                C::obeys_eq_spec() && !equal ==> !cellwise(cells1@, cells2@),
            decreases 9 - p, (if equal { 1nat } else { 0nat }),
        {
            if !(cells1[p] == cells2[p]) {
                equal = false;
            }
            p += 1;
        }
        if equal {
            return true;
        }
        let every = GridSymmetryAxes::all();
        let all = every.to_vec();
        let mut a: usize = 0;
        proof {
            assert forall|axis: GridSymmetryAxis| all@.contains(axis) by {
                assert(every.has(axis));
            }
        }
        while a < all.len()
            invariant
                0 <= a <= all.len(),
                grid == GridSymmetryAxisContext3x3::grid(),
                grid.well_formed(),
                forall|axis: GridSymmetryAxis| all@.contains(axis),
                C::obeys_eq_spec() ==> !cellwise(cells1@, cells2@),
                C::obeys_eq_spec() ==> forall|t: int|
                    0 <= t < a ==> !mirrored_onto(cells1@, cells2@, grid.pairs(#[trigger] all@[t])),
            decreases all.len() - a,
        {
            let axis = all[a];
            let pairs = GridSymmetryAxisContext3x3::symmetric_indices(axis);
            let mut matches = true;
            let mut p: usize = 0;
            while matches && p < 9
                invariant
                    0 <= p <= 9,
                    pairs@ == grid.pairs(axis),
                    grid.positions == 9,
                    grid.well_formed(),
                    C::obeys_eq_spec() && matches ==> forall|t: int|
                        0 <= t < p ==> (#[trigger] cells1@[t]).eq_spec(
                            &cells2@[image(pairs@, t as usize) as int],
                        ),
                    C::obeys_eq_spec() && !matches ==> !mirrored_onto(cells1@, cells2@, pairs@),
                decreases 9 - p, (if matches { 1nat } else { 0nat }),
            {
                let q = image_of(pairs, p);
                proof {
                    lemma_image_on_grid(pairs@, p, 9);
                }
                if !(cells1[p] == cells2[q]) {
                    matches = false;
                }
                p += 1;
            }
            if matches {
                return true;
            }
            a += 1;
        }
        proof {
            if C::obeys_eq_spec() {
                assert forall|axis: GridSymmetryAxis|
                    !mirrored_onto(cells1@, cells2@, #[trigger] grid.pairs(axis)) by {
                    assert(all@.contains(axis));
                    let t = choose|t: int| 0 <= t < all@.len() && all@[t] == axis;
                    assert(!mirrored_onto(cells1@, cells2@, grid.pairs(all@[t])));
                }
            }
        }
        false
    }
}

} // verus!
