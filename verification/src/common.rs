//! What the games on a board of three by three cells share.

use crate::min_max::cache::{Cache, CacheKey, Key};
use crate::min_max::stats::NullStats;
use crate::min_max::symmetry::{
    canonical_of, connected, lemma_canonical_exists, lemma_class_induction,
    lemma_connected_reflexive, lemma_link, linked, mirrored, Grid, GridSymmetry3x3,
    GridSymmetryAxes, GridSymmetryAxis, GridSymmetryAxisContext, GridSymmetryAxisContext3x3,
    SymmetricMove, SymmetricMove3x3, Symmetry,
};
use crate::min_max::Player;
use std::hash::Hash;
use std::marker::PhantomData;
use vstd::prelude::*;
use vstd::std_specs::cmp::PartialEqSpec;

verus! {

/// How a game stands.
pub trait BoardStatus {
    spec fn max_won(&self) -> bool;

    spec fn min_won(&self) -> bool;

    fn is_max_won(&self) -> (r: bool)
        ensures
            r == self.max_won(),
    ;

    fn is_min_won(&self) -> (r: bool)
        ensures
            r == self.min_won(),
    ;
}

/// What a cell of a board can hold.
pub trait Cell: Copy + Eq + Hash {
    /// The cell that nothing has been played on.
    spec fn empty_cell() -> Self;

    /// A number below four that tells what the cell holds.
    spec fn code_of(&self) -> nat;

    fn empty() -> (r: Self)
        ensures
            r == Self::empty_cell(),
    ;

    fn code(&self) -> (r: u8)
        ensures
            r == self.code_of(),
    ;

    /// `==` tells whether two cells hold the same.
    proof fn lemma_eq()
        ensures
            Self::obeys_eq_spec(),
            forall|a: Self, b: Self| #[trigger] a.eq_spec(&b) == (a == b),
    ;

    /// The code is below four, and cells with one code hold the same.
    proof fn lemma_code(&self, other: &Self)
        ensures
            self.code_of() < 4,
            self.code_of() == other.code_of() ==> *self == *other,
    ;
}

/// A state of a game.
pub trait Board: Clone + Eq + Hash {
    type Move;

    type BoardStatus: BoardStatus;

    /// Who moved last.
    spec fn mover(&self) -> Player;

    /// How the game stands.
    spec fn standing(&self) -> Self::BoardStatus;

    fn last_player(&self) -> (r: Player)
        ensures
            r == self.mover(),
    ;

    fn status(&self) -> (r: Self::BoardStatus)
        ensures
            r == self.standing(),
    ;
}

/// The lines of three cells that win a game, in the order in which they are
/// looked at.
pub const WIN_INDICES: [[usize; 3]; 8] = [
    [0, 1, 2],
    [3, 4, 5],
    [6, 7, 8],
    [0, 3, 6],
    [1, 4, 7],
    [2, 5, 8],
    [0, 4, 8],
    [2, 4, 6],
];

/// A board of three by three cells, numbered row by row, and who moved last.
#[derive(Debug, Copy, Clone, PartialEq, Eq, Hash)]
pub struct Board3x3<C: Cell> {
    pub cells: [C; 9],
    pub last_player: Player,
}

/// Whether the three cells of `line` hold the same and are not empty.
pub open spec fn line_wins<C: Cell>(cells: [C; 9], line: [usize; 3]) -> bool {
    &&& line[0] < 9 && line[1] < 9 && line[2] < 9
    &&& cells[line[0] as int] != C::empty_cell()
    &&& cells[line[0] as int] == cells[line[1] as int]
    &&& cells[line[1] as int] == cells[line[2] as int]
}

/// The place in `WIN_INDICES` of the first line from `from` on that wins.
pub open spec fn first_win<C: Cell>(cells: [C; 9], from: int) -> Option<int>
    decreases 8 - from,
{
    if from < 0 || from >= 8 {
        None
    } else if line_wins(cells, WIN_INDICES[from]) {
        Some(from)
    } else {
        first_win(cells, from + 1)
    }
}

/// The line that `first_win` finds wins, and no line before it does.
pub proof fn lemma_first_win<C: Cell>(cells: [C; 9], from: int)
    requires
        0 <= from,
    ensures
        match first_win(cells, from) {
            Some(i) => from <= i < 8 && line_wins(cells, WIN_INDICES[i]) && forall|j: int|
                from <= j < i ==> !line_wins(cells, #[trigger] WIN_INDICES[j]),
            None => forall|j: int| from <= j < 8 ==> !line_wins(cells, #[trigger] WIN_INDICES[j]),
        },
    decreases 8 - from,
{
    if from < 8 && !line_wins(cells, WIN_INDICES[from]) {
        lemma_first_win(cells, from + 1);
    }
}

/// The axes at which `cells` mirror: an axis is active where the cells at the
/// two ends of each of its pairs are equal.
pub open spec fn axes_of<C: Cell>(cells: [C; 9]) -> GridSymmetryAxes {
    let grid = GridSymmetryAxisContext3x3::grid();
    GridSymmetryAxes {
        vertical: mirrored(cells@, grid.pairs(GridSymmetryAxis::Vertical)),
        horizontal: mirrored(cells@, grid.pairs(GridSymmetryAxis::Horizontal)),
        diagonal_top_bottom: mirrored(cells@, grid.pairs(GridSymmetryAxis::DiagonalTopBottom)),
        diagonal_bottom_top: mirrored(cells@, grid.pairs(GridSymmetryAxis::DiagonalBottomTop)),
    }
}

impl<C: Cell> Board3x3<C> {
    /// The board that nothing has been played on. `Max` counts as the last
    /// mover.
    pub fn empty() -> (r: Self)
        ensures
            forall|i: int| 0 <= i < 9 ==> r.cells[i] == C::empty_cell(),
            r.last_player == Player::Max,
    {
        Self::new([C::empty(); 9], Player::Max)
    }

    pub fn new(cells: [C; 9], last_player: Player) -> (r: Self)
        ensures
            r.cells == cells,
            r.last_player == last_player,
    {
        Self { cells, last_player }
    }

    /// The symmetry of the board.
    pub fn symmetry(&self) -> (r: GridSymmetry3x3)
        ensures
            r@ == axes_of(self.cells),
    {
        proof {
            C::lemma_eq();
        }
        let r = GridSymmetry3x3::from(&self.cells);
        proof {
            let grid = GridSymmetryAxisContext3x3::grid();
            assert(r@.has(GridSymmetryAxis::Vertical) == mirrored(
                self.cells@,
                grid.pairs(GridSymmetryAxis::Vertical),
            ));
            assert(r@.has(GridSymmetryAxis::Horizontal) == mirrored(
                self.cells@,
                grid.pairs(GridSymmetryAxis::Horizontal),
            ));
            assert(r@.has(GridSymmetryAxis::DiagonalTopBottom) == mirrored(
                self.cells@,
                grid.pairs(GridSymmetryAxis::DiagonalTopBottom),
            ));
            assert(r@.has(GridSymmetryAxis::DiagonalBottomTop) == mirrored(
                self.cells@,
                grid.pairs(GridSymmetryAxis::DiagonalBottomTop),
            ));
        }
        r
    }

    /// The first line, in the order of `WIN_INDICES`, whose three cells hold
    /// the same and are not empty.
    pub fn winning_indices(&self) -> (r: Option<&[usize; 3]>)
        ensures
            match first_win(self.cells, 0) {
                Some(i) => r == Some(&WIN_INDICES[i]),
                None => r is None,
            },
    {
        proof {
            C::lemma_eq();
        }
        let mut i: usize = 0;
        while i < 8
            invariant
                0 <= i <= 8,
                C::obeys_eq_spec(),
                forall|a: C, b: C| #[trigger] a.eq_spec(&b) == (a == b),
                first_win(self.cells, 0) == first_win(self.cells, i as int),
            decreases 8 - i,
        {
            let line = &WIN_INDICES[i];
            if self.cells[line[0]] != C::empty() && self.cells[line[0]] == self.cells[line[1]]
                && self.cells[line[1]] == self.cells[line[2]] {
                return Some(line);
            }
            i += 1;
        }
        None
    }
}

/// The usual worth of a state: one for the side that has won, minus one for
/// the side that has lost, nothing while nobody has.
pub open spec fn default_score_spec<S: BoardStatus>(status: S, player: Player) -> int {
    if status.max_won() {
        if player == Player::Max {
            1
        } else {
            -1
        }
    } else if status.min_won() {
        if player == Player::Min {
            1
        } else {
            -1
        }
    } else {
        0
    }
}

pub fn default_score<S: BoardStatus>(status: S, player: Player) -> (r: i32)
    ensures
        r == default_score_spec(status, player),
{
    if status.is_max_won() {
        if player == Player::Max {
            1
        } else {
            -1
        }
    } else if status.is_min_won() {
        if player == Player::Min {
            1
        } else {
            -1
        }
    } else {
        0
    }
}

/// What a state is worth to one side it costs the other.
pub proof fn lemma_default_score_negates<S: BoardStatus>(status: S)
    ensures
        default_score_spec(status, Player::Max) == -default_score_spec(status, Player::Min),
{
}

/// The parts that the strategies of the games share: a cache and counters.
pub struct BaseStrategy<B: Board, CACHE: Cache<B>> {
    cache: CACHE,
    stats: NullStats,
    phantom: PhantomData<B>,
}

impl<B: Board, CACHE: Cache<B>> BaseStrategy<B, CACHE> {
    /// The cache of the strategy.
    pub closed spec fn cache_view(&self) -> CACHE {
        self.cache
    }

    /// The counters of the strategy.
    pub closed spec fn stats_view(&self) -> NullStats {
        self.stats
    }

    pub fn new(cache: CACHE) -> (r: Self)
        ensures
            r.cache_view() == cache,
    {
        Self { cache, phantom: PhantomData, stats: NullStats }
    }

    pub fn cache(&mut self) -> (r: &mut CACHE)
        ensures
            *r == old(self).cache_view(),
            final(self).cache_view() == *final(r),
            final(self).stats_view() == old(self).stats_view(),
    {
        &mut self.cache
    }

    pub fn stats(&mut self) -> (r: &mut NullStats)
        ensures
            *r == old(self).stats_view(),
            final(self).stats_view() == *final(r),
            final(self).cache_view() == old(self).cache_view(),
    {
        &mut self.stats
    }
}

/// The grid of the board.
pub open spec fn board_grid() -> Grid {
    GridSymmetryAxisContext3x3::grid()
}

/// On a board the positions of one class hold the same, where the axes are
/// those at which the board mirrors.
pub proof fn lemma_class_shares_cell<C: Cell>(cells: [C; 9], i: usize, j: usize)
    requires
        i < 9,
        connected(board_grid(), axes_of(cells), i, j),
    ensures
        j < 9,
        cells[i as int] == cells[j as int],
{
    let grid = board_grid();
    let axes = axes_of(cells);
    let alike = |x: usize| x < 9 && cells[x as int] == cells[i as int];
    assert forall|a: usize, b: usize| alike(a) && #[trigger] linked(grid, axes, a, b) implies alike(
        b,
    ) by {
        let (axis, k) = lemma_link(grid, axes, a, b);
        GridSymmetryAxisContext3x3::lemma_grid();
        C::lemma_eq();
        assert(mirrored(cells@, grid.pairs(axis)));
        let pair = grid.pairs(axis)[k];
        assert(cells@[pair.0 as int].eq_spec(&cells@[pair.1 as int]));
    }
    lemma_class_induction(grid, axes, i, j, alike);
}

/// The moves that stand for all the moves on a board: going through the
/// positions in `order`, the representative of each position that can be
/// played, unless a position before it had the same representative.
pub open spec fn canonical_moves(axes: GridSymmetryAxes, order: Seq<usize>, playable: Seq<bool>)
    -> Seq<
    usize,
>
    decreases order.len(),
{
    if order.len() == 0 {
        Seq::empty()
    } else {
        let rest = canonical_moves(axes, order.drop_last(), playable);
        let index = order.last();
        let canonical = canonical_of(board_grid(), axes, index);
        if index < 9 && playable[index as int] && !rest.contains(canonical) {
            rest.push(canonical)
        } else {
            rest
        }
    }
}

/// Each of the moves is the representative of a position of the order that
/// can be played.
pub proof fn lemma_canonical_moves(
    axes: GridSymmetryAxes,
    order: Seq<usize>,
    playable: Seq<bool>,
    canonical: usize,
)
    requires
        canonical_moves(axes, order, playable).contains(canonical),
    ensures
        exists|k: int|
            0 <= k < order.len() && (#[trigger] order[k]) < 9 && playable[order[k] as int]
                && canonical == canonical_of(board_grid(), axes, order[k]),
    decreases order.len(),
{
    if order.len() > 0 {
        let rest = canonical_moves(axes, order.drop_last(), playable);
        if rest.contains(canonical) {
            lemma_canonical_moves(axes, order.drop_last(), playable, canonical);
            let k = choose|k: int|
                0 <= k < order.drop_last().len() && (#[trigger] order.drop_last()[k]) < 9
                    && playable[order.drop_last()[k] as int] && canonical == canonical_of(
                    board_grid(),
                    axes,
                    order.drop_last()[k],
                );
            assert(order[k] == order.drop_last()[k]);
        } else {
            let all = canonical_moves(axes, order, playable);
            let at = choose|at: int| 0 <= at < all.len() && all[at] == canonical;
            if at < rest.len() {
                assert(rest[at] == canonical);
            }
            assert(order[order.len() - 1] == order.last());
        }
    }
}

/// On a board a move that stands for a position that can be played lies on
/// the board and holds what that position holds.
pub proof fn lemma_canonical_shares_cell<C: Cell>(cells: [C; 9], index: usize)
    requires
        index < 9,
    ensures
        canonical_of(board_grid(), axes_of(cells), index) < 9,
        cells[canonical_of(board_grid(), axes_of(cells), index) as int] == cells[index as int],
{
    lemma_connected_reflexive(board_grid(), axes_of(cells), index);
    lemma_canonical_exists(board_grid(), axes_of(cells), index, index);
    lemma_class_shares_cell(cells, index, canonical_of(board_grid(), axes_of(cells), index));
}

/// The moves that stand for all the moves on a board with the symmetry
/// `symmetry`: see `canonical_moves`.
pub fn symmetric_moves(symmetry: GridSymmetry3x3, order: &[usize; 9], playable: &[bool; 9]) -> (
    r: Vec<
    SymmetricMove3x3,
>)
    ensures
        r.len() == canonical_moves(symmetry@, order@, playable@).len(),
        forall|i: int|
            0 <= i < r.len() ==> (#[trigger] r[i])@ == (
                canonical_moves(symmetry@, order@, playable@)[i],
                symmetry@,
            ),
{
    let mut covered_index = [false, false, false, false, false, false, false, false, false];
    let mut moves: Vec<SymmetricMove3x3> = Vec::new();
    let mut k: usize = 0;
    let ghost axes = symmetry@;
    proof {
        assert(order@.take(0).len() == 0);
    }
    while k < 9
        invariant
            0 <= k <= 9,
            axes == symmetry@,
            moves.len() == canonical_moves(axes, order@.take(k as int), playable@).len(),
            forall|i: int|
                0 <= i < moves.len() ==> (#[trigger] moves[i])@ == (
                    canonical_moves(axes, order@.take(k as int), playable@)[i],
                    axes,
                ),
            forall|p: int|
                0 <= p < 9 ==> (#[trigger] covered_index[p]) == canonical_moves(
                    axes,
                    order@.take(k as int),
                    playable@,
                ).contains(p as usize),
        decreases 9 - k,
    {
        let index = order[k];
        let ghost before = canonical_moves(axes, order@.take(k as int), playable@);
        proof {
            assert(order@.take(k + 1).drop_last() =~= order@.take(k as int));
            assert(order@.take(k + 1).last() == index);
        }
        if index < 9 && playable[index] {
            let normalised = symmetry.canonicalize(&index);
            proof {
                lemma_connected_reflexive(board_grid(), axes, index);
                lemma_canonical_exists(board_grid(), axes, index, index);
            }
            if !covered_index[normalised] {
                covered_index[normalised] = true;
                moves.push(SymmetricMove(normalised, symmetry.clone()));
                proof {
                    let after = canonical_moves(axes, order@.take(k + 1), playable@);
                    assert(after == before.push(normalised));
                    assert forall|p: int| 0 <= p < 9 implies (#[trigger] covered_index[p])
                        == after.contains(p as usize) by {
                        if p == normalised {
                            assert(after[before.len() as int] == normalised);
                        } else if before.contains(p as usize) {
                            let at = choose|at: int| 0 <= at < before.len() && before[at]
                                == p as usize;
                            assert(after[at] == p as usize);
                        } else if after.contains(p as usize) {
                            let at = choose|at: int| 0 <= at < after.len() && after[at]
                                == p as usize;
                            assert(before[at] == p as usize);
                        }
                    }
                }
            }
        }
        k += 1;
    }
    proof {
        assert(order@.take(9) =~= order@);
    }
    moves
}

/// The codes of the cells from `from` on as one number, four to each place:
/// the first code counts least.
pub open spec fn pack<C: Cell>(cells: [C; 9], from: int) -> nat
    decreases 9 - from,
{
    if from < 0 || from >= 9 {
        0
    } else {
        cells[from].code_of() + 4 * pack(cells, from + 1)
    }
}

/// Four to the power of `n`.
pub open spec fn pow4(n: nat) -> nat
    decreases n,
{
    if n == 0 {
        1
    } else {
        4 * pow4((n - 1) as nat)
    }
}

/// The packed codes stay below four to the number of cells packed.
pub proof fn lemma_pack_bound<C: Cell>(cells: [C; 9], from: int)
    requires
        0 <= from <= 9,
    ensures
        pack(cells, from) < pow4((9 - from) as nat),
    decreases 9 - from,
{
    if from < 9 {
        lemma_pack_bound(cells, from + 1);
        cells[from].lemma_code(&cells[from]);
    }
}

/// Boards that pack to one number hold the same from `from` on.
pub proof fn lemma_pack_injective<C: Cell>(a: [C; 9], b: [C; 9], from: int)
    requires
        0 <= from <= 9,
        pack(a, from) == pack(b, from),
    ensures
        forall|p: int| from <= p < 9 ==> a[p] == b[p],
    decreases 9 - from,
{
    if from < 9 {
        a[from].lemma_code(&b[from]);
        b[from].lemma_code(&a[from]);
        let x = a[from].code_of();
        let y = b[from].code_of();
        let m = pack(a, from + 1);
        let n = pack(b, from + 1);
        assert(x == y && m == n) by (nonlinear_arith)
            requires
                x + 4 * m == y + 4 * n,
                x < 4,
                y < 4,
        ;
        lemma_pack_injective(a, b, from + 1);
    }
}

/// The codes of the cells as one number: see `pack`.
pub fn pack_cells<C: Cell>(cells: &[C; 9]) -> (r: u128)
    ensures
        r == pack(*cells, 0),
        r < 262144,
{
    let mut packed: u128 = 0;
    let mut i: usize = 9;
    proof {
        assert(pow4(9) == 262144) by {
            reveal_with_fuel(pow4, 10);
        }
        assert(pow4(0) == 1);
    }
    while i > 0
        invariant
            0 <= i <= 9,
            packed == pack(*cells, i as int),
            packed < pow4((9 - i) as nat),
            pow4(9) == 262144,
        decreases i,
    {
        i -= 1;
        let code = cells[i].code();
        proof {
            cells[i as int].lemma_code(&cells[i as int]);
            lemma_pack_bound(*cells, i as int);
            lemma_pow4_grows((9 - i) as nat, 9);
            lemma_pow4_grows((9 - i - 1) as nat, 9);
        }
        packed = packed * 4 + code as u128;
    }
    packed
}

/// One for `Max`, nothing for `Min`.
pub open spec fn player_bit(player: Player) -> nat {
    match player {
        Player::Max => 1,
        Player::Min => 0,
    }
}

impl<C: Cell> CacheKey for Board3x3<C> {
    /// Twice the packed cells, and one more where `Max` moved last.
    open spec fn key_of(&self) -> Key {
        ((2 * pack(self.cells, 0) + player_bit(self.last_player)) as u128, 0u128)
    }

    fn cache_key(&self) -> (k: Key) {
        let packed = pack_cells(&self.cells);
        let bit: u128 = match self.last_player {
            Player::Max => 1,
            Player::Min => 0,
        };
        (2 * packed + bit, 0)
    }

    proof fn lemma_key_injective(&self, other: &Self) {
        lemma_pack_bound(self.cells, 0);
        lemma_pack_bound(other.cells, 0);
        assert(pow4(9) == 262144) by {
            reveal_with_fuel(pow4, 10);
        }
        if self.key_of() == other.key_of() {
            lemma_pack_injective(self.cells, other.cells, 0);
            assert(self.cells =~= other.cells);
        }
    }
}

/// A higher power of four is no smaller.
pub proof fn lemma_pow4_grows(m: nat, n: nat)
    requires
        m <= n,
    ensures
        pow4(m) <= pow4(n),
    decreases n,
{
    if m < n {
        lemma_pow4_grows(m, (n - 1) as nat);
    }
}

} // verus!
