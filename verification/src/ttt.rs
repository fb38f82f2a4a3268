//! Tic-tac-toe: two sides take turns to mark a cell, and three marks of one
//! side in a line win.

use crate::common::{
    axes_of, canonical_moves, default_score, default_score_spec, first_win, lemma_canonical_moves,
    lemma_canonical_shares_cell, lemma_first_win, symmetric_moves, BaseStrategy, Board, Board3x3,
    Cell, WIN_INDICES,
};
use crate::min_max::cache::NullCache;
use crate::min_max::stats::NullStats;
use crate::min_max::symmetry::{GridSymmetry3x3, GridSymmetryAxes, SymmetricMove, SymmetricMove3x3};
use crate::min_max::Player;
use vstd::array::spec_array_update;
use vstd::prelude::*;
use vstd::std_specs::cmp::PartialEqSpecImpl;
use vstd::std_specs::convert::FromSpecImpl;

verus! {

#[derive(Debug, Copy, Clone, PartialEq, Eq, Hash, Structural)]
pub enum BoardStatus {
    MaxWon,
    MinWon,
    Draw,
    Ongoing,
}

impl crate::common::BoardStatus for BoardStatus {
    open spec fn max_won(&self) -> bool {
        *self == BoardStatus::MaxWon
    }

    open spec fn min_won(&self) -> bool {
        *self == BoardStatus::MinWon
    }

    fn is_max_won(&self) -> (r: bool) {
        matches!(self, BoardStatus::MaxWon)
    }

    fn is_min_won(&self) -> (r: bool) {
        matches!(self, BoardStatus::MinWon)
    }
}

/// What a cell holds: nothing, or the mark of `Max` or of `Min`.
#[allow(non_camel_case_types)]
#[derive(Debug, Copy, Clone, Hash)]
pub enum CellState {
    EMPTY,
    X,
    O,
}

impl PartialEq for CellState {
    fn eq(&self, other: &Self) -> (r: bool) {
        self.code() == other.code()
    }
}

impl PartialEqSpecImpl for CellState {
    open spec fn obeys_eq_spec() -> bool {
        true
    }

    open spec fn eq_spec(&self, other: &Self) -> bool {
        *self == *other
    }
}

impl Eq for CellState {

}

impl Cell for CellState {
    open spec fn empty_cell() -> Self {
        CellState::EMPTY
    }

    open spec fn code_of(&self) -> nat {
        match self {
            CellState::EMPTY => 0,
            CellState::X => 1,
            CellState::O => 2,
        }
    }

    fn empty() -> (r: Self) {
        Self::EMPTY
    }

    fn code(&self) -> (r: u8) {
        match self {
            CellState::EMPTY => 0,
            CellState::X => 1,
            CellState::O => 2,
        }
    }

    proof fn lemma_eq() {
    }

    proof fn lemma_code(&self, other: &Self) {
    }
}

/// The mark of a side.
pub open spec fn mark_of(player: Player) -> CellState {
    match player {
        Player::Max => CellState::X,
        Player::Min => CellState::O,
    }
}

impl From<Player> for CellState {
    fn from(player: Player) -> (r: Self) {
        match player {
            Player::Max => CellState::X,
            Player::Min => CellState::O,
        }
    }
}

impl FromSpecImpl<Player> for CellState {
    open spec fn obeys_from_spec() -> bool {
        true
    }

    open spec fn from_spec(player: Player) -> Self {
        mark_of(player)
    }
}

pub type GameBoard = Board3x3<CellState>;

/// How a game with these cells stands: the side of the first winning line has
/// won; without such a line the game goes on while a cell is empty, and is a
/// draw when none is.
pub open spec fn status_of(cells: [CellState; 9]) -> BoardStatus {
    match first_win(cells, 0) {
        Some(i) => if cells[WIN_INDICES[i][0] as int] == CellState::X {
            BoardStatus::MaxWon
        } else {
            BoardStatus::MinWon
        },
        None => if exists|p: int| 0 <= p < 9 && cells[p] == CellState::EMPTY {
            BoardStatus::Ongoing
        } else {
            BoardStatus::Draw
        },
    }
}

impl Board for GameBoard {
    type Move = SymmetricMove<usize, GridSymmetry3x3>;

    type BoardStatus = BoardStatus;

    open spec fn mover(&self) -> Player {
        self.last_player
    }

    open spec fn standing(&self) -> BoardStatus {
        status_of(self.cells)
    }

    fn last_player(&self) -> (r: Player) {
        self.last_player
    }

    fn status(&self) -> (r: BoardStatus) {
        proof {
            lemma_first_win(self.cells, 0);
        }
        match self.winning_indices() {
            Some(indices) => match self.cells[indices[0]] {
                CellState::X => BoardStatus::MaxWon,
                _ => BoardStatus::MinWon,
            },
            None => {
                let mut any_empty = false;
                let mut p: usize = 0;
                while p < 9
                    invariant
                        0 <= p <= 9,
                        any_empty == (exists|t: int|
                            0 <= t < p && self.cells[t] == CellState::EMPTY),
                    decreases 9 - p,
                {
                    if self.cells[p] == CellState::EMPTY {
                        any_empty = true;
                    }
                    p += 1;
                }
                if any_empty {
                    BoardStatus::Ongoing
                } else {
                    BoardStatus::Draw
                }
            },
        }
    }
}

/// The order in which the cells are tried: the centre first.
pub const MOVE_ORDER: [usize; 9] = [4, 0, 1, 2, 3, 5, 6, 7, 8];

/// Which cells can be marked: the empty ones.
pub open spec fn playable(cells: [CellState; 9]) -> Seq<bool> {
    Seq::new(9, |p: int| cells[p] == CellState::EMPTY)
}

/// The cells that the moves of a state mark, in the order in which the moves
/// are searched.
pub open spec fn move_indices(cells: [CellState; 9]) -> Seq<usize> {
    canonical_moves(axes_of(cells), MOVE_ORDER@, playable(cells))
}

/// The strategy of the game. It keeps no cache.
pub type Strategy = BaseStrategy<GameBoard, NullCache>;

impl BaseStrategy<GameBoard, NullCache> {
    pub fn score_board_state(status: BoardStatus, player: Player) -> (r: i32)
        ensures
            r == default_score_spec(status, player),
    {
        default_score(status, player)
    }
}

impl Default for BaseStrategy<GameBoard, NullCache> {
    fn default() -> (r: Self)
        ensures
            r.cache_view() == NullCache,
    {
        Self::new(NullCache)
    }
}

/// A move marks a cell that is on the board and empty.
pub proof fn lemma_move_marks_empty(cells: [CellState; 9], index: usize)
    requires
        move_indices(cells).contains(index),
    ensures
        index < 9,
        cells[index as int] == CellState::EMPTY,
{
    lemma_canonical_moves(axes_of(cells), MOVE_ORDER@, playable(cells), index);
    let k = choose|k: int|
        0 <= k < MOVE_ORDER@.len() && (#[trigger] MOVE_ORDER@[k]) < 9 && playable(
            cells,
        )[MOVE_ORDER@[k] as int] && index == canonical_of_board(cells, MOVE_ORDER@[k]);
    lemma_canonical_shares_cell(cells, MOVE_ORDER@[k]);
}

/// The representative of a position on a board with these cells.
pub open spec fn canonical_of_board(cells: [CellState; 9], index: usize) -> usize {
    crate::min_max::symmetry::canonical_of(crate::common::board_grid(), axes_of(cells), index)
}

impl crate::min_max::Strategy for BaseStrategy<GameBoard, NullCache> {
    type State = GameBoard;

    type Move = SymmetricMove3x3;

    type Cache = NullCache;

    type Stats = NullStats;

    open spec fn valid(state: &GameBoard) -> bool {
        true
    }

    open spec fn moves(state: &GameBoard) -> Seq<(usize, GridSymmetryAxes)> {
        move_indices(state.cells).map_values(|index: usize| (index, axes_of(state.cells)))
    }

    /// A cell of the board can be marked while it is empty.
    open spec fn accepts(state: &GameBoard, mv: (usize, GridSymmetryAxes)) -> bool {
        mv.0 < 9 && state.cells[mv.0 as int] == CellState::EMPTY
    }

    open spec fn apply(state: &GameBoard, mv: (usize, GridSymmetryAxes), player: Player)
        -> GameBoard {
        Board3x3 {
            cells: spec_array_update(state.cells, mv.0 as int, mark_of(player)),
            last_player: player,
        }
    }

    open spec fn value(state: &GameBoard, player: Player) -> int {
        default_score_spec(status_of(state.cells), player)
    }

    /// The game is never cached, so that nothing is asked of its states.
    open spec fn ranked() -> bool {
        false
    }

    open spec fn ply(state: &GameBoard) -> nat {
        0
    }

    open spec fn mover(state: &GameBoard) -> Player {
        state.last_player
    }

    open spec fn held_cache(&self) -> NullCache {
        self.cache_view()
    }

    open spec fn held_stats(&self) -> NullStats {
        self.stats_view()
    }

    proof fn lemma_apply(state: &GameBoard, i: int, player: Player) {
        let index = move_indices(state.cells)[i];
        assert(move_indices(state.cells).contains(index));
        lemma_move_marks_empty(state.cells, index);
    }

    proof fn lemma_value(state: &GameBoard, player: Player) {
    }

    fn possible_moves(state: &GameBoard) -> (r: Vec<SymmetricMove3x3>) {
        let symmetry = state.symmetry();
        let cells = state.cells;
        let mut open = [false; 9];
        let mut p: usize = 0;
        while p < 9
            invariant
                0 <= p <= 9,
                cells == state.cells,
                forall|t: int| 0 <= t < p ==> (#[trigger] open[t]) == (cells[t]
                    == CellState::EMPTY),
            decreases 9 - p,
        {
            open[p] = cells[p] == CellState::EMPTY;
            p += 1;
        }
        proof {
            assert(open@ =~= playable(state.cells));
        }
        symmetric_moves(symmetry, &MOVE_ORDER, &open)
    }

    fn do_move(&mut self, state: &GameBoard, mv: &SymmetricMove3x3, player: Player) -> (
        r: GameBoard) {
        let index = mv.0;
        let mut new_state = *state;
        new_state.cells[index] = CellState::from(player);
        new_state.last_player = player;
        proof {
            assert(new_state.cells =~= spec_array_update(state.cells, index as int, mark_of(
                player)));
        }
        new_state
    }

    fn score(&mut self, state: &GameBoard, player: Player) -> (r: i32) {
        default_score(state.status(), player)
    }

    fn cache(&mut self) -> (r: &mut NullCache) {
        BaseStrategy::cache(self)
    }

    fn stats(&mut self) -> (r: &mut NullStats) {
        BaseStrategy::stats(self)
    }
}

} // verus!
