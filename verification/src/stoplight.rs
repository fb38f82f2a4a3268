//! A game of lights: every move turns a cell one colour on, from empty over
//! green and yellow to red, and a red cell cannot be played. Three cells of
//! one colour in a line end the game, and whoever made the last move has won.

use crate::common::{
    axes_of, board_grid, canonical_moves, default_score, default_score_spec, first_win,
    lemma_canonical_moves, lemma_canonical_shares_cell, symmetric_moves, BaseStrategy, Board,
    Board3x3, Cell,
};
use crate::min_max::cache::Cache;
use crate::min_max::stats::NullStats;
use crate::min_max::symmetry::{canonical_of, GridSymmetryAxes, SymmetricMove3x3, Symmetry};
use crate::min_max::{with_score, Player, ScoredMove};
use rand::seq::SliceRandom;
use vstd::array::spec_array_update;
use vstd::prelude::*;
use vstd::std_specs::cmp::PartialEqSpecImpl;

verus! {

/// The colour of a cell.
#[allow(non_camel_case_types)]
#[derive(Debug, Copy, Clone, Hash)]
pub enum CellState {
    EMPTY,
    GREEN,
    YELLOW,
    RED,
}

impl PartialEq for CellState {
    fn eq(&self, other: &Self) -> (r: bool) {
        self.code() == other.code()
    }
}

impl PartialEqSpecImpl for CellState {
    open spec fn obeys_eq_spec() -> bool {
        true
    }

    open spec fn eq_spec(&self, other: &Self) -> bool {
        *self == *other
    }
}

impl Eq for CellState {

}

impl Cell for CellState {
    open spec fn empty_cell() -> Self {
        CellState::EMPTY
    }

    /// How often the cell has been played.
    open spec fn code_of(&self) -> nat {
        match self {
            CellState::EMPTY => 0,
            CellState::GREEN => 1,
            CellState::YELLOW => 2,
            CellState::RED => 3,
        }
    }

    fn empty() -> (r: Self) {
        Self::EMPTY
    }

    fn code(&self) -> (r: u8) {
        match self {
            CellState::EMPTY => 0,
            CellState::GREEN => 1,
            CellState::YELLOW => 2,
            CellState::RED => 3,
        }
    }

    proof fn lemma_eq() {
    }

    proof fn lemma_code(&self, other: &Self) {
    }
}

#[derive(Debug, Copy, Clone, PartialEq, Eq, Hash, Structural)]
pub enum BoardStatus {
    MaxWon,
    MinWon,
    Ongoing,
}

impl crate::common::BoardStatus for BoardStatus {
    open spec fn max_won(&self) -> bool {
        *self == BoardStatus::MaxWon
    }

    open spec fn min_won(&self) -> bool {
        *self == BoardStatus::MinWon
    }

    fn is_max_won(&self) -> (r: bool) {
        matches!(self, BoardStatus::MaxWon)
    }

    fn is_min_won(&self) -> (r: bool) {
        matches!(self, BoardStatus::MinWon)
    }
}

pub type GameBoard = Board3x3<CellState>;

pub type Cells = [CellState; 9];

/// How a game stands: once a line of three cells of one colour is there, the
/// side that moved last has won.
pub open spec fn status_of(board: GameBoard) -> BoardStatus {
    match first_win(board.cells, 0) {
        None => BoardStatus::Ongoing,
        Some(_) => match board.last_player {
            Player::Min => BoardStatus::MinWon,
            Player::Max => BoardStatus::MaxWon,
        },
    }
}

impl Board for GameBoard {
    type Move = SymmetricMove3x3;

    type BoardStatus = BoardStatus;

    open spec fn mover(&self) -> Player {
        self.last_player
    }

    open spec fn standing(&self) -> BoardStatus {
        status_of(*self)
    }

    fn last_player(&self) -> (r: Player) {
        self.last_player
    }

    fn status(&self) -> (r: BoardStatus) {
        match self.winning_indices() {
            None => BoardStatus::Ongoing,
            Some(_indices) => match self.last_player {
                Player::Min => BoardStatus::MinWon,
                Player::Max => BoardStatus::MaxWon,
            },
        }
    }
}

/// The colour after `cell`. Red stays red.
pub open spec fn turned_on(cell: CellState) -> CellState {
    match cell {
        CellState::EMPTY => CellState::GREEN,
        CellState::GREEN => CellState::YELLOW,
        CellState::YELLOW => CellState::RED,
        CellState::RED => CellState::RED,
    }
}

/// The order in which the cells are tried.
pub const MOVE_ORDER: [usize; 9] = [0, 1, 2, 3, 4, 5, 6, 7, 8];

/// Which cells can be played: all but the red ones.
pub open spec fn playable(cells: Cells) -> Seq<bool> {
    Seq::new(9, |p: int| cells[p] != CellState::RED)
}

/// The cells that the moves of a state play, in the order in which the moves
/// are searched.
pub open spec fn move_indices(cells: Cells) -> Seq<usize> {
    canonical_moves(axes_of(cells), MOVE_ORDER@, playable(cells))
}

/// How often the cells from `from` on have been played.
pub open spec fn plays(cells: Cells, from: int) -> nat
    decreases 9 - from,
{
    if from < 0 || from >= 9 {
        0
    } else {
        cells[from].code_of() + plays(cells, from + 1)
    }
}

/// To play a cell that is not red is one play more.
pub proof fn lemma_plays_after_move(cells: Cells, index: int, from: int)
    requires
        0 <= from <= 9,
        0 <= index < 9,
        cells[index] != CellState::RED,
    ensures
        plays(spec_array_update(cells, index, turned_on(cells[index])), from) == plays(cells, from)
            + if from <= index {
            1nat
        } else {
            0nat
        },
    decreases 9 - from,
{
    if from < 9 {
        lemma_plays_after_move(cells, index, from + 1);
    }
}

/// A move plays a cell that is on the board and not red.
pub proof fn lemma_move_plays_open(cells: Cells, index: usize)
    requires
        move_indices(cells).contains(index),
    ensures
        index < 9,
        cells[index as int] != CellState::RED,
{
    lemma_canonical_moves(axes_of(cells), MOVE_ORDER@, playable(cells), index);
    let k = choose|k: int|
        0 <= k < MOVE_ORDER@.len() && (#[trigger] MOVE_ORDER@[k]) < 9 && playable(
            cells,
        )[MOVE_ORDER@[k] as int] && index == canonical_of(
            board_grid(),
            axes_of(cells),
            MOVE_ORDER@[k],
        );
    lemma_canonical_shares_cell(cells, MOVE_ORDER@[k]);
}

/// The strategy of the game, with the cache of one's choice.
pub type Strategy<CACHE> = BaseStrategy<GameBoard, CACHE>;

impl<CACHE: Cache<GameBoard>> crate::min_max::Strategy for BaseStrategy<GameBoard, CACHE> {
    type State = GameBoard;

    type Move = SymmetricMove3x3;

    type Cache = CACHE;

    type Stats = NullStats;

    open spec fn valid(state: &GameBoard) -> bool {
        true
    }

    open spec fn moves(state: &GameBoard) -> Seq<(usize, GridSymmetryAxes)> {
        move_indices(state.cells).map_values(|index: usize| (index, axes_of(state.cells)))
    }

    /// A cell of the board can be played until it is red.
    open spec fn accepts(state: &GameBoard, mv: (usize, GridSymmetryAxes)) -> bool {
        mv.0 < 9 && state.cells[mv.0 as int] != CellState::RED
    }

    open spec fn apply(state: &GameBoard, mv: (usize, GridSymmetryAxes), player: Player)
        -> GameBoard {
        Board3x3 {
            cells: spec_array_update(
                state.cells,
                mv.0 as int,
                turned_on(state.cells[mv.0 as int]),
            ),
            last_player: player,
        }
    }

    open spec fn value(state: &GameBoard, player: Player) -> int {
        default_score_spec(status_of(*state), player)
    }

    /// Every move is one play more, and the state tells who made it.
    open spec fn ranked() -> bool {
        true
    }

    open spec fn ply(state: &GameBoard) -> nat {
        plays(state.cells, 0)
    }

    open spec fn mover(state: &GameBoard) -> Player {
        state.last_player
    }

    open spec fn held_cache(&self) -> CACHE {
        self.cache_view()
    }

    open spec fn held_stats(&self) -> NullStats {
        self.stats_view()
    }

    proof fn lemma_apply(state: &GameBoard, i: int, player: Player) {
        let index = move_indices(state.cells)[i];
        assert(move_indices(state.cells).contains(index));
        lemma_move_plays_open(state.cells, index);
        lemma_plays_after_move(state.cells, index as int, 0);
    }

    proof fn lemma_value(state: &GameBoard, player: Player) {
    }

    fn possible_moves(state: &GameBoard) -> (r: Vec<SymmetricMove3x3>) {
        let symmetry = state.symmetry();
        let cells = state.cells;
        let mut open = [false; 9];
        let mut p: usize = 0;
        while p < 9
            invariant
                0 <= p <= 9,
                cells == state.cells,
                forall|t: int| 0 <= t < p ==> (#[trigger] open[t]) == (cells[t] != CellState::RED),
            decreases 9 - p,
        {
            open[p] = cells[p] != CellState::RED;
            p += 1;
        }
        proof {
            assert(open@ =~= playable(state.cells));
        }
        symmetric_moves(symmetry, &MOVE_ORDER, &open)
    }

    fn do_move(&mut self, state: &GameBoard, mv: &SymmetricMove3x3, player: Player) -> (
        r: GameBoard) {
        let index = mv.0;
        let mut new_state = *state;
        new_state.cells[index] = match state.cells[index] {
            CellState::EMPTY => CellState::GREEN,
            CellState::GREEN => CellState::YELLOW,
            _ => CellState::RED,
        };
        new_state.last_player = player;
        proof {
            assert(new_state.cells =~= spec_array_update(
                state.cells,
                index as int,
                turned_on(state.cells[index as int]),
            ));
        }
        new_state
    }

    fn score(&mut self, state: &GameBoard, player: Player) -> (r: i32) {
        default_score(state.status(), player)
    }

    fn cache(&mut self) -> (r: &mut CACHE) {
        BaseStrategy::cache(self)
    }

    fn stats(&mut self) -> (r: &mut NullStats) {
        BaseStrategy::stats(self)
    }
}

/// A cell that is not red can be played, whether the game offers it or a
/// cell that stands for it, and goes on by one colour: from empty to green,
/// from green to yellow, from yellow to red. The other cells stay as they
/// are, and the state tells who played. A red cell cannot be played, and the
/// game does not offer it.
pub proof fn lemma_play_turns_on<CACHE: Cache<GameBoard>>(
    state: GameBoard,
    mv: (usize, GridSymmetryAxes),
    player: Player,
)
    requires
        mv.0 < 9,
    ensures
        <Strategy<CACHE> as crate::min_max::Strategy>::accepts(&state, mv)
            <==> state.cells[mv.0 as int] != CellState::RED,
        state.cells[mv.0 as int] == CellState::RED ==> !<Strategy<
            CACHE,
        > as crate::min_max::Strategy>::moves(&state).contains(mv),
        ({
            let next = <Strategy<CACHE> as crate::min_max::Strategy>::apply(&state, mv, player);
            &&& next.last_player == player
            &&& forall|p: int| 0 <= p < 9 && p != mv.0 ==> next.cells[p] == state.cells[p]
            &&& next.cells[mv.0 as int] == match state.cells[mv.0 as int] {
                CellState::EMPTY => CellState::GREEN,
                CellState::GREEN => CellState::YELLOW,
                CellState::YELLOW => CellState::RED,
                CellState::RED => CellState::RED,
            }
        }),
{
    let offered = <Strategy<CACHE> as crate::min_max::Strategy>::moves(&state);
    if offered.contains(mv) {
        let at = choose|at: int| 0 <= at < offered.len() && offered[at] == mv;
        assert(move_indices(state.cells)[at] == mv.0);
        lemma_move_plays_open(state.cells, mv.0);
    }
}

/// Every position that the moves stand for, each with the score of its move,
/// move after move.
pub open spec fn expanded_moves(moves: Seq<ScoredMove<SymmetricMove3x3>>) -> Seq<ScoredMove<usize>>
    decreases moves.len(),
{
    if moves.len() == 0 {
        Seq::empty()
    } else {
        expanded_moves(moves.drop_last()) + moves.last().min_max_move.1.expansion(
            &moves.last().min_max_move.0,
        ).map_values(with_score(moves.last().score))
    }
}

/// A move stands for one position at least.
pub proof fn lemma_expanded_moves_nonempty(moves: Seq<ScoredMove<SymmetricMove3x3>>)
    requires
        moves.len() > 0,
    ensures
        expanded_moves(moves).len() > 0,
{
    let last = moves.last();
    crate::min_max::symmetry::lemma_expansion_holds_index(
        board_grid(),
        last.min_max_move.1@,
        last.min_max_move.0,
    );
    let part = last.min_max_move.1.expansion(&last.min_max_move.0);
    assert(part.len() > 0);
}

/// Every position that the moves stand for, each with the score of its move
/// and each pair of a score and a position once.
pub fn all_move_indices(moves: Vec<ScoredMove<SymmetricMove3x3>>) -> (r: Vec<ScoredMove<usize>>)
    ensures
        r@.no_duplicates(),
        r@.to_set() == expanded_moves(moves@).to_set(),
{
    let mut found: Vec<ScoredMove<usize>> = Vec::new();
    let mut k: usize = 0;
    while k < moves.len()
        invariant
            0 <= k <= moves.len(),
            found@.no_duplicates(),
            found@.to_set() == expanded_moves(moves@.take(k as int)).to_set(),
        decreases moves.len() - k,
    {
        let part = moves[k].expand();
        let ghost before = expanded_moves(moves@.take(k as int));
        proof {
            assert(moves@.take(k + 1).drop_last() =~= moves@.take(k as int));
            assert(moves@.take(k + 1).last() == moves@[k as int]);
            assert(expanded_moves(moves@.take(k + 1)) == before + part@);
        }
        let mut e: usize = 0;
        while e < part.len()
            invariant
                0 <= e <= part.len(),
                found@.no_duplicates(),
                found@.to_set() == (before + part@.take(e as int)).to_set(),
            decreases part.len() - e,
        {
            let candidate = &part[e];
            let mut known = false;
            let mut f: usize = 0;
            while f < found.len()
                invariant
                    0 <= f <= found.len(),
                    known == (exists|t: int| 0 <= t < f && found@[t] == *candidate),
                decreases found.len() - f,
            {
                if found[f].score == candidate.score && found[f].min_max_move
                    == candidate.min_max_move {
                    known = true;
                }
                f += 1;
            }
            let ghost held = found@;
            if !known {
                found.push(ScoredMove::new(candidate.score, candidate.min_max_move));
            }
            proof {
                let shorter = before + part@.take(e as int);
                let longer = before + part@.take(e + 1);
                assert(longer =~= shorter.push(*candidate));
                assert forall|x: ScoredMove<usize>| found@.to_set().contains(x)
                    == longer.to_set().contains(x) by {
                    if x == *candidate {
                        assert(longer[longer.len() - 1] == x);
                        if known {
                            assert(held.contains(x));
                        } else {
                            assert(found@[found@.len() - 1] == x);
                        }
                    } else {
                        if held.contains(x) {
                            let at = choose|at: int| 0 <= at < held.len() && held[at] == x;
                            assert(found@[at] == x);
                            assert(shorter.to_set().contains(x));
                            let to = choose|to: int| 0 <= to < shorter.len() && shorter[to] == x;
                            assert(longer[to] == x);
                        }
                        if found@.contains(x) {
                            let at = choose|at: int| 0 <= at < found@.len() && found@[at] == x;
                            assert(held[at] == x);
                        }
                        if longer.contains(x) {
                            let to = choose|to: int| 0 <= to < longer.len() && longer[to] == x;
                            assert(shorter[to] == x);
                            assert(held.to_set().contains(x));
                        }
                    }
                }
                assert(found@.to_set() =~= longer.to_set());
            }
            e += 1;
        }
        proof {
            assert(part@.take(part.len() as int) =~= part@);
        }
        k += 1;
    }
    proof {
        assert(moves@.take(moves.len() as int) =~= moves@);
    }
    found
}

/// `SliceRandom::choose` with the generator of the thread: a copy of one of
/// `moves`, and nothing where there is none. Which one it is, is left to
/// chance.
#[verifier::external_body]
fn choose_one(moves: &Vec<ScoredMove<usize>>) -> (r: Option<ScoredMove<usize>>)
    ensures
        r is Some <==> moves.len() > 0,
        r matches Some(m) ==> moves@.contains(m),
{
    moves.choose(&mut rand::thread_rng()).cloned()
}

/// What is played where chance had the choice `chosen` among `candidates`:
/// the choice, or the first candidate where there is no choice.
pub fn settle_choice(candidates: &Vec<ScoredMove<usize>>, chosen: Option<ScoredMove<usize>>) -> (r:
    ScoredMove<usize>)
    requires
        candidates.len() > 0,
    ensures
        r == match chosen {
            Some(m) => m,
            None => candidates[0],
        },
{
    match chosen {
        Some(m) => m,
        None => ScoredMove::new(candidates[0].score, candidates[0].min_max_move),
    }
}

/// One of the positions that the moves stand for, with the score of its
/// move, picked by chance.
pub fn choose_random_move(moves: Vec<ScoredMove<SymmetricMove3x3>>) -> (r: ScoredMove<usize>)
    requires
        moves.len() > 0,
    ensures
        expanded_moves(moves@).contains(r),
{
    proof {
        lemma_expanded_moves_nonempty(moves@);
        assert(expanded_moves(moves@).to_set().contains(expanded_moves(moves@)[0]));
    }
    let candidates = all_move_indices(moves);
    proof {
        assert(candidates@.to_set().contains(expanded_moves(moves@)[0]));
    }
    let chosen = choose_one(&candidates);
    let r = settle_choice(&candidates, chosen);
    proof {
        assert(candidates@.to_set().contains(r));
    }
    r
}

} // verus!
