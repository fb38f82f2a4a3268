//! Tic-tac-toe of tic-tac-toe boards: nine boards in a grid of three by
//! three. A move on a board sends the other side to the board whose place is
//! that of the cell that was marked.

use crate::common::{
    board_grid, canonical_moves, default_score_spec, lemma_canonical_moves, lemma_pack_bound,
    lemma_pack_injective, pack, pack_cells, player_bit, pow4, symmetric_moves, Board,
};
use crate::min_max::cache::{Cache, CacheKey, Key};
use crate::min_max::stats::SimpleStats;
use crate::min_max::symmetry::{
    canonical_of, is_same_spec, lemma_canonical_exists, lemma_class_induction,
    lemma_connected_reflexive, lemma_link, linked, mirrored, GridSymmetry3x3, GridSymmetryAxes,
    GridSymmetryAxis, GridSymmetryAxisContext, GridSymmetryAxisContext3x3, SymmetricMove,
    SymmetricMove3x3, Symmetry,
};
use crate::min_max::Player;
use crate::ttt;
use vstd::array::spec_array_update;
use vstd::prelude::*;
use vstd::std_specs::cmp::PartialEqSpec;
use vstd::std_specs::cmp::PartialEqSpecImpl;

verus! {

pub type BoardStatus = ttt::BoardStatus;

pub type CellState = ttt::CellState;

/// A move: the board that is played on, and the cell that is marked on it.
#[derive(Debug, Clone)]
pub struct Move {
    pub ttt_board: SymmetricMove3x3,
    pub ttt_move: SymmetricMove3x3,
}

/// What a move is: the place of the board with the symmetry of the boards,
/// and the place of the cell with the symmetry of the board.
pub type MoveView = ((usize, GridSymmetryAxes), (usize, GridSymmetryAxes));

impl View for Move {
    type V = MoveView;

    open spec fn view(&self) -> MoveView {
        (self.ttt_board@, self.ttt_move@)
    }
}

/// One of the nine boards, and how the game on it stands.
#[derive(Debug, Copy, Clone, PartialEq, Eq, Hash)]
pub struct SubBoard {
    pub cells: [CellState; 9],
    pub status: BoardStatus,
}

impl SubBoard {
    pub fn new(cells: [CellState; 9]) -> (r: Self)
        ensures
            r.cells == cells,
            r.status == ttt::status_of(cells),
    {
        let status = ttt::GameBoard::new(cells, Player::Max).status();
        Self { cells, status }
    }

    /// The board that nothing has been played on.
    pub fn empty() -> (r: Self)
        ensures
            r == empty_board(),
    {
        let r = Self { cells: [CellState::EMPTY; 9], status: BoardStatus::Ongoing };
        assert(r.cells =~= empty_board().cells);
        r
    }

    /// The board that stands for every board that `Max` has won.
    pub fn max_win() -> (r: Self)
        ensures
            r == max_win_board(),
    {
        let r = Self { cells: [CellState::X; 9], status: BoardStatus::MaxWon };
        assert(r.cells =~= max_win_board().cells);
        r
    }

    /// The board that stands for every board that `Min` has won.
    pub fn min_win() -> (r: Self)
        ensures
            r == min_win_board(),
    {
        let r = Self { cells: [CellState::O; 9], status: BoardStatus::MinWon };
        assert(r.cells =~= min_win_board().cells);
        r
    }

    /// The board that stands for every board that has ended in a draw.
    pub fn draw() -> (r: Self)
        ensures
            r == draw_board(),
    {
        Self {
            cells: [
                CellState::X,
                CellState::O,
                CellState::X,
                CellState::X,
                CellState::O,
                CellState::O,
                CellState::O,
                CellState::X,
                CellState::X,
            ],
            status: BoardStatus::Draw,
        }
    }
}

pub open spec fn empty_board() -> SubBoard {
    SubBoard {
        cells: [
            CellState::EMPTY,
            CellState::EMPTY,
            CellState::EMPTY,
            CellState::EMPTY,
            CellState::EMPTY,
            CellState::EMPTY,
            CellState::EMPTY,
            CellState::EMPTY,
            CellState::EMPTY,
        ],
        status: BoardStatus::Ongoing,
    }
}

pub open spec fn max_win_board() -> SubBoard {
    SubBoard {
        cells: [
            CellState::X,
            CellState::X,
            CellState::X,
            CellState::X,
            CellState::X,
            CellState::X,
            CellState::X,
            CellState::X,
            CellState::X,
        ],
        status: BoardStatus::MaxWon,
    }
}

pub open spec fn min_win_board() -> SubBoard {
    SubBoard {
        cells: [
            CellState::O,
            CellState::O,
            CellState::O,
            CellState::O,
            CellState::O,
            CellState::O,
            CellState::O,
            CellState::O,
            CellState::O,
        ],
        status: BoardStatus::MinWon,
    }
}

pub open spec fn draw_board() -> SubBoard {
    SubBoard {
        cells: [
            CellState::X,
            CellState::O,
            CellState::X,
            CellState::X,
            CellState::O,
            CellState::O,
            CellState::O,
            CellState::X,
            CellState::X,
        ],
        status: BoardStatus::Draw,
    }
}

/// The nine boards, who moved last, and on which board which cell was marked
/// last.
#[derive(Debug, Clone, PartialEq, Eq, Hash)]
pub struct GameBoard {
    pub sub_boards: [SubBoard; 9],
    pub last_player: Player,
    pub last_move: Option<(u8, u8)>,
    pub status: BoardStatus,
}

/// A board as the symmetry of the nine boards sees it: two boards are equal
/// where the games on them stand alike and their cells are the same in the
/// sense of `is_same`.
pub struct SymmetricEq(pub SubBoard);

impl PartialEq for SymmetricEq {
    fn eq(&self, other: &Self) -> (r: bool) {
        if self.0.status != other.0.status {
            return false;
        }
        GridSymmetry3x3::is_same(&self.0.cells, &other.0.cells)
    }
}

impl PartialEqSpecImpl for SymmetricEq {
    open spec fn obeys_eq_spec() -> bool {
        true
    }

    open spec fn eq_spec(&self, other: &Self) -> bool {
        self.0.status == other.0.status && is_same_spec(self.0.cells@, other.0.cells@)
    }
}

impl Eq for SymmetricEq {

}

/// The boards as the symmetry sees them.
pub open spec fn wrapped(sub_boards: [SubBoard; 9]) -> Seq<SymmetricEq> {
    Seq::new(9, |i: int| SymmetricEq(sub_boards[i]))
}

/// The axes at which the nine boards mirror.
pub open spec fn board_axes(sub_boards: [SubBoard; 9]) -> GridSymmetryAxes {
    GridSymmetryAxes {
        vertical: mirrored(wrapped(sub_boards), board_grid().pairs(GridSymmetryAxis::Vertical)),
        horizontal: mirrored(wrapped(sub_boards), board_grid().pairs(GridSymmetryAxis::Horizontal)),
        diagonal_top_bottom: mirrored(
            wrapped(sub_boards),
            board_grid().pairs(GridSymmetryAxis::DiagonalTopBottom),
        ),
        diagonal_bottom_top: mirrored(
            wrapped(sub_boards),
            board_grid().pairs(GridSymmetryAxis::DiagonalBottomTop),
        ),
    }
}

/// The board that takes the place of a board after a move on it: a board
/// that has been decided gives way to the board that stands for all boards
/// decided that way.
pub open spec fn settled(cells: [CellState; 9]) -> SubBoard {
    match ttt::status_of(cells) {
        BoardStatus::MaxWon => max_win_board(),
        BoardStatus::MinWon => min_win_board(),
        BoardStatus::Draw => draw_board(),
        BoardStatus::Ongoing => SubBoard { cells, status: BoardStatus::Ongoing },
    }
}

impl GameBoard {
    /// The board at `index` as a game of its own.
    pub open spec fn ttt_board_spec(&self, index: usize) -> ttt::GameBoard {
        crate::common::Board3x3 {
            cells: self.sub_boards[index as int].cells,
            last_player: self.last_player,
        }
    }

    /// The game with these boards. How it stands is worked out from the
    /// boards.
    pub fn new(sub_boards: [SubBoard; 9], last_player: Player, last_move: Option<(u8, u8)>) -> (r:
        Self)
        ensures
            r.sub_boards == sub_boards,
            r.last_player == last_player,
            r.last_move == last_move,
            r.status == status_of(sub_boards),
    {
        let status = calculate_status(&sub_boards, last_player);
        Self { sub_boards, last_player, last_move, status }
    }

    pub fn ttt_board(&self, index: usize) -> (r: ttt::GameBoard)
        requires
            index < 9,
        ensures
            r == self.ttt_board_spec(index),
    {
        ttt::GameBoard::new(self.sub_boards[index].cells, self.last_player)
    }

    /// Puts the board that `ttt_board` has become in the place `index`.
    pub fn update_ttt_board(&mut self, index: usize, ttt_board: ttt::GameBoard)
        requires
            index < 9,
        ensures
            final(self).sub_boards == spec_array_update(
                old(self).sub_boards,
                index as int,
                settled(ttt_board.cells),
            ),
            final(self).last_player == old(self).last_player,
            final(self).last_move == old(self).last_move,
            final(self).status == old(self).status,
    {
        let replacement = match ttt_board.status() {
            BoardStatus::MaxWon => SubBoard::max_win(),
            BoardStatus::MinWon => SubBoard::min_win(),
            BoardStatus::Draw => SubBoard::draw(),
            BoardStatus::Ongoing => SubBoard { cells: ttt_board.cells,
                status: BoardStatus::Ongoing },
        };
        self.sub_boards[index] = replacement;
        proof {
            assert(self.sub_boards =~= spec_array_update(
                old(self).sub_boards,
                index as int,
                settled(ttt_board.cells),
            ));
        }
    }

    /// The symmetry of the nine boards.
    pub fn symmetry(&self) -> (r: GridSymmetry3x3)
        ensures
            r@ == board_axes(self.sub_boards),
    {
        let boards = &self.sub_boards;
        let seen = [
            SymmetricEq(boards[0]),
            SymmetricEq(boards[1]),
            SymmetricEq(boards[2]),
            SymmetricEq(boards[3]),
            SymmetricEq(boards[4]),
            SymmetricEq(boards[5]),
            SymmetricEq(boards[6]),
            SymmetricEq(boards[7]),
            SymmetricEq(boards[8]),
        ];
        let r = GridSymmetry3x3::from(&seen);
        proof {
            assert(seen@ =~= wrapped(self.sub_boards));
            let grid = GridSymmetryAxisContext3x3::grid();
            assert(r@.has(GridSymmetryAxis::Vertical) == mirrored(
                seen@,
                grid.pairs(GridSymmetryAxis::Vertical),
            ));
            assert(r@.has(GridSymmetryAxis::Horizontal) == mirrored(
                seen@,
                grid.pairs(GridSymmetryAxis::Horizontal),
            ));
            assert(r@.has(GridSymmetryAxis::DiagonalTopBottom) == mirrored(
                seen@,
                grid.pairs(GridSymmetryAxis::DiagonalTopBottom),
            ));
            assert(r@.has(GridSymmetryAxis::DiagonalBottomTop) == mirrored(
                seen@,
                grid.pairs(GridSymmetryAxis::DiagonalBottomTop),
            ));
        }
        r
    }

    /// The game that nothing has been played in. `Max` counts as the last
    /// mover.
    pub fn empty() -> (r: Self)
        ensures
            r.last_player == Player::Max,
            r.last_move is None,
            r.status == BoardStatus::Ongoing,
            forall|i: int| 0 <= i < 9 ==> #[trigger] r.sub_boards[i] == empty_board(),
    {
        Self {
            sub_boards: [
                SubBoard::empty(),
                SubBoard::empty(),
                SubBoard::empty(),
                SubBoard::empty(),
                SubBoard::empty(),
                SubBoard::empty(),
                SubBoard::empty(),
                SubBoard::empty(),
                SubBoard::empty(),
            ],
            last_player: Player::Max,
            last_move: None,
            status: BoardStatus::Ongoing,
        }
    }
}

/// The mark that a board counts as in the game of the nine boards: that of
/// the side that has won it, and none while nobody has.
pub open spec fn mark_of_status(status: BoardStatus) -> CellState {
    match status {
        BoardStatus::MaxWon => CellState::X,
        BoardStatus::MinWon => CellState::O,
        BoardStatus::Ongoing => CellState::EMPTY,
        BoardStatus::Draw => CellState::EMPTY,
    }
}

/// The nine boards as the cells of one board.
pub open spec fn marks(sub_boards: [SubBoard; 9]) -> Seq<CellState> {
    Seq::new(9, |i: int| mark_of_status(sub_boards[i].status))
}

/// How many of the first `n` boards stand at `status`.
pub open spec fn count_status(sub_boards: [SubBoard; 9], status: BoardStatus, n: int) -> nat
    decreases n,
{
    if n <= 0 {
        0
    } else {
        count_status(sub_boards, status, n - 1) + if sub_boards[n - 1].status == status {
            1nat
        } else {
            0nat
        }
    }
}

/// The side, if any, that has three boards in a line.
pub open spec fn line_winner(sub_boards: [SubBoard; 9]) -> Option<Player> {
    let won = choose|cells: [CellState; 9]| cells@ == marks(sub_boards);
    match ttt::status_of(won) {
        BoardStatus::MaxWon => Some(Player::Max),
        BoardStatus::MinWon => Some(Player::Min),
        _ => None,
    }
}

/// How the game of the nine boards stands. A side that has three boards in a
/// line has won. Without such a line the game goes on while a board does;
/// once every board is decided, the side that has won more boards has won,
/// and it is a draw where both have won as many.
pub open spec fn status_of(sub_boards: [SubBoard; 9]) -> BoardStatus {
    match line_winner(sub_boards) {
        Some(Player::Max) => BoardStatus::MaxWon,
        Some(Player::Min) => BoardStatus::MinWon,
        None => if count_status(sub_boards, BoardStatus::Ongoing, 9) > 0 {
            BoardStatus::Ongoing
        } else if count_status(sub_boards, BoardStatus::MinWon, 9) > count_status(
            sub_boards,
            BoardStatus::MaxWon,
            9,
        ) {
            BoardStatus::MinWon
        } else if count_status(sub_boards, BoardStatus::MaxWon, 9) > count_status(
            sub_boards,
            BoardStatus::MinWon,
            9,
        ) {
            BoardStatus::MaxWon
        } else {
            BoardStatus::Draw
        },
    }
}

/// How many of the boards stand at `status`.
fn count_boards(sub_boards: &[SubBoard; 9], status: BoardStatus) -> (r: usize)
    ensures
        r == count_status(*sub_boards, status, 9),
{
    let mut count: usize = 0;
    let mut i: usize = 0;
    while i < 9
        invariant
            0 <= i <= 9,
            count <= i,
            count == count_status(*sub_boards, status, i as int),
        decreases 9 - i,
    {
        if sub_boards[i].status == status {
            count += 1;
        }
        i += 1;
    }
    count
}

/// How the game of the nine boards stands: see `status_of`. Who moved last
/// does not bear on it.
pub fn calculate_status(sub_boards: &[SubBoard; 9], last_player: Player) -> (r: BoardStatus)
    ensures
        r == status_of(*sub_boards),
{
    let mut cells = [CellState::EMPTY; 9];
    let mut i: usize = 0;
    while i < 9
        invariant
            0 <= i <= 9,
            forall|t: int| 0 <= t < i ==> #[trigger] cells[t] == mark_of_status(
                sub_boards[t].status),
        decreases 9 - i,
    {
        cells[i] = match sub_boards[i].status {
            BoardStatus::MaxWon => CellState::X,
            BoardStatus::MinWon => CellState::O,
            BoardStatus::Ongoing | BoardStatus::Draw => CellState::EMPTY,
        };
        i += 1;
    }
    proof {
        assert(cells@ =~= marks(*sub_boards));
        let won = choose|other: [CellState; 9]| other@ == marks(*sub_boards);
        assert(won =~= cells);
    }
    let overall_ttt_board = ttt::GameBoard::new(cells, last_player);
    match overall_ttt_board.status() {
        BoardStatus::MaxWon => BoardStatus::MaxWon,
        BoardStatus::MinWon => BoardStatus::MinWon,
        _ => {
            if count_boards(sub_boards, BoardStatus::Ongoing) > 0 {
                BoardStatus::Ongoing
            } else {
                let min_wins = count_boards(sub_boards, BoardStatus::MinWon);
                let max_wins = count_boards(sub_boards, BoardStatus::MaxWon);
                if min_wins > max_wins {
                    BoardStatus::MinWon
                } else if max_wins > min_wins {
                    BoardStatus::MaxWon
                } else {
                    BoardStatus::Draw
                }
            }
        },
    }
}

impl Board for GameBoard {
    type Move = usize;

    type BoardStatus = BoardStatus;

    open spec fn mover(&self) -> Player {
        self.last_player
    }

    open spec fn standing(&self) -> BoardStatus {
        self.status
    }

    fn last_player(&self) -> (r: Player) {
        self.last_player
    }

    fn status(&self) -> (r: BoardStatus) {
        self.status
    }
}

/// The strategy of the game, with the cache of one's choice.
pub struct Strategy<CACHE: Cache<GameBoard>> {
    ttt_strategy: ttt::Strategy,
    cache: CACHE,
    pub stats: SimpleStats,
}

impl<CACHE: Cache<GameBoard>> Strategy<CACHE> {
    /// The cache of the strategy.
    pub closed spec fn cache_view(&self) -> CACHE {
        self.cache
    }

    /// The counters of the strategy.
    pub closed spec fn stats_view(&self) -> SimpleStats {
        self.stats
    }

    pub fn new(cache: CACHE) -> (r: Self)
        ensures
            r.cache_view() == cache,
            r.stats_view().prune_count == 0,
            r.stats_view().cache_hit_count == 0,
            r.stats_view().cache_miss_count == 0,
            r.stats_view().state_scored_count == 0,
    {
        Self {
            ttt_strategy: ttt::Strategy::new(crate::min_max::cache::NullCache),
            cache,
            stats: SimpleStats {
                prune_count: 0,
                cache_hit_count: 0,
                cache_miss_count: 0,
                state_scored_count: 0,
            },
        }
    }
}

/// The order in which the boards are tried.
pub const BOARD_ORDER: [usize; 9] = [0, 1, 2, 3, 4, 5, 6, 7, 8];

/// Which boards can be played on: those on which the game goes on.
pub open spec fn ongoing(sub_boards: [SubBoard; 9]) -> Seq<bool> {
    Seq::new(9, |i: int| sub_boards[i].status == BoardStatus::Ongoing)
}

/// Puts a move on a board together with the place of the board.
pub open spec fn on_board(board: usize, axes: GridSymmetryAxes) -> spec_fn(
    (usize, GridSymmetryAxes),
) -> MoveView {
    |inner: (usize, GridSymmetryAxes)| ((board, axes), inner)
}

/// The moves on the board at `board`.
pub open spec fn board_moves(state: GameBoard, board: usize) -> Seq<MoveView> {
    <ttt::Strategy as crate::min_max::Strategy>::moves(&state.ttt_board_spec(board)).map_values(
        on_board(board, board_axes(state.sub_boards)),
    )
}

/// The moves on each of `boards`, board after board.
pub open spec fn moves_on(state: GameBoard, boards: Seq<usize>) -> Seq<MoveView>
    decreases boards.len(),
{
    if boards.len() == 0 {
        Seq::empty()
    } else {
        moves_on(state, boards.drop_last()) + board_moves(state, boards.last())
    }
}

/// The board that the last move sends to: the one that stands for the board
/// whose place is that of the cell that was marked.
pub open spec fn forced_board(state: GameBoard) -> Option<usize> {
    match state.last_move {
        Some((_, cell)) => Some(
            canonical_of(board_grid(), board_axes(state.sub_boards), cell as usize),
        ),
        None => None,
    }
}

/// Whether the last move sends to a board on which the game goes on.
pub open spec fn is_forced(state: GameBoard) -> bool {
    forced_board(state) matches Some(board) && board < 9 && state.sub_boards[board as int].status
        == BoardStatus::Ongoing
}

/// The boards that can be chosen where the last move sends to none: the
/// representatives of the boards on which the game goes on.
pub open spec fn free_boards(state: GameBoard) -> Seq<usize> {
    canonical_moves(board_axes(state.sub_boards), BOARD_ORDER@, ongoing(state.sub_boards))
}

/// The moves of a state: those on the board that the last move sends to,
/// and, where the game on that board is over or no move was made yet, those
/// on every board that can be chosen.
pub open spec fn all_moves(state: GameBoard) -> Seq<MoveView> {
    if is_forced(state) {
        board_moves(state, forced_board(state).unwrap())
    } else {
        moves_on(state, free_boards(state))
    }
}

/// The state after `player` has marked the cell `cell` on the board `board`.
pub open spec fn after_move(state: GameBoard, board: usize, cell: usize, player: Player)
    -> GameBoard {
    let marked = spec_array_update(
        state.sub_boards[board as int].cells,
        cell as int,
        ttt::mark_of(player),
    );
    let sub_boards = spec_array_update(state.sub_boards, board as int, settled(marked));
    GameBoard {
        sub_boards,
        last_player: player,
        last_move: Some((board as u8, cell as u8)),
        status: status_of(sub_boards),
    }
}

/// What the boards are worth to `player` together: each board that a side
/// has won counts one for that side.
pub open spec fn boards_score(sub_boards: [SubBoard; 9], player: Player, n: int) -> int
    decreases n,
{
    if n <= 0 {
        0
    } else {
        boards_score(sub_boards, player, n - 1) + default_score_spec(
            sub_boards[n - 1].status,
            player,
        )
    }
}

/// What a state is worth to `player`: one where the side has won, minus one
/// where it has lost, nothing for a draw, and what the boards are worth
/// together while the game goes on.
pub open spec fn value_of(state: GameBoard, player: Player) -> int {
    match state.status {
        BoardStatus::MaxWon => if player == Player::Max {
            1
        } else {
            -1
        },
        BoardStatus::MinWon => if player == Player::Min {
            1
        } else {
            -1
        },
        BoardStatus::Draw => 0,
        BoardStatus::Ongoing => boards_score(state.sub_boards, player, 9),
    }
}

/// A state that the game can be played from: the last move, if there was
/// one, names a board and a cell.
pub open spec fn is_valid(state: GameBoard) -> bool {
    state.last_move matches Some((board, cell)) ==> board < 9 && cell < 9
}

/// The representative of a board lies on the grid and stands as the board
/// does.
pub proof fn lemma_canonical_shares_status(sub_boards: [SubBoard; 9], index: usize)
    requires
        index < 9,
    ensures
        canonical_of(board_grid(), board_axes(sub_boards), index) < 9,
        sub_boards[canonical_of(board_grid(), board_axes(sub_boards), index) as int].status
            == sub_boards[index as int].status,
{
    let grid = board_grid();
    let axes = board_axes(sub_boards);
    lemma_connected_reflexive(grid, axes, index);
    lemma_canonical_exists(grid, axes, index, index);
    let alike = |x: usize| x < 9 && sub_boards[x as int].status == sub_boards[index as int].status;
    assert forall|a: usize, b: usize| alike(a) && #[trigger] linked(grid, axes, a, b) implies alike(
        b,
    ) by {
        let (axis, k) = lemma_link(grid, axes, a, b);
        GridSymmetryAxisContext3x3::lemma_grid();
        assert(mirrored(wrapped(sub_boards), grid.pairs(axis)));
        let pair = grid.pairs(axis)[k];
        assert(PartialEqSpec::eq_spec(
            &wrapped(sub_boards)[pair.0 as int],
            &wrapped(sub_boards)[pair.1 as int],
        ));
    }
    lemma_class_induction(grid, axes, index, canonical_of(grid, axes, index), alike);
}

/// A move on one of `boards` is a move on a board of the grid, and a move of
/// the game on that board.
proof fn lemma_moves_on(state: GameBoard, boards: Seq<usize>, mv: MoveView)
    requires
        moves_on(state, boards).contains(mv),
    ensures
        boards.contains(mv.0.0),
        board_moves(state, mv.0.0).contains(mv),
    decreases boards.len(),
{
    if boards.len() > 0 {
        let front = moves_on(state, boards.drop_last());
        let part = board_moves(state, boards.last());
        let all = moves_on(state, boards);
        let at = choose|at: int| 0 <= at < all.len() && all[at] == mv;
        if at < front.len() {
            assert(front[at] == mv);
            lemma_moves_on(state, boards.drop_last(), mv);
            let k = choose|k: int|
                0 <= k < boards.drop_last().len() && boards.drop_last()[k] == mv.0.0;
            assert(boards[k] == mv.0.0);
        } else {
            assert(part[at - front.len()] == mv);
            assert(boards[boards.len() - 1] == boards.last());
        }
    }
}

/// A move of a state names a board of the grid on which the game goes on,
/// and is a move of the game on that board.
pub proof fn lemma_move_is_legal(state: GameBoard, mv: MoveView)
    requires
        is_valid(state),
        all_moves(state).contains(mv),
    ensures
        mv.0.0 < 9,
        state.sub_boards[mv.0.0 as int].status == BoardStatus::Ongoing,
        <ttt::Strategy as crate::min_max::Strategy>::moves(&state.ttt_board_spec(mv.0.0)).contains(
            mv.1,
        ),
        ttt::move_indices(state.sub_boards[mv.0.0 as int].cells).contains(mv.1.0),
{
    if !is_forced(state) {
        lemma_moves_on(state, free_boards(state), mv);
        lemma_canonical_moves(
            board_axes(state.sub_boards),
            BOARD_ORDER@,
            ongoing(state.sub_boards),
            mv.0.0,
        );
        let k = choose|k: int|
            0 <= k < BOARD_ORDER@.len() && (#[trigger] BOARD_ORDER@[k]) < 9 && ongoing(
                state.sub_boards,
            )[BOARD_ORDER@[k] as int] && mv.0.0 == canonical_of(
                board_grid(),
                board_axes(state.sub_boards),
                BOARD_ORDER@[k],
            );
        lemma_canonical_shares_status(state.sub_boards, BOARD_ORDER@[k]);
    }
    let part = board_moves(state, mv.0.0);
    let inner = <ttt::Strategy as crate::min_max::Strategy>::moves(&state.ttt_board_spec(mv.0.0));
    let at = choose|at: int| 0 <= at < part.len() && part[at] == mv;
    assert(inner[at] == mv.1);
    assert(ttt::move_indices(state.sub_boards[mv.0.0 as int].cells)[at] == mv.1.0);
}

/// The moves of the game on the board at `board_index`, each with the place
/// of the board.
fn moves_of_board(state: &GameBoard, board_index: usize, symmetry: &GridSymmetry3x3) -> (
    r: Vec<Move>)
    requires
        board_index < 9,
        symmetry@ == board_axes(state.sub_boards),
    ensures
        r.len() == board_moves(*state, board_index).len(),
        forall|i: int| 0 <= i < r.len() ==> (#[trigger] r[i])@ == board_moves(*state,
            board_index)[i],
{
    let ttt_board = state.ttt_board(board_index);
    let ttt_moves = <ttt::Strategy as crate::min_max::Strategy>::possible_moves(&ttt_board);
    let ghost inner = ttt_moves@;
    let mut moves: Vec<Move> = Vec::new();
    for ttt_move in it: ttt_moves
        invariant
            it.seq() == inner,
            inner.len() == board_moves(*state, board_index).len(),
            forall|i: int|
                0 <= i < inner.len() ==> (#[trigger] inner[i])@
                    == <ttt::Strategy as crate::min_max::Strategy>::moves(
                    &state.ttt_board_spec(board_index),
                )[i],
            symmetry@ == board_axes(state.sub_boards),
            moves.len() == it.index(),
            forall|i: int|
                0 <= i < moves.len() ==> (#[trigger] moves[i])@ == board_moves(
                    *state,
                    board_index,
                )[i],
    {
        proof {
            assert(inner[it.index()]@ == <ttt::Strategy as crate::min_max::Strategy>::moves(
                &state.ttt_board_spec(board_index),
            )[it.index()]);
        }
        moves.push(Move { ttt_board: SymmetricMove(board_index, symmetry.clone()), ttt_move });
    }
    moves
}

impl<CACHE: Cache<GameBoard>> crate::min_max::Strategy for Strategy<CACHE> {
    type State = GameBoard;

    type Move = Move;

    type Cache = CACHE;

    type Stats = SimpleStats;

    open spec fn valid(state: &GameBoard) -> bool {
        is_valid(*state)
    }

    open spec fn moves(state: &GameBoard) -> Seq<MoveView> {
        all_moves(*state)
    }

    /// A cell of a board of the grid can be marked while it is empty.
    open spec fn accepts(state: &GameBoard, mv: MoveView) -> bool {
        &&& mv.0.0 < 9
        &&& mv.1.0 < 9
        &&& state.sub_boards[mv.0.0 as int].cells[mv.1.0 as int] == ttt::CellState::EMPTY
    }

    open spec fn apply(state: &GameBoard, mv: MoveView, player: Player) -> GameBoard {
        after_move(*state, mv.0.0, mv.1.0, player)
    }

    open spec fn value(state: &GameBoard, player: Player) -> int {
        value_of(*state, player)
    }

    /// A board that has been decided does not tell how many moves decided
    /// it, so that one search can meet a state at more than one depth.
    open spec fn ranked() -> bool {
        false
    }

    open spec fn ply(state: &GameBoard) -> nat {
        0
    }

    open spec fn mover(state: &GameBoard) -> Player {
        state.last_player
    }

    open spec fn held_cache(&self) -> CACHE {
        self.cache_view()
    }

    open spec fn held_stats(&self) -> SimpleStats {
        self.stats_view()
    }

    proof fn lemma_apply(state: &GameBoard, i: int, player: Player) {
        let mv = all_moves(*state)[i];
        assert(all_moves(*state).contains(mv));
        lemma_move_is_legal(*state, mv);
        ttt::lemma_move_marks_empty(state.sub_boards[mv.0.0 as int].cells, mv.1.0);
    }

    proof fn lemma_value(state: &GameBoard, player: Player) {
        lemma_boards_score_bounded(state.sub_boards, player, 9);
    }

    fn possible_moves(state: &GameBoard) -> (r: Vec<Move>) {
        let symmetry = state.symmetry();
        let ghost axes = board_axes(state.sub_boards);
        let canonical_forced_board_index = match state.last_move {
            Some((_, ttt_index)) => {
                let canonical_index = symmetry.canonicalize(&(ttt_index as usize));
                proof {
                    lemma_connected_reflexive(board_grid(), axes, ttt_index as usize);
                    lemma_canonical_exists(board_grid(), axes, ttt_index as usize,
                        ttt_index as usize);
                }
                Some(canonical_index)
            },
            None => None,
        };
        if let Some(board_index) = canonical_forced_board_index {
            if state.sub_boards[board_index].status == BoardStatus::Ongoing {
                return moves_of_board(state, board_index, &symmetry);
            }
        }
        let mut open = [false; 9];
        let mut p: usize = 0;
        while p < 9
            invariant
                0 <= p <= 9,
                forall|t: int|
                    0 <= t < p ==> (#[trigger] open[t]) == (state.sub_boards[t].status
                        == BoardStatus::Ongoing),
            decreases 9 - p,
        {
            open[p] = state.sub_boards[p].status == BoardStatus::Ongoing;
            p += 1;
        }
        proof {
            assert(open@ =~= ongoing(state.sub_boards));
        }
        let boards = symmetric_moves(symmetry.clone(), &BOARD_ORDER, &open);
        let ghost chosen = free_boards(*state);
        let mut moves: Vec<Move> = Vec::new();
        let mut b: usize = 0;
        while b < boards.len()
            invariant
                0 <= b <= boards.len(),
                symmetry@ == board_axes(state.sub_boards),
                chosen == free_boards(*state),
                boards.len() == chosen.len(),
                forall|i: int| 0 <= i < boards.len() ==> (#[trigger] boards[i])@.0 == chosen[i],
                moves.len() == moves_on(*state, chosen.take(b as int)).len(),
                forall|i: int|
                    0 <= i < moves.len() ==> (#[trigger] moves[i])@ == moves_on(
                        *state,
                        chosen.take(b as int),
                    )[i],
            decreases boards.len() - b,
        {
            let ttt_board_index = boards[b].0;
            proof {
                assert(boards[b as int]@.0 == chosen[b as int]);
                assert(chosen.contains(chosen[b as int]));
                lemma_canonical_moves(
                    board_axes(state.sub_boards),
                    BOARD_ORDER@,
                    ongoing(state.sub_boards),
                    ttt_board_index,
                );
                let k = choose|k: int|
                    0 <= k < BOARD_ORDER@.len() && (#[trigger] BOARD_ORDER@[k]) < 9 && ongoing(
                        state.sub_boards,
                    )[BOARD_ORDER@[k] as int] && ttt_board_index == canonical_of(
                        board_grid(),
                        board_axes(state.sub_boards),
                        BOARD_ORDER@[k],
                    );
                lemma_canonical_shares_status(state.sub_boards, BOARD_ORDER@[k]);
                assert(chosen.take(b + 1).drop_last() =~= chosen.take(b as int));
                assert(chosen.take(b + 1).last() == chosen[b as int]);
            }
            let ghost before = moves@;
            let mut part = moves_of_board(state, ttt_board_index, &symmetry);
            moves.append(&mut part);
            b += 1;
        }
        proof {
            assert(chosen.take(chosen.len() as int) =~= chosen);
        }
        moves
    }

    fn do_move(&mut self, state: &GameBoard, ultimate_move: &Move, player: Player) -> (
        r: GameBoard) {
        let board_index = *ultimate_move.ttt_board.index();
        let cell_index = *ultimate_move.ttt_move.index();
        let ttt_board = state.ttt_board(board_index);
        let new_ttt_board = self.ttt_strategy.do_move(&ttt_board, &ultimate_move.ttt_move, player);
        let mut new_state = state.clone_board();
        new_state.update_ttt_board(board_index, new_ttt_board);
        new_state.last_player = player;
        new_state.last_move = Some((board_index as u8, cell_index as u8));
        new_state.status = calculate_status(&new_state.sub_boards, player);
        new_state
    }

    fn score(&mut self, state: &GameBoard, player: Player) -> (r: i32) {
        match state.status() {
            BoardStatus::MaxWon => {
                if player == Player::Max {
                    1
                } else {
                    -1
                }
            },
            BoardStatus::MinWon => {
                if player == Player::Min {
                    1
                } else {
                    -1
                }
            },
            BoardStatus::Draw => 0,
            BoardStatus::Ongoing => {
                let mut sum: i32 = 0;
                let mut i: usize = 0;
                while i < 9
                    invariant
                        0 <= i <= 9,
                        -i <= sum <= i,
                        sum == boards_score(state.sub_boards, player, i as int),
                    decreases 9 - i,
                {
                    sum = sum + ttt::Strategy::score_board_state(state.sub_boards[i].status,
                        player);
                    i += 1;
                }
                sum
            },
        }
    }

    fn cache(&mut self) -> (r: &mut CACHE) {
        &mut self.cache
    }

    fn stats(&mut self) -> (r: &mut SimpleStats) {
        &mut self.stats
    }
}

/// What the first `n` boards are worth together is at most `n` in size.
pub proof fn lemma_boards_score_bounded(sub_boards: [SubBoard; 9], player: Player, n: int)
    requires
        0 <= n,
    ensures
        -n <= boards_score(sub_boards, player, n) <= n,
    decreases n,
{
    if n > 0 {
        lemma_boards_score_bounded(sub_boards, player, n - 1);
    }
}

impl GameBoard {
    /// A copy of the state.
    fn clone_board(&self) -> (r: Self)
        ensures
            r == *self,
    {
        Self {
            sub_boards: self.sub_boards,
            last_player: self.last_player,
            last_move: self.last_move,
            status: self.status,
        }
    }
}

/// The number of a standing.
pub open spec fn status_code(status: BoardStatus) -> nat {
    match status {
        BoardStatus::MaxWon => 0,
        BoardStatus::MinWon => 1,
        BoardStatus::Draw => 2,
        BoardStatus::Ongoing => 3,
    }
}

/// The number of boards that differ in a cell or in their standing.
pub const BOARD_CODES: u128 = 1048576;

/// A board as a number below `BOARD_CODES`: its cells packed, and above them
/// its standing.
pub open spec fn board_code(board: SubBoard) -> nat {
    pack(board.cells, 0) + 262144 * status_code(board.status)
}

/// The boards from `from` up to `to` as one number, `BOARD_CODES` to each
/// place: the first board counts least.
pub open spec fn boards_code(sub_boards: [SubBoard; 9], from: int, to: int) -> nat
    decreases to - from,
{
    if from < 0 || from >= to || to > 9 {
        0
    } else {
        (board_code(sub_boards[from]) + BOARD_CODES * boards_code(sub_boards, from + 1, to)) as nat
    }
}

/// `BOARD_CODES` to the power of `n`.
pub open spec fn board_codes_pow(n: nat) -> nat
    decreases n,
{
    if n == 0 {
        1
    } else {
        (BOARD_CODES * board_codes_pow((n - 1) as nat)) as nat
    }
}

/// The number of the last move: nothing for none, else one more than the
/// place of the board times 256 plus the place of the cell.
pub open spec fn move_code(last_move: Option<(u8, u8)>) -> nat {
    match last_move {
        None => 0,
        Some((board, cell)) => (1 + board * 256 + cell) as nat,
    }
}

/// What the key holds besides the boards: the standing of the game, who
/// moved last and the last move.
pub open spec fn tail_code(state: GameBoard) -> nat {
    status_code(state.status) + 4 * (player_bit(state.last_player) + 2 * move_code(
        state.last_move,
    ))
}

/// The code of a board is below `BOARD_CODES`.
pub proof fn lemma_board_code_bound(board: SubBoard)
    ensures
        board_code(board) < BOARD_CODES,
{
    lemma_pack_bound(board.cells, 0);
    assert(pow4(9) == 262144) by {
        reveal_with_fuel(pow4, 10);
    }
}

/// Boards with one code are one board.
pub proof fn lemma_board_code_injective(a: SubBoard, b: SubBoard)
    requires
        board_code(a) == board_code(b),
    ensures
        a == b,
{
    lemma_pack_bound(a.cells, 0);
    lemma_pack_bound(b.cells, 0);
    assert(pow4(9) == 262144) by {
        reveal_with_fuel(pow4, 10);
    }
    lemma_digits(
        pack(a.cells, 0) as int,
        status_code(a.status) as int,
        pack(b.cells, 0) as int,
        status_code(b.status) as int,
        262144,
    );
    lemma_pack_injective(a.cells, b.cells, 0);
    assert(a.cells =~= b.cells);
}

/// A number tells its lowest digit and the rest apart.
pub proof fn lemma_digits(x: int, m: int, y: int, n: int, base: int)
    requires
        0 <= x < base,
        0 <= y < base,
        0 <= m,
        0 <= n,
        x + base * m == y + base * n,
    ensures
        x == y,
        m == n,
{
    assert(x == y && m == n) by (nonlinear_arith)
        requires
            0 <= x < base,
            0 <= y < base,
            0 <= m,
            0 <= n,
            x + base * m == y + base * n,
    {
        if m < n {
            assert(base * n >= base * m + base);
        } else if n < m {
            assert(base * m >= base * n + base);
        }
    }
}

/// The boards from `from` up to `to` stay below `BOARD_CODES` to their
/// number.
pub proof fn lemma_boards_code_bound(sub_boards: [SubBoard; 9], from: int, to: int)
    requires
        0 <= from <= to <= 9,
    ensures
        boards_code(sub_boards, from, to) < board_codes_pow((to - from) as nat),
    decreases to - from,
{
    if from < to {
        lemma_boards_code_bound(sub_boards, from + 1, to);
        lemma_board_code_bound(sub_boards[from]);
        let rest = boards_code(sub_boards, from + 1, to);
        let limit = board_codes_pow((to - from - 1) as nat);
        let code = board_code(sub_boards[from]);
        assert(code + BOARD_CODES * rest < BOARD_CODES * limit) by (nonlinear_arith)
            requires
                0 <= code < BOARD_CODES,
                0 <= rest < limit,
        ;
    }
}

/// Boards that have one code from `from` up to `to` are the same there.
pub proof fn lemma_boards_code_injective(a: [SubBoard; 9], b: [SubBoard; 9], from: int, to: int)
    requires
        0 <= from <= to <= 9,
        boards_code(a, from, to) == boards_code(b, from, to),
    ensures
        forall|i: int| from <= i < to ==> a[i] == b[i],
    decreases to - from,
{
    if from < to {
        lemma_board_code_bound(a[from]);
        lemma_board_code_bound(b[from]);
        lemma_digits(
            board_code(a[from]) as int,
            boards_code(a, from + 1, to) as int,
            board_code(b[from]) as int,
            boards_code(b, from + 1, to) as int,
            BOARD_CODES as int,
        );
        lemma_board_code_injective(a[from], b[from]);
        lemma_boards_code_injective(a, b, from + 1, to);
    }
}

impl GameBoard {
    /// The boards from `from` up to `to` as one number.
    fn boards_key(&self, from: usize, to: usize) -> (r: u128)
        requires
            from <= to <= 9,
            to - from <= 6,
        ensures
            r == boards_code(self.sub_boards, from as int, to as int),
            r < board_codes_pow((to - from) as nat),
    {
        let mut code: u128 = 0;
        let mut i: usize = to;
        proof {
            assert(board_codes_pow(6) == 0x1000000000000000000000000000000) by {
                reveal_with_fuel(board_codes_pow, 7);
            }
            assert(board_codes_pow(0) == 1);
        }
        while i > from
            invariant
                from <= i <= to <= 9,
                to - from <= 6,
                code == boards_code(self.sub_boards, i as int, to as int),
                code < board_codes_pow((to - i) as nat),
                board_codes_pow(6) == 0x1000000000000000000000000000000,
            decreases i,
        {
            i -= 1;
            let board = &self.sub_boards[i];
            let status: u128 = match board.status {
                BoardStatus::MaxWon => 0,
                BoardStatus::MinWon => 1,
                BoardStatus::Draw => 2,
                BoardStatus::Ongoing => 3,
            };
            let one = pack_cells(&board.cells) + 262144 * status;
            proof {
                lemma_board_code_bound(self.sub_boards[i as int]);
                lemma_boards_code_bound(self.sub_boards, i as int, to as int);
                lemma_board_codes_pow_grows((to - i) as nat, 6);
                lemma_board_codes_pow_grows((to - i - 1) as nat, 6);
                let rest = code as int;
                let limit = board_codes_pow((to - i - 1) as nat) as int;
                assert(BOARD_CODES * rest + BOARD_CODES <= BOARD_CODES * limit) by (nonlinear_arith)
                    requires
                        0 <= rest < limit,
                ;
            }
            code = code * BOARD_CODES + one;
        }
        code
    }
}

/// A higher power is no smaller.
pub proof fn lemma_board_codes_pow_grows(m: nat, n: nat)
    requires
        m <= n,
    ensures
        board_codes_pow(m) <= board_codes_pow(n),
    decreases n,
{
    if m < n {
        lemma_board_codes_pow_grows(m, (n - 1) as nat);
        assert(board_codes_pow((n - 1) as nat) <= BOARD_CODES * board_codes_pow((n - 1) as nat))
            by (nonlinear_arith)
            requires
                board_codes_pow((n - 1) as nat) >= 0,
        ;
    }
}

impl CacheKey for GameBoard {
    /// The first six boards in the one half, and in the other the last
    /// three, and above them what else the state holds.
    open spec fn key_of(&self) -> Key {
        (
            boards_code(self.sub_boards, 0, 6) as u128,
            (boards_code(self.sub_boards, 6, 9) + 0x1000000000000000 * tail_code(*self)) as u128,
        )
    }

    fn cache_key(&self) -> (k: Key) {
        let low = self.boards_key(0, 6);
        let high = self.boards_key(6, 9);
        let status: u128 = match self.status {
            BoardStatus::MaxWon => 0,
            BoardStatus::MinWon => 1,
            BoardStatus::Draw => 2,
            BoardStatus::Ongoing => 3,
        };
        let bit: u128 = match self.last_player {
            Player::Max => 1,
            Player::Min => 0,
        };
        let last: u128 = match self.last_move {
            None => 0,
            Some((board, cell)) => 1 + board as u128 * 256 + cell as u128,
        };
        proof {
            assert(board_codes_pow(6) == 0x1000000000000000000000000000000) by {
                reveal_with_fuel(board_codes_pow, 7);
            }
            assert(board_codes_pow(3) == 0x1000000000000000) by {
                reveal_with_fuel(board_codes_pow, 4);
            }
        }
        let tail = status + 4 * (bit + 2 * last);
        (low, high + 0x1000000000000000 * tail)
    }

    proof fn lemma_key_injective(&self, other: &Self) {
        assert(board_codes_pow(6) == 0x1000000000000000000000000000000) by {
            reveal_with_fuel(board_codes_pow, 7);
        }
        assert(board_codes_pow(3) == 0x1000000000000000) by {
            reveal_with_fuel(board_codes_pow, 4);
        }
        lemma_boards_code_bound(self.sub_boards, 0, 6);
        lemma_boards_code_bound(other.sub_boards, 0, 6);
        lemma_boards_code_bound(self.sub_boards, 6, 9);
        lemma_boards_code_bound(other.sub_boards, 6, 9);
        lemma_tail_code_bound(*self);
        lemma_tail_code_bound(*other);
        if self.key_of() == other.key_of() {
            lemma_boards_code_injective(self.sub_boards, other.sub_boards, 0, 6);
            lemma_digits(
                boards_code(self.sub_boards, 6, 9) as int,
                tail_code(*self) as int,
                boards_code(other.sub_boards, 6, 9) as int,
                tail_code(*other) as int,
                0x1000000000000000,
            );
            lemma_boards_code_injective(self.sub_boards, other.sub_boards, 6, 9);
            assert(self.sub_boards =~= other.sub_boards);
            lemma_tail_code_injective(*self, *other);
        }
    }
}

/// What the key holds besides the boards stays small.
pub proof fn lemma_tail_code_bound(state: GameBoard)
    ensures
        tail_code(state) < 0x100000,
{
}

/// States whose keys agree besides the boards agree in their standing, in
/// who moved last and in the last move.
pub proof fn lemma_tail_code_injective(a: GameBoard, b: GameBoard)
    requires
        tail_code(a) == tail_code(b),
    ensures
        a.status == b.status,
        a.last_player == b.last_player,
        a.last_move == b.last_move,
{
    lemma_digits(
        status_code(a.status) as int,
        (player_bit(a.last_player) + 2 * move_code(a.last_move)) as int,
        status_code(b.status) as int,
        (player_bit(b.last_player) + 2 * move_code(b.last_move)) as int,
        4,
    );
    lemma_digits(
        player_bit(a.last_player) as int,
        move_code(a.last_move) as int,
        player_bit(b.last_player) as int,
        move_code(b.last_move) as int,
        2,
    );
    match (a.last_move, b.last_move) {
        (Some((board, cell)), Some((other_board, other_cell))) => {
            lemma_digits(cell as int, board as int, other_cell as int, other_board as int, 256);
        },
        _ => {},
    }
}

} // verus!
