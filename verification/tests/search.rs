use minmax::common::{default_score, Board, Board3x3};
use minmax::min_max::cache::{Cache, CacheEntry, CacheFlag, HashMapCache, NullCache};
use minmax::min_max::stats::{NullStats, SimpleStats, Stats};
use minmax::min_max::symmetry::{GridSymmetry3x3, GridSymmetryAxes, GridSymmetryAxis, SymmetricMove};
use minmax::min_max::{
    alpha_beta, score_possible_moves, to_score_board, Player, ScoredMove, Strategy,
};
use minmax::stoplight;
use minmax::stoplight::CellState::{EMPTY, GREEN, RED, YELLOW};
use minmax::ttt;
use minmax::ttt::CellState::{EMPTY as E, O, X};

/// The value of a state by a search that leaves nothing out and remembers
/// nothing.
fn full_search<T: Strategy>(strategy: &mut T, state: &T::State, player: Player, depth: u8) -> i32 {
    if depth == 0 {
        return strategy.score(state, player);
    }
    let moves = T::possible_moves(state);
    if moves.is_empty() {
        return strategy.score(state, player) * (i32::from(depth) + 1);
    }
    let mut best = -i32::MAX;
    for m in moves.iter() {
        let next = strategy.do_move(state, m, player);
        best = best.max(-full_search(strategy, &next, !player, depth - 1));
    }
    best
}

fn full_scores<T: Strategy>(strategy: &mut T, state: &T::State, max_level: u8) -> Vec<i32> {
    let moves = T::possible_moves(state);
    moves
        .iter()
        .map(|m| {
            let next = strategy.do_move(state, m, Player::Max);
            -full_search(strategy, &next, Player::Min, max_level - 1)
        })
        .collect()
}

fn scores<M>(moves: &Vec<ScoredMove<M>>) -> Vec<i32> {
    moves.iter().map(|m| m.score).collect()
}

#[test]
fn pruning_does_not_show_in_the_scores_of_tic_tac_toe() {
    let boards = [
        [E, E, E, E, E, E, E, E, E],
        [X, E, E, E, O, E, E, E, E],
        [X, X, E, O, O, E, E, E, E],
        [X, O, X, E, O, E, E, E, E],
        [X, O, E, E, E, E, E, E, X],
    ];
    for cells in boards {
        for max_level in 1..=6u8 {
            let board = ttt::GameBoard::new(cells, Player::Min);
            let searched = score_possible_moves(&mut ttt::Strategy::default(), &board, max_level);
            let full = full_scores(&mut ttt::Strategy::default(), &board, max_level);
            assert_eq!(scores(&searched), full);
        }
    }
}

#[test]
fn pruning_does_not_show_in_the_scores_of_the_lights() {
    let boards = [
        [EMPTY; 9],
        [GREEN, EMPTY, EMPTY, EMPTY, YELLOW, EMPTY, EMPTY, EMPTY, EMPTY],
        [RED, RED, EMPTY, YELLOW, YELLOW, EMPTY, GREEN, EMPTY, GREEN],
        [YELLOW, GREEN, YELLOW, RED, GREEN, EMPTY, EMPTY, RED, EMPTY],
    ];
    for cells in boards {
        for max_level in 1..=5u8 {
            let board = stoplight::GameBoard::new(cells, Player::Min);
            let searched =
                score_possible_moves(&mut stoplight::Strategy::new(NullCache), &board, max_level);
            let full = full_scores(&mut stoplight::Strategy::new(NullCache), &board, max_level);
            assert_eq!(scores(&searched), full);
        }
    }
}

#[test]
fn the_cache_does_not_show_in_the_scores() {
    let boards = [
        [EMPTY; 9],
        [GREEN, EMPTY, EMPTY, EMPTY, YELLOW, EMPTY, EMPTY, EMPTY, EMPTY],
        [RED, RED, EMPTY, YELLOW, YELLOW, EMPTY, GREEN, EMPTY, GREEN],
        [YELLOW, GREEN, YELLOW, RED, GREEN, EMPTY, EMPTY, RED, EMPTY],
    ];
    for cells in boards {
        for max_level in 1..=7u8 {
            let board = stoplight::GameBoard::new(cells, Player::Max);
            let cached = score_possible_moves(
                &mut stoplight::Strategy::new(HashMapCache::default()),
                &board,
                max_level,
            );
            let plain =
                score_possible_moves(&mut stoplight::Strategy::new(NullCache), &board, max_level);
            assert_eq!(scores(&cached), scores(&plain));
            let indices = |moves: &Vec<ScoredMove<_>>| -> Vec<usize> {
                moves.iter().map(|m: &ScoredMove<SymmetricMove<usize,
                    GridSymmetry3x3>>| m.min_max_move.0).collect()
            };
            assert_eq!(indices(&cached), indices(&plain));
        }
    }
}

#[test]
fn a_cache_that_is_used_again_gives_the_same_scores() {
    let board = stoplight::GameBoard::empty();
    let mut strategy = stoplight::Strategy::new(HashMapCache::default());
    let first = score_possible_moves(&mut strategy, &board, 8);
    let second = score_possible_moves(&mut strategy, &board, 8);
    assert_eq!(scores(&first), scores(&second));
}

#[test]
fn a_win_at_the_end_counts_for_the_levels_that_are_left() {
    // one cell is left, and Max wins by marking it
    let cells = [
        X, X, E,
        O, O, X,
        X, O, O,
    ];
    let board = ttt::GameBoard::new(cells, Player::Min);
    for max_level in [1u8, 2, 3, 10, 255] {
        let searched = score_possible_moves(&mut ttt::Strategy::default(), &board, max_level);
        assert_eq!(searched.len(), 1);
        assert_eq!(*searched[0].min_max_move.index(), 2);
        assert_eq!(searched[0].score, i32::from(max_level));
    }
}

#[test]
fn a_search_of_one_level_scores_the_states_after_the_moves() {
    let cells = [
        X, X, E,
        O, O, E,
        E, E, E,
    ];
    let board = ttt::GameBoard::new(cells, Player::Min);
    let searched = score_possible_moves(&mut ttt::Strategy::default(), &board, 1);
    let indices: Vec<usize> = searched.iter().map(|m| *m.min_max_move.index()).collect();
    assert_eq!(indices, vec![2, 5, 6, 7, 8]);
    assert_eq!(scores(&searched), vec![1, 0, 0, 0, 0]);

    // two levels: Min answers, and takes the win where Max left it
    let searched = score_possible_moves(&mut ttt::Strategy::default(), &board, 2);
    assert_eq!(scores(&searched), vec![1, 0, -1, -1, -1]);
}

#[test]
fn alpha_beta_gives_all_the_best_moves() {
    let cells = [
        X, X, E,
        O, O, E,
        E, E, E,
    ];
    let mut board = ttt::GameBoard::new(cells, Player::Min);
    let best = alpha_beta(&mut ttt::Strategy::default(), &mut board, 1);
    assert_eq!(best.len(), 1);
    assert_eq!(*best[0].min_max_move.index(), 2);
    assert_eq!(best[0].score, 1);
    assert_eq!(board, ttt::GameBoard::new(cells, Player::Min));

    let mut empty = ttt::GameBoard::empty();
    let best = alpha_beta(&mut ttt::Strategy::default(), &mut empty, 1);
    let indices: Vec<usize> = best.iter().map(|m| *m.min_max_move.index()).collect();
    assert_eq!(indices, vec![4, 0, 1]);
    assert_eq!(scores(&best), vec![0, 0, 0]);
}

#[test]
fn a_state_is_worth_to_one_side_what_it_costs_the_other() {
    let boards = [
        [E, E, E, E, E, E, E, E, E],
        [X, X, X, O, O, E, E, E, E],
        [O, O, O, X, X, E, X, E, E],
        [X, O, O, O, X, X, X, O, O],
    ];
    let mut strategy = ttt::Strategy::default();
    for cells in boards {
        for last in [Player::Min, Player::Max] {
            let board = ttt::GameBoard::new(cells, last);
            assert_eq!(
                strategy.score(&board, Player::Max),
                -strategy.score(&board, Player::Min)
            );
        }
    }
    assert_eq!(strategy.score(&ttt::GameBoard::new(boards[1], Player::Max), Player::Max), 1);
    assert_eq!(strategy.score(&ttt::GameBoard::new(boards[2], Player::Max), Player::Max), -1);
    assert_eq!(strategy.score(&ttt::GameBoard::new(boards[3], Player::Max), Player::Max), 0);
}

#[test]
fn the_later_move_counts_on_the_score_board() {
    let moves = vec![
        ScoredMove::new(5, SymmetricMove(0, GridSymmetry3x3::new(GridSymmetryAxis::Vertical))),
        ScoredMove::new(3, SymmetricMove(2, GridSymmetry3x3::none())),
        ScoredMove::new(-4, SymmetricMove(7, GridSymmetry3x3::new(GridSymmetryAxes::all()))),
    ];
    assert_eq!(to_score_board(&moves), [5, -4, 3, -4, 0, -4, 0, -4, 0]);
    assert_eq!(to_score_board(&Vec::new()), [0; 9]);
}

#[test]
fn a_scored_move_expands_to_scored_positions() {
    let scored = ScoredMove::new(7, SymmetricMove(3usize, GridSymmetry3x3::new(
        GridSymmetryAxes::all())));
    assert_eq!(
        scored.expand(),
        vec![
            ScoredMove::new(7, 3),
            ScoredMove::new(7, 5),
            ScoredMove::new(7, 3),
            ScoredMove::new(7, 3),
            ScoredMove::new(7, 1),
            ScoredMove::new(7, 3),
            ScoredMove::new(7, 7),
        ]
    );
}

#[test]
fn all_move_indices_come_once() {
    let moves = vec![
        ScoredMove::new(5, SymmetricMove(0, GridSymmetry3x3::new(GridSymmetryAxes::all()))),
        ScoredMove::new(5, SymmetricMove(2, GridSymmetry3x3::none())),
        ScoredMove::new(1, SymmetricMove(2, GridSymmetry3x3::none())),
    ];
    let indices = stoplight::all_move_indices(moves.clone());
    assert_eq!(
        indices,
        vec![
            ScoredMove::new(5, 0),
            ScoredMove::new(5, 2),
            ScoredMove::new(5, 6),
            ScoredMove::new(5, 8),
            ScoredMove::new(1, 2),
        ]
    );
    for _ in 0..20 {
        let chosen = stoplight::choose_random_move(moves.clone());
        assert!(indices.contains(&chosen));
    }
    let one = vec![ScoredMove::new(9, SymmetricMove(4, GridSymmetry3x3::none()))];
    assert_eq!(stoplight::choose_random_move(one), ScoredMove::new(9, 4));
}

#[test]
fn settle_choice_takes_the_choice() {
    let candidates = vec![ScoredMove::new(1, 0usize), ScoredMove::new(2, 1usize)];
    assert_eq!(
        stoplight::settle_choice(&candidates, Some(ScoredMove::new(2, 1))),
        ScoredMove::new(2, 1)
    );
    assert_eq!(stoplight::settle_choice(&candidates, None), ScoredMove::new(1, 0));
}

#[test]
fn players_take_turns() {
    assert_eq!(!Player::Max, Player::Min);
    assert_eq!(!Player::Min, Player::Max);
}

#[test]
fn the_usual_score() {
    assert_eq!(default_score(ttt::BoardStatus::MaxWon, Player::Max), 1);
    assert_eq!(default_score(ttt::BoardStatus::MaxWon, Player::Min), -1);
    assert_eq!(default_score(ttt::BoardStatus::MinWon, Player::Max), -1);
    assert_eq!(default_score(ttt::BoardStatus::MinWon, Player::Min), 1);
    assert_eq!(default_score(ttt::BoardStatus::Draw, Player::Min), 0);
    assert_eq!(default_score(ttt::BoardStatus::Ongoing, Player::Max), 0);
    assert_eq!(default_score(stoplight::BoardStatus::Ongoing, Player::Max), 0);
    assert_eq!(ttt::Strategy::score_board_state(ttt::BoardStatus::MinWon, Player::Min), 1);
}

#[test]
fn the_first_winning_line_is_found() {
    let board: Board3x3<ttt::CellState> = Board3x3::new([X, X, X, O, O, O, E, E, E], Player::Max);
    assert_eq!(board.winning_indices(), Some(&[0, 1, 2]));
    let board: Board3x3<ttt::CellState> = Board3x3::new([X, O, E, X, O, E, X, O, E], Player::Max);
    assert_eq!(board.winning_indices(), Some(&[0, 3, 6]));
    let board: Board3x3<ttt::CellState> = Board3x3::new([E, E, O, E, O, E, O, E, E], Player::Max);
    assert_eq!(board.winning_indices(), Some(&[2, 4, 6]));
    let board: Board3x3<ttt::CellState> = Board3x3::empty();
    assert_eq!(board.winning_indices(), None);
    assert_eq!(board.last_player(), Player::Max);
    assert_eq!(board.symmetry().axes(), GridSymmetryAxes::all());
}

#[test]
fn counters_count() {
    let mut stats = SimpleStats::default();
    stats.record_prune();
    stats.record_cache_hit();
    stats.record_cache_hit();
    stats.record_cache_miss();
    stats.record_state_scored();
    stats.record_state_scored();
    stats.record_state_scored();
    assert_eq!(stats.prune_count, 1);
    assert_eq!(stats.cache_hit_count, 2);
    assert_eq!(stats.cache_miss_count, 1);
    assert_eq!(stats.state_scored_count, 3);
    let mut none = NullStats::default();
    none.record_prune();
    none.record_cache_hit();
    none.record_cache_miss();
    none.record_state_scored();
}

fn lights(cells: [stoplight::CellState; 9], last_player: Player) -> stoplight::GameBoard {
    stoplight::GameBoard::new(cells, last_player)
}

fn filed(value: i32, level: u8, flag: CacheFlag) -> Option<CacheEntry> {
    Some(CacheEntry { value, level, flag })
}

const FEW_LIGHTS: [stoplight::CellState; 9] = [RED, RED, RED, YELLOW, RED, RED, EMPTY, RED, YELLOW];

#[test]
fn what_the_search_found_is_in_the_cache() {
    let board = lights(FEW_LIGHTS, Player::Min);
    let mut strategy = stoplight::Strategy::new(HashMapCache::default());
    let searched = score_possible_moves(&mut strategy, &board, 5);
    let indices: Vec<usize> = searched.iter().map(|m| *m.min_max_move.index()).collect();
    assert_eq!(indices, vec![3, 6, 8]);
    assert_eq!(scores(&searched), vec![1, 1, 1]);
    // the state after the first move was searched with four levels left in
    // the open window
    let next = strategy.do_move(&board, &searched[0].min_max_move, Player::Max);
    assert_eq!(next, lights([RED, RED, RED, RED, RED, RED, EMPTY, RED, YELLOW], Player::Max));
    assert_eq!(strategy.cache().get(&next), filed(-1, 4, CacheFlag::Exact));
    // a result at the upper end of the window is a lower bound
    assert_eq!(
        strategy.cache().get(&lights(
            [RED, RED, RED, RED, RED, RED, GREEN, RED, RED],
            Player::Max
        )),
        filed(-1, 2, CacheFlag::LowerBound)
    );
    // a result at the lower end of the window is an upper bound
    assert_eq!(
        strategy.cache().get(&lights(
            [RED, RED, RED, RED, RED, RED, YELLOW, RED, RED],
            Player::Min
        )),
        filed(1, 1, CacheFlag::UpperBound)
    );
    // the state that was searched from is not filed, nor one that was scored
    // with no level left
    assert_eq!(strategy.cache().get(&board), None);
    assert_eq!(strategy.cache().get(&lights([RED; 9], Player::Max)), None);
    assert_eq!(strategy.cache().get(&lights([RED; 9], Player::Min)), None);
}

#[test]
fn a_search_of_one_level_files_nothing() {
    let board = lights(FEW_LIGHTS, Player::Min);
    let mut strategy = stoplight::Strategy::new(HashMapCache::default());
    let searched = score_possible_moves(&mut strategy, &board, 1);
    assert_eq!(scores(&searched), vec![1, 1, 1]);
    for m in searched.iter() {
        let next = strategy.do_move(&board, &m.min_max_move, Player::Max);
        assert_eq!(strategy.cache().get(&next), None);
    }
    let searched = score_possible_moves(&mut strategy, &board, 2);
    assert_eq!(scores(&searched), vec![-1, -1, -1]);
    for m in searched.iter() {
        let next = strategy.do_move(&board, &m.min_max_move, Player::Max);
        assert_eq!(strategy.cache().get(&next), filed(1, 1, CacheFlag::Exact));
    }
}

#[test]
fn an_entry_is_used_where_it_has_the_levels() {
    let board = lights(FEW_LIGHTS, Player::Min);
    let next = lights([RED, RED, RED, RED, RED, RED, EMPTY, RED, YELLOW], Player::Max);
    let mut strategy = stoplight::Strategy::new(HashMapCache::default());
    // an exact entry of enough levels is the result, and stays
    strategy.cache().set(&next, CacheEntry { value: 7, level: 4, flag: CacheFlag::Exact });
    assert_eq!(scores(&score_possible_moves(&mut strategy, &board, 5)), vec![-7, 1, 1]);
    assert_eq!(strategy.cache().get(&next), filed(7, 4, CacheFlag::Exact));
    // with more levels to search it is passed over and replaced
    assert_eq!(scores(&score_possible_moves(&mut strategy, &board, 6)), vec![2, 2, 2]);
    assert_eq!(strategy.cache().get(&next), filed(-2, 5, CacheFlag::Exact));
}

#[test]
fn a_bound_in_the_cache_moves_the_window() {
    let board = lights(FEW_LIGHTS, Player::Min);
    let next = lights([RED, RED, RED, RED, RED, RED, EMPTY, RED, YELLOW], Player::Max);
    // an upper bound lowers the upper end, which the result then reaches
    let mut strategy = stoplight::Strategy::new(HashMapCache::default());
    strategy.cache().set(&next, CacheEntry { value: -1, level: 9, flag: CacheFlag::UpperBound });
    assert_eq!(scores(&score_possible_moves(&mut strategy, &board, 5)), vec![1, 1, 1]);
    assert_eq!(strategy.cache().get(&next), filed(-1, 4, CacheFlag::LowerBound));
    // a lower bound raises the lower end; the result is filed by the lower
    // end as it was before
    let mut strategy = stoplight::Strategy::new(HashMapCache::default());
    strategy.cache().set(&next, CacheEntry { value: 3, level: 9, flag: CacheFlag::LowerBound });
    assert_eq!(scores(&score_possible_moves(&mut strategy, &board, 5)), vec![1, 1, 1]);
    assert_eq!(strategy.cache().get(&next), filed(-1, 4, CacheFlag::Exact));
}
