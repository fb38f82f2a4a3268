use minmax::min_max::cache::{CacheEntry, CacheFlag};
use minmax::min_max::in_place::{
    all_max, all_moves_scored, alpha_beta, normalise, to_score_board, MinMaxStrategy, SymmetricMove,
    Symmetry,
};
use minmax::min_max::{Player, ScoredMove};
use std::collections::HashMap;

/// A heap of stones that the sides take one, two or three stones from in
/// turn. Who takes the last stone has won.
#[derive(Debug, Clone, PartialEq, Eq, Hash)]
struct Heap {
    stones: u8,
    taken: Vec<(u8, Player)>,
}

fn heap(stones: u8) -> Heap {
    Heap { stones, taken: Vec::new() }
}

struct Takes {
    remembered: Option<HashMap<Heap, CacheEntry>>,
}

impl MinMaxStrategy<Heap, u8> for Takes {
    // What follows up to `possible_moves` says what the game is to those who
    // prove something of it. Nothing calls it.
    fn valid(_: &Heap) -> bool {
        unreachable!()
    }

    fn moves(_: &Heap) -> vstd::seq::Seq<u8> {
        unreachable!()
    }

    fn terminal(_: &Heap) -> bool {
        unreachable!()
    }

    fn played(_: &Heap, _: u8, _: Player) -> Heap {
        unreachable!()
    }

    fn value(_: &Heap, _: Player) -> vstd::prelude::int {
        unreachable!()
    }

    fn ranked() -> bool {
        unreachable!()
    }

    fn ply(_: &Heap) -> vstd::prelude::nat {
        unreachable!()
    }

    fn mover(_: &Heap) -> Player {
        unreachable!()
    }

    fn keeps() -> bool {
        unreachable!()
    }

    fn entries(&self) -> vstd::map::Map<Heap, CacheEntry> {
        unreachable!()
    }

    fn lemma_played(_: &Heap, _: vstd::prelude::int, _: Player) {
        unreachable!()
    }

    fn lemma_value(_: &Heap, _: Player) {
        unreachable!()
    }

    fn possible_moves(state: &Heap) -> Vec<u8> {
        (1..=3).filter(|take| *take <= state.stones).collect()
    }

    fn is_terminal(state: &Heap) -> bool {
        state.stones == 0
    }

    fn score(state: &Heap, player: Player) -> i32 {
        match state.taken.last() {
            Some((_, last)) if state.stones == 0 => {
                if *last == player {
                    1
                } else {
                    -1
                }
            }
            _ => 0,
        }
    }

    fn do_move(state: &mut Heap, min_max_move: &u8, player: Player) {
        state.stones -= *min_max_move;
        state.taken.push((*min_max_move, player));
    }

    fn undo_move(state: &mut Heap, min_max_move: &u8, player: Player) {
        assert_eq!(state.taken.pop(), Some((*min_max_move, player)));
        state.stones += *min_max_move;
    }

    fn cache(&mut self, state: &Heap, entry: CacheEntry) {
        if let Some(remembered) = self.remembered.as_mut() {
            remembered.insert(state.clone(), entry);
        }
    }

    fn lookup(&mut self, state: &Heap) -> Option<CacheEntry> {
        self.remembered.as_ref().and_then(|remembered| remembered.get(state).cloned())
    }
}

fn full_search(state: &mut Heap, player: Player, depth: u8) -> i32 {
    if Takes::is_terminal(state) || depth == 0 {
        return Takes::score(state, player) * (i32::from(depth) + 1);
    }
    let mut best = -i32::MAX;
    for m in Takes::possible_moves(state) {
        Takes::do_move(state, &m, player);
        best = best.max(-full_search(state, !player, depth - 1));
        Takes::undo_move(state, &m, player);
    }
    best
}

#[test]
fn the_search_on_one_state_scores_as_the_full_search_does() {
    for stones in 1..=12u8 {
        for max_level in 1..=12u8 {
            for remembers in [false, true] {
                let mut strategy = Takes {
                    remembered: if remembers { Some(HashMap::new()) } else { None },
                };
                let mut state = heap(stones);
                let scored = all_moves_scored(&mut strategy, &mut state, max_level);
                assert_eq!(state, heap(stones));
                let moves: Vec<u8> = scored.iter().map(|m| m.min_max_move).collect();
                assert_eq!(moves, Takes::possible_moves(&state));
                for m in scored.iter() {
                    let mut next = heap(stones);
                    Takes::do_move(&mut next, &m.min_max_move, Player::Max);
                    assert_eq!(m.score, -full_search(&mut next, Player::Min, max_level - 1));
                }
            }
        }
    }
}

#[test]
fn a_win_that_comes_sooner_scores_higher() {
    let mut strategy = Takes { remembered: None };
    // three stones: to take all three wins at once
    let scored = all_moves_scored(&mut strategy, &mut heap(3), 5);
    let scores: Vec<i32> = scored.iter().map(|m| m.score).collect();
    assert_eq!(scores, vec![-4, -4, 5]);
    let best = alpha_beta(&mut strategy, &mut heap(3), 5);
    assert_eq!(best, vec![ScoredMove::new(5, 3)]);
    // four stones: whatever Max takes, Min takes the rest
    let best = alpha_beta(&mut strategy, &mut heap(4), 5);
    assert_eq!(
        best,
        vec![ScoredMove::new(-4, 1), ScoredMove::new(-4, 2), ScoredMove::new(-4, 3)]
    );
}

#[test]
fn what_is_remembered_is_used() {
    let mut strategy = Takes { remembered: Some(HashMap::new()) };
    let mut state = heap(2);
    Takes::do_move(&mut state, &1, Player::Max);
    strategy.cache(&state, CacheEntry { value: 40, level: 9, flag: CacheFlag::Exact });
    let scored = all_moves_scored(&mut strategy, &mut heap(2), 3);
    let scores: Vec<i32> = scored.iter().map(|m| m.score).collect();
    assert_eq!(scores, vec![-40, 3]);
    // an entry of a search that was less deep is not used
    strategy.cache(&state, CacheEntry { value: 40, level: 1, flag: CacheFlag::Exact });
    let scored = all_moves_scored(&mut strategy, &mut heap(2), 3);
    let scores: Vec<i32> = scored.iter().map(|m| m.score).collect();
    assert_eq!(scores, vec![-2, 3]);
}

#[test]
fn all_max_keeps_the_ties() {
    assert_eq!(all_max(Vec::<ScoredMove<u8>>::new()), None);
    let moves = vec![
        ScoredMove::new(1, 10u8),
        ScoredMove::new(3, 11),
        ScoredMove::new(2, 12),
        ScoredMove::new(3, 13),
        ScoredMove::new(-5, 14),
    ];
    assert_eq!(all_max(moves), Some(vec![ScoredMove::new(3, 11), ScoredMove::new(3, 13)]));
    let lowest = vec![ScoredMove::new(i32::MIN, 1u8), ScoredMove::new(i32::MIN, 2)];
    assert_eq!(all_max(lowest.clone()), Some(lowest));
}

#[test]
fn a_mirroring_gives_the_pair_of_a_cell() {
    assert_eq!(Symmetry::YAxes.symmetric_pairs(), [(0, 2), (3, 5), (6, 8)]);
    assert_eq!(Symmetry::XAxes.symmetric_pairs(), [(0, 6), (1, 7), (2, 8)]);
    assert_eq!(Symmetry::TopBottom.symmetric_pairs(), [(1, 3), (2, 6), (5, 7)]);
    assert_eq!(Symmetry::BottomTop.symmetric_pairs(), [(0, 8), (1, 5), (3, 7)]);
    assert_eq!(Symmetry::YAxes.mirror(5), vec![3, 5]);
    assert_eq!(Symmetry::YAxes.mirror(3), vec![3, 5]);
    assert_eq!(Symmetry::YAxes.mirror(4), vec![4]);
    assert_eq!(Symmetry::BottomTop.mirror(8), vec![0, 8]);
    assert_eq!(Symmetry::BottomTop.mirror(20), vec![20]);
}

#[test]
fn normalise_passes_over_the_list_once() {
    let none = Vec::new();
    for index in 0..9 {
        assert_eq!(normalise(&none, index), index);
    }
    let y = vec![Symmetry::YAxes];
    assert_eq!(normalise(&y, 2), 0);
    assert_eq!(normalise(&y, 0), 0);
    assert_eq!(normalise(&y, 8), 6);
    assert_eq!(normalise(&y, 7), 7);
    // 8 goes to 6 at the first mirroring and from there to 0 at the second
    assert_eq!(normalise(&vec![Symmetry::YAxes, Symmetry::XAxes], 8), 0);
    // the other way round 8 goes to 2 and stays there: the second mirroring
    // sends 2 nowhere
    assert_eq!(normalise(&vec![Symmetry::XAxes, Symmetry::TopBottom], 8), 2);
    assert_eq!(normalise(&vec![Symmetry::TopBottom, Symmetry::XAxes], 8), 2);
    assert_eq!(normalise(&vec![Symmetry::BottomTop], 7), 3);
    assert_eq!(normalise(&vec![Symmetry::BottomTop], 3), 3);
}

#[test]
fn a_move_with_mirrorings_stands_for_cells() {
    let alone = SymmetricMove(4, Vec::new());
    assert_eq!(alone.index(), 4);
    assert_eq!(alone.expanded_index(), vec![4]);
    let corner = SymmetricMove(0, vec![Symmetry::YAxes, Symmetry::XAxes, Symmetry::TopBottom]);
    assert_eq!(corner.expanded_index(), vec![0, 2, 6]);
    let edge = SymmetricMove(1, vec![Symmetry::YAxes, Symmetry::BottomTop, Symmetry::TopBottom]);
    assert_eq!(edge.expanded_index(), vec![1, 5, 3]);
}

#[test]
fn the_later_move_counts_on_the_board_of_scores() {
    let moves = vec![
        ScoredMove::new(5, SymmetricMove(0, vec![Symmetry::YAxes])),
        ScoredMove::new(3, SymmetricMove(2, Vec::new())),
        ScoredMove::new(-4, SymmetricMove(7, vec![Symmetry::XAxes, Symmetry::BottomTop])),
    ];
    assert_eq!(to_score_board(&moves), [5, -4, 3, -4, 0, 0, 0, -4, 0]);
    assert_eq!(to_score_board(&Vec::new()), [0; 9]);
}

fn after(stones: u8, taken: &[(u8, Player)]) -> Heap {
    Heap { stones, taken: taken.to_vec() }
}

fn remembered(value: i32, level: u8, flag: CacheFlag) -> Option<CacheEntry> {
    Some(CacheEntry { value, level, flag })
}

#[test]
fn what_was_found_is_remembered_with_its_levels() {
    let mut strategy = Takes { remembered: Some(HashMap::new()) };
    let scored = all_moves_scored(&mut strategy, &mut heap(4), 5);
    let scores: Vec<i32> = scored.iter().map(|m| m.score).collect();
    assert_eq!(scores, vec![-4, -4, -4]);
    // inside the window: the value is exact
    assert_eq!(
        strategy.lookup(&after(3, &[(1, Player::Max)])),
        remembered(4, 4, CacheFlag::Exact)
    );
    assert_eq!(
        strategy.lookup(&after(2, &[(1, Player::Max), (1, Player::Min)])),
        remembered(3, 3, CacheFlag::Exact)
    );
    // at the upper end of the window: the value is a lower bound
    assert_eq!(
        strategy.lookup(&after(1, &[(1, Player::Max), (2, Player::Min)])),
        remembered(3, 3, CacheFlag::LowerBound)
    );
    // where the game is over nothing is remembered
    assert_eq!(strategy.lookup(&after(0, &[(1, Player::Max), (3, Player::Min)])), None);
    assert_eq!(strategy.remembered.as_ref().map(|all| all.len()), Some(7));
}

#[test]
fn a_bound_that_is_remembered_moves_the_window() {
    let state = after(1, &[(1, Player::Max)]);
    // an upper bound lowers the upper end, which the result then reaches
    let mut strategy = Takes { remembered: Some(HashMap::new()) };
    strategy.cache(&state, CacheEntry { value: 1, level: 9, flag: CacheFlag::UpperBound });
    let scored = all_moves_scored(&mut strategy, &mut heap(2), 3);
    assert_eq!(scored.iter().map(|m| m.score).collect::<Vec<i32>>(), vec![-2, 3]);
    assert_eq!(strategy.lookup(&state), remembered(2, 2, CacheFlag::LowerBound));
    // a lower bound raises the lower end; the result is filed by the lower
    // end as it was before
    let mut strategy = Takes { remembered: Some(HashMap::new()) };
    strategy.cache(&state, CacheEntry { value: 5, level: 9, flag: CacheFlag::LowerBound });
    let scored = all_moves_scored(&mut strategy, &mut heap(2), 3);
    assert_eq!(scored.iter().map(|m| m.score).collect::<Vec<i32>>(), vec![-2, 3]);
    assert_eq!(strategy.lookup(&state), remembered(2, 2, CacheFlag::Exact));
    // an entry of fewer levels is passed over and replaced
    let mut strategy = Takes { remembered: Some(HashMap::new()) };
    strategy.cache(&state, CacheEntry { value: 40, level: 1, flag: CacheFlag::Exact });
    let scored = all_moves_scored(&mut strategy, &mut heap(2), 3);
    assert_eq!(scored.iter().map(|m| m.score).collect::<Vec<i32>>(), vec![-2, 3]);
    assert_eq!(strategy.lookup(&state), remembered(2, 2, CacheFlag::Exact));
}

#[test]
fn a_strategy_that_remembers_nothing_scores_the_same() {
    let mut plain = Takes { remembered: None };
    let mut keeping = Takes { remembered: Some(HashMap::new()) };
    for stones in 1..=7u8 {
        for max_level in 1..=8u8 {
            let one = all_moves_scored(&mut plain, &mut heap(stones), max_level);
            let other = all_moves_scored(&mut keeping, &mut heap(stones), max_level);
            assert_eq!(one, other);
        }
    }
}
