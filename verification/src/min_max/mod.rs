//! The search itself: players, scored moves, the contract a game has to meet,
//! and the alpha-beta evaluation.

pub mod cache;
pub mod in_place;
pub mod stats;
pub mod symmetry;

use crate::min_max::cache::{Cache, CacheEntry, CacheFlag};
use crate::min_max::stats::Stats;
use crate::min_max::symmetry::{
    lemma_expansion_on_grid, GridSymmetryAxisContext, GridSymmetryAxisContext3x3, SymmetricMove,
    SymmetricMove3x3, Symmetry,
};
use itertools::Itertools;
use std::ops::Not;
use vstd::prelude::*;

verus! {

/// Stands for a score that is out of every game's reach: the open search window
/// is `(-INFINITY, INFINITY)`. Both of its ends can be negated, which the
/// smallest `i32` cannot.
pub const INFINITY: i32 = i32::MAX;

/// The largest size of a score that a game may give a state. The search
/// multiplies a score by up to 256.
pub const SCORE_LIMIT: i32 = 8_388_607;

/// The two sides of a game. `Max` is the side the search plays for.
#[derive(Debug, Copy, Clone, PartialEq, Eq, Hash, Structural)]
pub enum Player {
    Min,
    Max,
}

impl Player {
    /// The other side.
    pub open spec fn opponent(self) -> Player {
        match self {
            Player::Min => Player::Max,
            Player::Max => Player::Min,
        }
    }
}

impl core::ops::Not for Player {
    type Output = Player;

    fn not(self) -> (r: Player) {
        match self {
            Player::Min => Player::Max,
            Player::Max => Player::Min,
        }
    }
}

impl vstd::std_specs::ops::NotSpecImpl for Player {
    open spec fn obeys_not_spec() -> bool {
        true
    }

    open spec fn not_req(self) -> bool {
        true
    }

    open spec fn not_spec(self) -> Player {
        self.opponent()
    }
}

/// A move together with the score the search gave it.
#[derive(Debug, Clone, PartialEq, Eq, Hash)]
pub struct ScoredMove<M> {
    pub score: i32,
    pub min_max_move: M,
}

impl<M> ScoredMove<M> {
    pub fn new(score: i32, min_max_move: M) -> (r: ScoredMove<M>)
        ensures
            r.score == score,
            r.min_max_move == min_max_move,
    {
        ScoredMove { score, min_max_move }
    }
}

/// Gives a move the score `score`.
pub open spec fn with_score<M>(score: i32) -> spec_fn(M) -> ScoredMove<M> {
    |min_max_move: M| ScoredMove { score, min_max_move }
}

impl<I, S: Symmetry<I>> ScoredMove<SymmetricMove<I, S>> {
    /// Every move that the move stands for, each with the score of the move.
    pub fn expand(&self) -> (r: Vec<ScoredMove<I>>)
        ensures
            r@ == self.min_max_move.1.expansion(&self.min_max_move.0).map_values(
                with_score(self.score),
            ),
    {
        let score = self.score;
        let indices = self.min_max_move.expanded_indices();
        let ghost all = indices@;
        let ghost scored = with_score::<I>(score);
        let mut moves: Vec<ScoredMove<I>> = Vec::new();
        for index in it: indices
            invariant
                it.seq() == all,
                scored == with_score::<I>(score),
                moves@ == all.take(it.index()).map_values(scored),
        {
            proof {
                assert(all.take(it.index() + 1).map_values(scored) =~= all.take(
                    it.index(),
                ).map_values(scored).push(scored(index)));
            }
            moves.push(ScoredMove::new(score, index));
        }
        proof {
            assert(all.take(all.len() as int) =~= all);
        }
        moves
    }
}

/// What a game has to offer for the search to play it: its moves, what a move
/// leads to, and what a state is worth.
pub trait Strategy: Sized {
    type State;

    type Move: View;

    type Cache: Cache<Self::State>;

    type Stats: Stats;

    /// The states that the game can be played from.
    spec fn valid(state: &Self::State) -> bool;

    /// The legal moves of a state, in the order in which they are searched.
    /// A state without moves is terminal.
    spec fn moves(state: &Self::State) -> Seq<<Self::Move as View>::V>;

    /// The moves that can be played in a state: the legal moves, and what
    /// else the game takes, such as a move that a legal move stands for.
    spec fn accepts(state: &Self::State, mv: <Self::Move as View>::V) -> bool;

    /// The state that a move of `player` leads to.
    spec fn apply(state: &Self::State, mv: <Self::Move as View>::V, player: Player) -> Self::State;

    /// What a state is worth to `player`.
    spec fn value(state: &Self::State, player: Player) -> int;

    /// Whether a state tells who moved last and how many moves led to it. In
    /// such a game one search meets a state at one depth only, which is what
    /// lets a cache answer for it.
    spec fn ranked() -> bool;

    /// The number of moves that led to a state.
    spec fn ply(state: &Self::State) -> nat;

    /// Who moved last.
    spec fn mover(state: &Self::State) -> Player;

    /// The cache that the strategy holds.
    spec fn held_cache(&self) -> Self::Cache;

    /// The counters that the strategy holds.
    spec fn held_stats(&self) -> Self::Stats;

    /// A legal move can be played and leads to a state of the game, and in a
    /// ranked game to one that is a move further on and that `player` moved
    /// last in.
    proof fn lemma_apply(state: &Self::State, i: int, player: Player)
        requires
            Self::valid(state),
            0 <= i < Self::moves(state).len(),
        ensures
            Self::accepts(state, Self::moves(state)[i]),
            Self::valid(&Self::apply(state, Self::moves(state)[i], player)),
            Self::ranked() ==> Self::ply(&Self::apply(state, Self::moves(state)[i], player))
                == Self::ply(state) + 1,
            Self::ranked() ==> Self::mover(&Self::apply(state, Self::moves(state)[i], player))
                == player,
    ;

    /// No state is worth more than the limit.
    proof fn lemma_value(state: &Self::State, player: Player)
        requires
            Self::valid(state),
        ensures
            -SCORE_LIMIT <= Self::value(state, player) <= SCORE_LIMIT,
    ;

    fn possible_moves(state: &Self::State) -> (r: Vec<Self::Move>)
        requires
            Self::valid(state),
        ensures
            r.len() == Self::moves(state).len(),
            forall|i: int| 0 <= i < r.len() ==> (#[trigger] r[i])@ == Self::moves(state)[i],
    ;

    /// The state after a move, which need not be one of `possible_moves`.
    fn do_move(&mut self, state: &Self::State, mv: &Self::Move, player: Player) -> (r: Self::State)
        requires
            Self::valid(state),
            Self::accepts(state, mv@),
        ensures
            r == Self::apply(state, mv@, player),
            final(self).held_cache() == old(self).held_cache(),
            final(self).held_stats() == old(self).held_stats(),
    ;

    fn score(&mut self, state: &Self::State, player: Player) -> (r: i32)
        requires
            Self::valid(state),
        ensures
            r == Self::value(state, player),
            final(self).held_cache() == old(self).held_cache(),
            final(self).held_stats() == old(self).held_stats(),
    ;

    fn cache(&mut self) -> (r: &mut Self::Cache)
        ensures
            *r == old(self).held_cache(),
            final(self).held_cache() == *final(r),
            final(self).held_stats() == old(self).held_stats(),
    ;

    fn stats(&mut self) -> (r: &mut Self::Stats)
        ensures
            *r == old(self).held_stats(),
            final(self).held_stats() == *final(r),
            final(self).held_cache() == old(self).held_cache(),
    ;
}

/// What a state is worth to `player` when the search stops at it with `depth`
/// levels left: a result that is found sooner counts for more.
pub open spec fn leaf_score<T: Strategy>(state: &T::State, player: Player, depth: nat) -> int {
    T::value(state, player) * (depth + 1)
}

/// The value of a state to the player who is to move in it, by a full search
/// of `depth` levels: the best of the negated values of the states that the
/// moves lead to.
pub open spec fn negamax<T: Strategy>(state: &T::State, player: Player, depth: nat) -> int
    decreases depth, 1nat, 0nat,
{
    if depth == 0 || T::moves(state).len() == 0 {
        leaf_score::<T>(state, player, depth)
    } else {
        best_reply::<T>(state, player, depth, T::moves(state).len())
    }
}

/// The best that `player` gets from the first `n` moves of a state, and
/// `-INFINITY` from none.
pub open spec fn best_reply<T: Strategy>(state: &T::State, player: Player, depth: nat, n: nat)
    -> int
    decreases depth, 0nat, n,
{
    if depth == 0 || n == 0 {
        -INFINITY
    } else {
        let rest = best_reply::<T>(state, player, depth, (n - 1) as nat);
        let this = -negamax::<T>(
            &T::apply(state, T::moves(state)[n - 1], player),
            player.opponent(),
            (depth - 1) as nat,
        );
        if this > rest {
            this
        } else {
            rest
        }
    }
}

/// What a result `r` of a search in the window `(alpha, beta)` says of the
/// true value `v`: inside the window it is the value, at or below `alpha` it is
/// an upper bound, at or above `beta` a lower bound.
pub open spec fn brackets(r: int, v: int, alpha: int, beta: int) -> bool {
    &&& r <= alpha ==> v <= r
    &&& r >= beta ==> v >= r
    &&& alpha < r < beta ==> v == r
}

/// Whether an entry says what is true of the value `v`.
pub open spec fn entry_holds(entry: CacheEntry, v: int) -> bool {
    match entry.flag {
        CacheFlag::Exact => entry.value == v,
        CacheFlag::LowerBound => entry.value <= v,
        CacheFlag::UpperBound => v <= entry.value,
    }
}

/// Whether what the cache holds for `state` is true of it in a search that
/// ends `horizon` moves into the game: an entry that such a search would use
/// speaks of the value of the state at the depth that is left there.
pub open spec fn entry_sound<T: Strategy>(cache: T::Cache, state: T::State, horizon: int) -> bool {
    let entry = cache.entries()[state];
    (T::valid(&state) && cache.entries().contains_key(state) && T::ply(&state) <= horizon
        && entry.level >= horizon - T::ply(&state)) ==> entry_holds(
        entry,
        negamax::<T>(&state, T::mover(&state).opponent(), (horizon - T::ply(&state)) as nat),
    )
}

/// Whether a search that ends `horizon` moves into the game can rely on the
/// cache: it keeps nothing, or the game is ranked and every entry is sound.
pub open spec fn cache_sound<T: Strategy>(cache: T::Cache, horizon: int) -> bool {
    T::Cache::stores() ==> {
        &&& T::ranked()
        &&& forall|s: T::State| #[trigger] entry_sound::<T>(cache, s, horizon)
    }
}

/// Whether the value of `state`'s entry, if the cache holds one, can be negated.
pub open spec fn entry_bounded<T: Strategy>(cache: T::Cache, state: T::State) -> bool {
    cache.entries().contains_key(state) ==> -INFINITY <= cache.entries()[state].value <= INFINITY
}

/// Whether the value of every entry can be negated.
pub open spec fn cache_bounded<T: Strategy>(cache: T::Cache) -> bool {
    T::Cache::stores() ==> forall|s: T::State| #[trigger] entry_bounded::<T>(cache, s)
}

/// The value of a state lies within the limit times the levels searched.
pub proof fn lemma_negamax_bounded<T: Strategy>(state: &T::State, player: Player, depth: nat)
    requires
        T::valid(state),
    ensures
        -SCORE_LIMIT * (depth + 1) <= negamax::<T>(state, player, depth) <= SCORE_LIMIT * (depth
            + 1),
    decreases depth, 1nat, 0nat,
{
    if depth == 0 || T::moves(state).len() == 0 {
        lemma_leaf_bounded::<T>(state, player, depth);
    } else {
        lemma_best_reply_bounded::<T>(state, player, depth, T::moves(state).len());
    }
}

/// The score of a leaf lies within the limit times the levels left, plus one.
pub proof fn lemma_leaf_bounded<T: Strategy>(state: &T::State, player: Player, depth: nat)
    requires
        T::valid(state),
    ensures
        -SCORE_LIMIT * (depth + 1) <= leaf_score::<T>(state, player, depth) <= SCORE_LIMIT * (depth
            + 1),
{
    T::lemma_value(state, player);
    let v = T::value(state, player);
    assert(-SCORE_LIMIT * (depth + 1) <= v * (depth + 1) <= SCORE_LIMIT * (depth + 1))
        by (nonlinear_arith)
        requires
            -SCORE_LIMIT <= v <= SCORE_LIMIT,
            depth >= 0,
    ;
}

/// The best of at least one move lies within the limit times the levels
/// searched.
pub proof fn lemma_best_reply_bounded<T: Strategy>(
    state: &T::State,
    player: Player,
    depth: nat,
    n: nat,
)
    requires
        T::valid(state),
        depth > 0,
        0 < n <= T::moves(state).len(),
    ensures
        -SCORE_LIMIT * depth <= best_reply::<T>(state, player, depth, n) <= SCORE_LIMIT * depth,
    decreases depth, 0nat, n,
{
    let child = T::apply(state, T::moves(state)[n - 1], player);
    T::lemma_apply(state, n - 1, player);
    lemma_negamax_bounded::<T>(&child, player.opponent(), (depth - 1) as nat);
    if n > 1 {
        lemma_best_reply_bounded::<T>(state, player, depth, (n - 1) as nat);
    } else {
        assert(best_reply::<T>(state, player, depth, 0) == -INFINITY);
        assert(SCORE_LIMIT * depth >= 0) by (nonlinear_arith)
            requires
                depth > 0,
        ;
    }
}

/// More moves give the player no less.
pub proof fn lemma_best_reply_grows<T: Strategy>(
    state: &T::State,
    player: Player,
    depth: nat,
    m: nat,
    n: nat,
)
    requires
        m <= n,
    ensures
        best_reply::<T>(state, player, depth, m) <= best_reply::<T>(state, player, depth, n),
    decreases n,
{
    if m < n {
        lemma_best_reply_grows::<T>(state, player, depth, m, (n - 1) as nat);
    }
}

/// What a cache with these entries answers when it is asked for `state`.
pub open spec fn answer<T: Strategy>(
    entries: Map<T::State, CacheEntry>,
    state: &T::State,
) -> Option<CacheEntry> {
    if T::Cache::stores() && entries.contains_key(*state) {
        Some(entries[*state])
    } else {
        None
    }
}

/// The entries of a cache after it was given `entry` for `state`.
pub open spec fn remembered<T: Strategy>(
    entries: Map<T::State, CacheEntry>,
    state: &T::State,
    entry: CacheEntry,
) -> Map<T::State, CacheEntry> {
    if T::Cache::stores() {
        entries.insert(*state, entry)
    } else {
        entries
    }
}

/// The entry that a search of `state` with `depth` levels left makes use
/// of: the one that the cache answers with, if it comes from a search with
/// at least as many levels left. An entry of fewer levels counts as none.
pub open spec fn usable_entry<T: Strategy>(
    entries: Map<T::State, CacheEntry>,
    state: &T::State,
    depth: nat,
) -> Option<CacheEntry> {
    match answer::<T>(entries, state) {
        Some(entry) => if entry.level >= depth {
            Some(entry)
        } else {
            None
        },
        None => None,
    }
}

/// The lower end of the window after the entry was looked at: a lower bound
/// above it raises it.
pub open spec fn raised_alpha(entry: Option<CacheEntry>, alpha: int) -> int {
    match entry {
        Some(e) => if e.flag == CacheFlag::LowerBound && e.value > alpha {
            e.value as int
        } else {
            alpha
        },
        None => alpha,
    }
}

/// The upper end of the window after the entry was looked at: an upper bound
/// below it lowers it.
pub open spec fn lowered_beta(entry: Option<CacheEntry>, beta: int) -> int {
    match entry {
        Some(e) => if e.flag == CacheFlag::UpperBound && e.value < beta {
            e.value as int
        } else {
            beta
        },
        None => beta,
    }
}

/// Whether the entry settles the search at once: it is exact, or it closes
/// the window.
pub open spec fn settles(entry: Option<CacheEntry>, alpha: int, beta: int) -> bool {
    entry matches Some(e) && (e.flag == CacheFlag::Exact || raised_alpha(entry, alpha)
        >= lowered_beta(entry, beta))
}

/// How a result is filed: as an upper bound where it is at or below `alpha`,
/// else as a lower bound where it is at or above `beta`, else as exact.
pub open spec fn flag_of(result: int, alpha: int, beta: int) -> CacheFlag {
    if result <= alpha {
        CacheFlag::UpperBound
    } else if result >= beta {
        CacheFlag::LowerBound
    } else {
        CacheFlag::Exact
    }
}

/// What the search of a state gives, and what the cache holds after it. The
/// search of `depth` levels in the window `(alpha, beta)` goes as follows.
/// With no level left the state is scored and the cache is not touched.
/// Else the cache is asked: an entry that settles the search is the result.
/// Else a state without moves is scored, times the levels left and one.
/// Else the moves are searched in their order, and the best of them is the
/// result, which the cache is given for the state, with the levels left and
/// filed by the lower end of the window as it was passed in and by the upper
/// end as the entry left it.
pub open spec fn search<T: Strategy>(
    entries: Map<T::State, CacheEntry>,
    state: &T::State,
    player: Player,
    depth: nat,
    alpha: int,
    beta: int,
) -> (int, Map<T::State, CacheEntry>)
    decreases depth, 1nat, 0nat,
{
    let entry = usable_entry::<T>(entries, state, depth);
    if depth == 0 {
        (leaf_score::<T>(state, player, 0), entries)
    } else if settles(entry, alpha, beta) {
        (entry.unwrap().value as int, entries)
    } else if T::moves(state).len() == 0 {
        (leaf_score::<T>(state, player, depth), entries)
    } else {
        let upper = lowered_beta(entry, beta);
        let scan = searched_moves::<T>(
            entries,
            state,
            player,
            depth,
            raised_alpha(entry, alpha),
            upper,
            T::moves(state).len(),
        );
        (
            scan.0,
            remembered::<T>(
                scan.2,
                state,
                CacheEntry {
                    value: scan.0 as i32,
                    level: depth as u8,
                    flag: flag_of(scan.0, alpha, upper),
                },
            ),
        )
    }
}

/// The best score, the lower end of the window and the cache after the
/// first `n` moves of a state were searched. Each move is searched in the
/// negated window, the lower end rises to the best score, and once the
/// window is closed no further move is searched.
pub open spec fn searched_moves<T: Strategy>(
    entries: Map<T::State, CacheEntry>,
    state: &T::State,
    player: Player,
    depth: nat,
    alpha: int,
    beta: int,
    n: nat,
) -> (int, int, Map<T::State, CacheEntry>)
    decreases depth, 0nat, n,
{
    if depth == 0 || n == 0 {
        (-INFINITY as int, alpha, entries)
    } else {
        let before = searched_moves::<T>(
            entries,
            state,
            player,
            depth,
            alpha,
            beta,
            (n - 1) as nat,
        );
        if before.1 >= beta {
            before
        } else {
            let reply = search::<T>(
                before.2,
                &T::apply(state, T::moves(state)[n - 1], player),
                player.opponent(),
                (depth - 1) as nat,
                -beta,
                -before.1,
            );
            let best = if -reply.0 > before.0 {
                -reply.0
            } else {
                before.0
            };
            (
                best,
                if best > before.1 {
                    best
                } else {
                    before.1
                },
                reply.1,
            )
        }
    }
}

/// Once the window is closed, further moves change nothing.
pub proof fn lemma_searched_moves_stay<T: Strategy>(
    entries: Map<T::State, CacheEntry>,
    state: &T::State,
    player: Player,
    depth: nat,
    alpha: int,
    beta: int,
    m: nat,
    n: nat,
)
    requires
        depth > 0,
        m <= n,
        searched_moves::<T>(entries, state, player, depth, alpha, beta, m).1 >= beta,
    ensures
        searched_moves::<T>(entries, state, player, depth, alpha, beta, n) == searched_moves::<T>(
            entries,
            state,
            player,
            depth,
            alpha,
            beta,
            m,
        ),
    decreases n,
{
    if m < n {
        lemma_searched_moves_stay::<T>(
            entries,
            state,
            player,
            depth,
            alpha,
            beta,
            m,
            (n - 1) as nat,
        );
    }
}

/// With no level left the result is the plain score of the state, whatever
/// the window and the cache are, and the cache is left as it was.
pub proof fn lemma_search_without_levels<T: Strategy>(
    entries: Map<T::State, CacheEntry>,
    state: &T::State,
    player: Player,
    alpha: int,
    beta: int,
)
    ensures
        search::<T>(entries, state, player, 0, alpha, beta) == (T::value(state, player), entries),
{
    assert(T::value(state, player) * (0 + 1) == T::value(state, player)) by (nonlinear_arith);
}

/// An entry of at least the levels left that is exact, or that closes the
/// window, is the result, and the cache is left as it was.
pub proof fn lemma_search_settled<T: Strategy>(
    entries: Map<T::State, CacheEntry>,
    state: &T::State,
    player: Player,
    depth: nat,
    alpha: int,
    beta: int,
)
    requires
        depth > 0,
        T::Cache::stores(),
        entries.contains_key(*state),
        entries[*state].level >= depth,
        settles(Some(entries[*state]), alpha, beta),
    ensures
        search::<T>(entries, state, player, depth, alpha, beta) == (
            entries[*state].value as int,
            entries,
        ),
{
}

/// Where no entry settles the search, a state without moves is scored,
/// times the levels left and one, whatever the window is, and the cache is
/// left as it was.
pub proof fn lemma_search_without_moves<T: Strategy>(
    entries: Map<T::State, CacheEntry>,
    state: &T::State,
    player: Player,
    depth: nat,
    alpha: int,
    beta: int,
)
    requires
        T::moves(state).len() == 0,
        !settles(usable_entry::<T>(entries, state, depth), alpha, beta),
    ensures
        search::<T>(entries, state, player, depth, alpha, beta) == (
            leaf_score::<T>(state, player, depth),
            entries,
        ),
{
}

/// Where no entry settles the search and the state has moves, a cache that
/// stores holds afterwards, for the state, the result with the levels left,
/// filed by the lower end of the window as it was passed in and by the upper
/// end as the entry left it.
pub proof fn lemma_search_remembers<T: Strategy>(
    entries: Map<T::State, CacheEntry>,
    state: &T::State,
    player: Player,
    depth: nat,
    alpha: int,
    beta: int,
)
    requires
        depth > 0,
        T::Cache::stores(),
        T::moves(state).len() > 0,
        !settles(usable_entry::<T>(entries, state, depth), alpha, beta),
    ensures
        ({
            let found = search::<T>(entries, state, player, depth, alpha, beta);
            &&& found.1.contains_key(*state)
            &&& found.1[*state] == CacheEntry {
                value: found.0 as i32,
                level: depth as u8,
                flag: flag_of(
                    found.0,
                    alpha,
                    lowered_beta(usable_entry::<T>(entries, state, depth), beta),
                ),
            }
        }),
{
}

/// The sign law of the search: at a state where the search stops, because
/// no level is left or the state has no moves and the cache has no entry
/// for it that the search makes use of, and that is worth to one side what
/// it costs the other, the result for one side in a window is the negated
/// result for the other side in the negated window, and neither depends on
/// the window.
pub proof fn lemma_search_sign<T: Strategy>(
    entries: Map<T::State, CacheEntry>,
    state: &T::State,
    depth: nat,
    alpha: int,
    beta: int,
)
    requires
        depth == 0 || T::moves(state).len() == 0,
        depth > 0 ==> usable_entry::<T>(entries, state, depth) is None,
        T::value(state, Player::Max) == -T::value(state, Player::Min),
    ensures
        search::<T>(entries, state, Player::Max, depth, alpha, beta).0 == T::value(
            state,
            Player::Max,
        ) * (depth + 1),
        search::<T>(entries, state, Player::Max, depth, alpha, beta).0 == -search::<T>(
            entries,
            state,
            Player::Min,
            depth,
            -beta,
            -alpha,
        ).0,
{
    let v = T::value(state, Player::Min);
    assert((-v) * (depth + 1) == -(v * (depth + 1))) by (nonlinear_arith);
    assert(v * (0 + 1) == v) by (nonlinear_arith);
    assert((-v) * (0 + 1) == -v) by (nonlinear_arith);
}

/// Whether two caches hold the same but for what they hold for `at`.
pub open spec fn same_but_for<S>(a: Map<S, CacheEntry>, b: Map<S, CacheEntry>, at: S) -> bool {
    forall|s: S|
        s != at ==> (#[trigger] a.contains_key(s)) == b.contains_key(s) && (a.contains_key(s)
            ==> a[s] == b[s])
}

/// In a ranked game the search of a state that lies further on than `at`
/// does not see what the cache holds for `at`.
pub proof fn lemma_search_apart<T: Strategy>(
    a: Map<T::State, CacheEntry>,
    b: Map<T::State, CacheEntry>,
    at: T::State,
    state: &T::State,
    player: Player,
    depth: nat,
    alpha: int,
    beta: int,
)
    requires
        T::ranked(),
        T::valid(state),
        T::ply(state) > T::ply(&at),
        same_but_for(a, b, at),
    ensures
        search::<T>(a, state, player, depth, alpha, beta).0 == search::<T>(
            b,
            state,
            player,
            depth,
            alpha,
            beta,
        ).0,
        same_but_for(
            search::<T>(a, state, player, depth, alpha, beta).1,
            search::<T>(b, state, player, depth, alpha, beta).1,
            at,
        ),
    decreases depth, 1nat, 0nat,
{
    assert(*state != at);
    assert(a.contains_key(*state) == b.contains_key(*state));
    assert(answer::<T>(a, state) == answer::<T>(b, state));
    let entry = usable_entry::<T>(a, state, depth);
    if depth > 0 && !settles(entry, alpha, beta) && T::moves(state).len() > 0 {
        let upper = lowered_beta(entry, beta);
        let lower = raised_alpha(entry, alpha);
        let n = T::moves(state).len();
        lemma_searched_moves_apart::<T>(a, b, at, state, player, depth, lower, upper, n);
        let one = searched_moves::<T>(a, state, player, depth, lower, upper, n);
        let other = searched_moves::<T>(b, state, player, depth, lower, upper, n);
        let filed = CacheEntry {
            value: one.0 as i32,
            level: depth as u8,
            flag: flag_of(one.0, alpha, upper),
        };
        assert forall|s: T::State| s != at implies (#[trigger] remembered::<T>(
            one.2,
            state,
            filed,
        ).contains_key(s)) == remembered::<T>(other.2, state, filed).contains_key(s) && (
        remembered::<T>(one.2, state, filed).contains_key(s) ==> remembered::<T>(
            one.2,
            state,
            filed,
        )[s] == remembered::<T>(other.2, state, filed)[s]) by {
            assert(one.2.contains_key(s) == other.2.contains_key(s));
        }
    }
}

/// In a ranked game the search of the moves of a state that lies no nearer
/// than `at` does not see what the cache holds for `at`.
pub proof fn lemma_searched_moves_apart<T: Strategy>(
    a: Map<T::State, CacheEntry>,
    b: Map<T::State, CacheEntry>,
    at: T::State,
    state: &T::State,
    player: Player,
    depth: nat,
    alpha: int,
    beta: int,
    n: nat,
)
    requires
        T::ranked(),
        T::valid(state),
        T::ply(state) >= T::ply(&at),
        same_but_for(a, b, at),
        depth > 0,
        n <= T::moves(state).len(),
    ensures
        searched_moves::<T>(a, state, player, depth, alpha, beta, n).0 == searched_moves::<T>(
            b,
            state,
            player,
            depth,
            alpha,
            beta,
            n,
        ).0,
        searched_moves::<T>(a, state, player, depth, alpha, beta, n).1 == searched_moves::<T>(
            b,
            state,
            player,
            depth,
            alpha,
            beta,
            n,
        ).1,
        same_but_for(
            searched_moves::<T>(a, state, player, depth, alpha, beta, n).2,
            searched_moves::<T>(b, state, player, depth, alpha, beta, n).2,
            at,
        ),
    decreases depth, 0nat, n,
{
    if n > 0 {
        lemma_searched_moves_apart::<T>(
            a,
            b,
            at,
            state,
            player,
            depth,
            alpha,
            beta,
            (n - 1) as nat,
        );
        let one = searched_moves::<T>(a, state, player, depth, alpha, beta, (n - 1) as nat);
        let other = searched_moves::<T>(b, state, player, depth, alpha, beta, (n - 1) as nat);
        if one.1 < beta {
            T::lemma_apply(state, n - 1, player);
            lemma_search_apart::<T>(
                one.2,
                other.2,
                at,
                &T::apply(state, T::moves(state)[n - 1], player),
                player.opponent(),
                (depth - 1) as nat,
                -beta,
                -one.1,
            );
        }
    }
}

/// An entry from a search with fewer levels left is not made use of: it
/// leaves both ends of the window where they are and settles nothing.
pub proof fn lemma_lower_entry_leaves_window<T: Strategy>(
    entries: Map<T::State, CacheEntry>,
    state: &T::State,
    depth: nat,
    alpha: int,
    beta: int,
)
    requires
        entries.contains_key(*state),
        entries[*state].level < depth,
    ensures
        usable_entry::<T>(entries, state, depth) is None,
        raised_alpha(usable_entry::<T>(entries, state, depth), alpha) == alpha,
        lowered_beta(usable_entry::<T>(entries, state, depth), beta) == beta,
        !settles(usable_entry::<T>(entries, state, depth), alpha, beta),
{
}

/// An entry from a search with fewer levels left counts as none: in a ranked
/// game the result is what it is without the entry, and where the state has
/// moves and the cache stores, so is the cache afterwards, which holds for
/// the state an entry with the levels left.
pub proof fn lemma_lower_entry_is_ignored<T: Strategy>(
    entries: Map<T::State, CacheEntry>,
    state: &T::State,
    player: Player,
    depth: nat,
    alpha: int,
    beta: int,
)
    requires
        T::ranked(),
        T::valid(state),
        entries.contains_key(*state),
        entries[*state].level < depth <= 255,
    ensures
        usable_entry::<T>(entries, state, depth) is None,
        ({
            let found = search::<T>(entries, state, player, depth, alpha, beta);
            let plain = search::<T>(entries.remove(*state), state, player, depth, alpha, beta);
            &&& found.0 == plain.0
            &&& T::Cache::stores() && T::moves(state).len() > 0 ==> {
                &&& found.1 == plain.1
                &&& found.1[*state].level == depth
            }
        }),
{
    let without = entries.remove(*state);
    let n = T::moves(state).len();
    if n > 0 {
        lemma_searched_moves_apart::<T>(
            entries,
            without,
            *state,
            state,
            player,
            depth,
            alpha,
            beta,
            n,
        );
        if T::Cache::stores() {
            let one = search::<T>(entries, state, player, depth, alpha, beta).1;
            let other = search::<T>(without, state, player, depth, alpha, beta).1;
            let scan = searched_moves::<T>(entries, state, player, depth, alpha, beta, n);
            let twin = searched_moves::<T>(without, state, player, depth, alpha, beta, n);
            assert forall|s: T::State| one.contains_key(s) == other.contains_key(s) && (
            one.contains_key(s) ==> one[s] == other[s]) by {
                if s != *state {
                    assert(scan.2.contains_key(s) == twin.2.contains_key(s));
                }
            }
            assert(one =~= other);
        }
    }
}

/// The score of a state at which the search stops.
fn leaf_value<T: Strategy>(strategy: &mut T, state: &T::State, player: Player, remaining_levels: u8)
    -> (r: i32)
    requires
        T::valid(state),
    ensures
        r == leaf_score::<T>(state, player, remaining_levels as nat),
        -INFINITY < r < INFINITY,
        final(strategy).held_cache() == old(strategy).held_cache(),
        final(strategy).held_stats() == old(strategy).held_stats(),
{
    let score = strategy.score(state, player);
    let factor: i32 = remaining_levels as i32 + 1;
    proof {
        lemma_leaf_bounded::<T>(state, player, remaining_levels as nat);
        assert(SCORE_LIMIT * (remaining_levels + 1) <= SCORE_LIMIT * 256) by (nonlinear_arith)
            requires
                remaining_levels <= 255,
        ;
    }
    score * factor
}

/// The value of `state` to `player`, who is to move in it, by a search of
/// `remaining_levels` levels that leaves out what cannot matter inside the
/// window `(alpha, beta)`, and that asks the cache before it searches. The
/// result and the cache afterwards are those of `search`.
///
/// Where the window is not empty and the cache can be relied on, the result
/// brackets the value of the full search, and the cache can be relied on
/// afterwards.
fn alpha_beta_eval_single_move<T: Strategy>(
    strategy: &mut T,
    state: &T::State,
    player: Player,
    remaining_levels: u8,
    alpha: i32,
    beta: i32,
) -> (r: i32)
    requires
        T::valid(state),
        -INFINITY <= alpha <= INFINITY,
        -INFINITY <= beta <= INFINITY,
        T::ranked() ==> player == T::mover(state).opponent(),
        cache_bounded::<T>(old(strategy).held_cache()),
    ensures
        -INFINITY <= r <= INFINITY,
        (r as int, final(strategy).held_cache().entries()) == search::<T>(
            old(strategy).held_cache().entries(),
            state,
            player,
            remaining_levels as nat,
            alpha as int,
            beta as int,
        ),
        cache_bounded::<T>(final(strategy).held_cache()),
        final(strategy).held_stats() == old(strategy).held_stats(),
        alpha < beta && cache_sound::<T>(
            old(strategy).held_cache(),
            remaining_levels + T::ply(state),
        ) ==> {
            &&& cache_sound::<T>(final(strategy).held_cache(), remaining_levels + T::ply(state))
            &&& brackets(
                r as int,
                negamax::<T>(state, player, remaining_levels as nat),
                alpha as int,
                beta as int,
            )
        },
    decreases remaining_levels,
{
    if remaining_levels == 0 {
        return leaf_value(strategy, state, player, remaining_levels);
    }
    let ghost horizon: int = remaining_levels + T::ply(state);
    let ghost trusted: bool = alpha < beta && cache_sound::<T>(
        old(strategy).held_cache(),
        horizon,
    );
    let ghost truth: int = negamax::<T>(state, player, remaining_levels as nat);
    let ghost given = old(strategy).held_cache().entries();
    let ghost entry_used = usable_entry::<T>(given, state, remaining_levels as nat);
    let ghost beta_at_entry = beta as int;
    let alpha_at_entry = alpha;
    let mut alpha = alpha;
    let mut beta = beta;
    let found = strategy.cache().get(state);
    proof {
        assert(found == answer::<T>(given, state));
        assert(strategy.held_cache().entries() == given);
        assert forall|s: T::State| T::Cache::stores() implies #[trigger] entry_bounded::<T>(
            strategy.held_cache(),
            s,
        ) by {
            assert(entry_bounded::<T>(old(strategy).held_cache(), s));
        }
        if trusted && T::Cache::stores() {
            assert forall|s: T::State| #[trigger]
                entry_sound::<T>(strategy.held_cache(), s, horizon) by {
                assert(entry_sound::<T>(old(strategy).held_cache(), s, horizon));
            }
            assert(entry_sound::<T>(old(strategy).held_cache(), *state, horizon));
        }
        if T::Cache::stores() {
            assert(entry_bounded::<T>(old(strategy).held_cache(), *state));
        }
    }
    if let Some(entry) = found {
        if entry.level >= remaining_levels {
            match entry.flag {
                CacheFlag::Exact => {
                    return entry.value;
                },
                CacheFlag::LowerBound => {
                    if entry.value > alpha {
                        alpha = entry.value;
                    }
                },
                CacheFlag::UpperBound => {
                    if entry.value < beta {
                        beta = entry.value;
                    }
                },
            }
            if alpha >= beta {
                return entry.value;
            }
        }
    }
    // A state without moves is terminal.
    let moves = T::possible_moves(state);
    if moves.len() == 0 {
        return leaf_value(strategy, state, player, remaining_levels);
    }
    let ghost floor: int = alpha as int;
    let ghost depth: nat = remaining_levels as nat;
    let ghost upper: int = beta as int;
    proof {
        assert(floor == raised_alpha(entry_used, alpha_at_entry as int));
        assert(upper == lowered_beta(entry_used, beta_at_entry));
        assert(!settles(entry_used, alpha_at_entry as int, beta_at_entry));
    }
    let mut max_score: i32 = -INFINITY;
    let mut i: usize = 0;
    while i < moves.len() && alpha < beta
        invariant
            0 <= i <= moves.len(),
            remaining_levels > 0,
            depth == remaining_levels as nat,
            upper == beta,
            (max_score as int, alpha as int, strategy.held_cache().entries())
                == searched_moves::<T>(
                given,
                state,
                player,
                depth,
                floor,
                upper,
                i as nat,
            ),
            horizon == remaining_levels + T::ply(state),
            T::valid(state),
            T::ranked() ==> player == T::mover(state).opponent(),
            moves.len() == T::moves(state).len(),
            forall|j: int| 0 <= j < moves.len() ==> (#[trigger] moves[j])@ == T::moves(state)[j],
            -INFINITY <= floor <= alpha <= INFINITY,
            -INFINITY <= beta <= INFINITY,
            trusted ==> floor < beta,
            -INFINITY <= max_score <= INFINITY,
            alpha == if max_score > floor { max_score as int } else { floor },
            cache_bounded::<T>(strategy.held_cache()),
            strategy.held_stats() == old(strategy).held_stats(),
            trusted ==> cache_sound::<T>(strategy.held_cache(), horizon),
            trusted && alpha < beta ==> best_reply::<T>(state, player, depth, i as nat)
                <= max_score,
            trusted && alpha < beta && max_score > floor ==> best_reply::<T>(
                state,
                player,
                depth,
                i as nat,
            ) == max_score,
            trusted && alpha >= beta ==> best_reply::<T>(state, player, depth, i as nat)
                >= max_score >= beta,
        decreases moves.len() - i, (if alpha < beta { 1nat } else { 0nat }),
    {
        let m = &moves[i];
        proof {
            assert(moves[i as int]@ == T::moves(state)[i as int]);
            T::lemma_apply(state, i as int, player);
        }
        let next_state = strategy.do_move(state, m, player);
        let reply = alpha_beta_eval_single_move(
            strategy,
            &next_state,
            player.not(),
            remaining_levels - 1,
            -beta,
            -alpha,
        );
        let score = -reply;
        if score > max_score {
            max_score = score;
        }
        if max_score > alpha {
            alpha = max_score;
        }
        i += 1;
    }
    proof {
        if trusted {
            lemma_best_reply_grows::<T>(state, player, depth, i as nat, moves.len() as nat);
        }
        if i < moves.len() {
            lemma_searched_moves_stay::<T>(
                given,
                state,
                player,
                depth,
                floor,
                upper,
                i as nat,
                moves.len() as nat,
            );
        }
    }
    let flag = if max_score <= alpha_at_entry {
        CacheFlag::UpperBound
    } else if max_score >= beta {
        CacheFlag::LowerBound
    } else {
        CacheFlag::Exact
    };
    let entry = CacheEntry { level: remaining_levels, flag, value: max_score };
    let ghost before = strategy.held_cache();
    strategy.cache().set(state, entry);
    proof {
        assert forall|s: T::State| T::Cache::stores() implies #[trigger] entry_bounded::<T>(
            strategy.held_cache(),
            s,
        ) by {
            assert(entry_bounded::<T>(before, s));
        }
        if trusted && T::Cache::stores() {
            assert(entry_holds(entry, truth));
            assert forall|s: T::State| #[trigger]
                entry_sound::<T>(strategy.held_cache(), s, horizon) by {
                assert(entry_sound::<T>(before, s, horizon));
            }
        }
    }
    max_score
}

/// The score that a full search of `max_level` levels gives the `i`-th move of
/// `state`, which `Max` makes.
pub open spec fn move_score<T: Strategy>(state: &T::State, i: int, max_level: nat) -> int {
    -negamax::<T>(
        &T::apply(state, T::moves(state)[i], Player::Max),
        Player::Min,
        (max_level - 1) as nat,
    )
}

/// The scores of the first `n` moves of `state`, which `Max` makes, and the
/// cache after they were searched: each move is searched with one level less
/// in the open window, with the cache as the move before it left it, and its
/// score is the negated result.
pub open spec fn scored_moves<T: Strategy>(
    entries: Map<T::State, CacheEntry>,
    state: &T::State,
    max_level: nat,
    n: nat,
) -> (Seq<int>, Map<T::State, CacheEntry>)
    decreases n,
{
    if n == 0 {
        (Seq::empty(), entries)
    } else {
        let before = scored_moves::<T>(entries, state, max_level, (n - 1) as nat);
        let reply = search::<T>(
            before.1,
            &T::apply(state, T::moves(state)[n - 1], Player::Max),
            Player::Min,
            (max_level - 1) as nat,
            -INFINITY as int,
            INFINITY as int,
        );
        (before.0.push(-reply.0), reply.1)
    }
}

/// The scores of scored moves, in their order.
pub open spec fn scores_of<M>(moves: Seq<ScoredMove<M>>) -> Seq<int> {
    moves.map_values(|m: ScoredMove<M>| m.score as int)
}

/// Scores every move that `Max` has in `state`, by a search of `max_level`
/// levels. The moves come in the game's order, none is left out, and ties are
/// left as they are. Scores and cache are those of `scored_moves`.
///
/// Where the cache can be relied on, each score is the one that a full search
/// without pruning and without a cache gives the move.
pub fn score_possible_moves<T: Strategy>(strategy: &mut T, state: &T::State, max_level: u8) -> (r:
    Vec<ScoredMove<T::Move>>)
    requires
        T::valid(state),
        max_level >= 1,
        cache_bounded::<T>(old(strategy).held_cache()),
    ensures
        r.len() == T::moves(state).len(),
        forall|i: int| 0 <= i < r.len() ==> (#[trigger] r[i]).min_max_move@ == T::moves(state)[i],
        (scores_of(r@), final(strategy).held_cache().entries()) == scored_moves::<T>(
            old(strategy).held_cache().entries(),
            state,
            max_level as nat,
            T::moves(state).len(),
        ),
        cache_bounded::<T>(final(strategy).held_cache()),
        final(strategy).held_stats() == old(strategy).held_stats(),
        cache_sound::<T>(old(strategy).held_cache(), max_level + T::ply(state)) ==> {
            &&& cache_sound::<T>(final(strategy).held_cache(), max_level + T::ply(state))
            &&& forall|i: int|
                0 <= i < r.len() ==> (#[trigger] r[i]).score == move_score::<T>(
                    state,
                    i,
                    max_level as nat,
                )
        },
{
    let pos_moves = T::possible_moves(state);
    let ghost offered = pos_moves@;
    let ghost given = old(strategy).held_cache().entries();
    let ghost horizon: int = max_level + T::ply(state);
    let ghost trusted: bool = cache_sound::<T>(old(strategy).held_cache(), horizon);
    let mut scores: Vec<ScoredMove<T::Move>> = Vec::new();
    for m in it: pos_moves
        invariant
            it.seq() == offered,
            offered.len() == T::moves(state).len(),
            forall|j: int| 0 <= j < offered.len() ==> (#[trigger] offered[j])@ == T::moves(
                state)[j],
            T::valid(state),
            max_level >= 1,
            horizon == max_level + T::ply(state),
            scores.len() == it.index(),
            forall|j: int|
                0 <= j < scores.len() ==> (#[trigger] scores[j]).min_max_move@ == T::moves(
                    state,
                )[j],
            (scores_of(scores@), strategy.held_cache().entries()) == scored_moves::<T>(
                given,
                state,
                max_level as nat,
                it.index() as nat,
            ),
            cache_bounded::<T>(strategy.held_cache()),
            strategy.held_stats() == old(strategy).held_stats(),
            trusted ==> cache_sound::<T>(strategy.held_cache(), horizon),
            trusted ==> forall|j: int|
                0 <= j < scores.len() ==> (#[trigger] scores[j]).score == move_score::<T>(
                    state,
                    j,
                    max_level as nat,
                ),
    {
        let ghost i = it.index();
        proof {
            assert(offered[i]@ == T::moves(state)[i]);
            T::lemma_apply(state, i, Player::Max);
        }
        let next_state = strategy.do_move(state, &m, Player::Max);
        let reply = alpha_beta_eval_single_move(
            strategy,
            &next_state,
            Player::Min,
            max_level - 1,
            -INFINITY,
            INFINITY,
        );
        proof {
            lemma_negamax_bounded::<T>(&next_state, Player::Min, (max_level - 1) as nat);
            assert(SCORE_LIMIT * ((max_level - 1) as nat + 1) < INFINITY) by (nonlinear_arith)
                requires
                    1 <= max_level <= 255,
            ;
        }
        let ghost held = scores@;
        scores.push(ScoredMove::new(-reply, m));
        proof {
            assert(scores_of(scores@) =~= scores_of(held).push(-reply as int));
        }
    }
    proof {
        assert(scores_of(scores@).len() == 0 ==> scores_of(scores@) =~= Seq::<int>::empty());
    }
    scores
}

/// Whether no move in `moves` scores more than `score`.
pub open spec fn tops<M>(moves: Seq<ScoredMove<M>>, score: i32) -> bool {
    forall|j: int| 0 <= j < moves.len() ==> (#[trigger] moves[j]).score <= score
}

/// `Itertools::max_set_by_key`, with the score as the key: the moves that no
/// other move outscores, in the order in which they came.
#[verifier::external_body]
fn max_set_by_score<M>(moves: Vec<ScoredMove<M>>) -> (r: Vec<ScoredMove<M>>)
    ensures
        r@ == moves@.filter(|m: ScoredMove<M>| tops(moves@, m.score)),
{
    moves.into_iter().max_set_by_key(|m| m.score)
}

/// Scored moves as pairs of a score and what the move is.
pub open spec fn scored_views<M: View>(moves: Seq<ScoredMove<M>>) -> Seq<(int, M::V)> {
    moves.map_values(|m: ScoredMove<M>| (m.score as int, m.min_max_move@))
}

/// Every move of `state` with the score that a full search of `max_level`
/// levels gives it.
pub open spec fn root_scores<T: Strategy>(state: &T::State, max_level: nat) -> Seq<
    (int, <T::Move as View>::V),
> {
    Seq::new(
        T::moves(state).len(),
        |i: int| (move_score::<T>(state, i, max_level), T::moves(state)[i]),
    )
}

/// Whether no pair in `scored` has a higher score than `score`.
pub open spec fn is_best<V>(scored: Seq<(int, V)>, score: int) -> bool {
    forall|j: int| 0 <= j < scored.len() ==> (#[trigger] scored[j]).0 <= score
}

/// The pairs with the highest score, in their order.
pub open spec fn best_of<V>(scored: Seq<(int, V)>) -> Seq<(int, V)> {
    scored.filter(|p: (int, V)| is_best(scored, p.0))
}

/// Filtering and then mapping is mapping and then filtering, where the two
/// tests agree.
pub proof fn lemma_filter_map_values<A, B>(
    s: Seq<A>,
    f: spec_fn(A) -> B,
    p: spec_fn(A) -> bool,
    q: spec_fn(B) -> bool,
)
    requires
        forall|a: A| #[trigger] p(a) == q(f(a)),
    ensures
        s.filter(p).map_values(f) == s.map_values(f).filter(q),
    decreases s.len(),
{
    reveal(Seq::filter);
    if s.len() > 0 {
        let front = s.drop_last();
        lemma_filter_map_values(front, f, p, q);
        assert(s.map_values(f).drop_last() =~= front.map_values(f));
        assert(s.map_values(f).last() == f(s.last()));
        assert(p(s.last()) == q(f(s.last())));
        if p(s.last()) {
            assert(front.filter(p).push(s.last()).map_values(f) =~= front.filter(p).map_values(
                f,
            ).push(f(s.last())));
        }
    } else {
        assert(s.filter(p).map_values(f) =~= s.map_values(f).filter(q));
    }
}

/// Every move of `state` with the score that the search of `max_level`
/// levels gives it, with the cache as it is.
pub open spec fn searched_scores<T: Strategy>(
    entries: Map<T::State, CacheEntry>,
    state: &T::State,
    max_level: nat,
) -> Seq<(int, <T::Move as View>::V)> {
    Seq::new(
        T::moves(state).len(),
        |i: int|
            (
                scored_moves::<T>(entries, state, max_level, T::moves(state).len()).0[i],
                T::moves(state)[i],
            ),
    )
}

/// The moves of `Max` in `state` that score highest in a search of
/// `max_level` levels: all of them where several tie, in the game's order.
/// The scores are those of `score_possible_moves`, whatever the cache holds.
pub fn alpha_beta<T: Strategy>(strategy: &mut T, state: &mut T::State, max_level: u8) -> (r: Vec<
    ScoredMove<T::Move>,
>)
    requires
        T::valid(old(state)),
        max_level >= 1,
        cache_bounded::<T>(old(strategy).held_cache()),
    ensures
        *final(state) == *old(state),
        forall|k: int| 0 <= k < r.len() ==> T::moves(old(state)).contains((
            #[trigger] r[k]).min_max_move@),
        scored_views(r@) == best_of(
            searched_scores::<T>(
                old(strategy).held_cache().entries(),
                old(state),
                max_level as nat,
            ),
        ),
        final(strategy).held_cache().entries() == scored_moves::<T>(
            old(strategy).held_cache().entries(),
            old(state),
            max_level as nat,
            T::moves(old(state)).len(),
        ).1,
        cache_bounded::<T>(final(strategy).held_cache()),
        final(strategy).held_stats() == old(strategy).held_stats(),
        cache_sound::<T>(old(strategy).held_cache(), max_level + T::ply(old(state))) ==> {
            &&& cache_sound::<T>(final(strategy).held_cache(), max_level + T::ply(old(state)))
            &&& scored_views(r@) == best_of(root_scores::<T>(old(state), max_level as nat))
        },
{
    let scored = score_possible_moves(strategy, state, max_level);
    let ghost all = scored@;
    let best = max_set_by_score(scored);
    proof {
        let keep = |m: ScoredMove<T::Move>| tops(all, m.score);
        let view_of = |m: ScoredMove<T::Move>| (m.score as int, m.min_max_move@);
        let views = scored_views(all);
        let keep_view = |p: (int, <T::Move as View>::V)| is_best(views, p.0);
        assert forall|a: ScoredMove<T::Move>| #[trigger] keep(a) == keep_view(view_of(a)) by {
            if tops(all, a.score) {
                assert forall|j: int| 0 <= j < views.len() implies (#[trigger] views[j]).0
                    <= a.score by {
                    assert(all[j].score <= a.score);
                }
            }
            if is_best(views, a.score as int) {
                assert forall|j: int| 0 <= j < all.len() implies (#[trigger] all[j]).score
                    <= a.score by {
                    assert(views[j].0 <= a.score);
                }
            }
        }
        lemma_filter_map_values(all, view_of, keep, keep_view);
        assert forall|k: int| 0 <= k < best.len() implies T::moves(old(state)).contains(
            (#[trigger] best[k]).min_max_move@,
        ) by {
            all.lemma_filter_contains_rev(keep, best[k]);
            let i = choose|i: int| 0 <= i < all.len() && all[i] == best[k];
            assert(all[i].min_max_move@ == T::moves(old(state))[i]);
        }
        if cache_sound::<T>(old(strategy).held_cache(), max_level + T::ply(old(state))) {
            assert(views =~= root_scores::<T>(old(state), max_level as nat));
        }
        let searched = searched_scores::<T>(
            old(strategy).held_cache().entries(),
            old(state),
            max_level as nat,
        );
        assert(views =~= searched) by {
            assert(views.len() == searched.len());
            assert forall|i: int| 0 <= i < views.len() implies views[i] == searched[i] by {
                assert(scores_of(all)[i] == all[i].score);
            }
        }
    }
    best
}

/// The score that the board shows at `position`: that of the last of `moves`
/// that expands to the position, and nothing where none does.
pub open spec fn score_at(moves: Seq<ScoredMove<SymmetricMove3x3>>, position: usize) -> i32
    decreases moves.len(),
{
    if moves.len() == 0 {
        0
    } else if moves.last().min_max_move.1.expansion(&moves.last().min_max_move.0).contains(
        position,
    ) {
        moves.last().score
    } else {
        score_at(moves.drop_last(), position)
    }
}

/// A board of the scores of the moves: each move gives its score to every
/// position that it expands to. Where two moves expand to one position, the
/// later one counts, whatever the scores are.
pub fn to_score_board(scored_moves: &Vec<ScoredMove<SymmetricMove3x3>>) -> (r: [i32; 9])
    requires
        forall|i: int| 0 <= i < scored_moves.len() ==> (
            #[trigger] scored_moves[i]).min_max_move.0 < 9,
    ensures
        forall|p: int| 0 <= p < 9 ==> #[trigger] r[p] == score_at(scored_moves@, p as usize),
{
    let mut scores = [0i32; 9];
    let mut k: usize = 0;
    while k < scored_moves.len()
        invariant
            0 <= k <= scored_moves.len(),
            forall|i: int|
                0 <= i < scored_moves.len() ==> (#[trigger] scored_moves[i]).min_max_move.0 < 9,
            forall|p: int|
                0 <= p < 9 ==> #[trigger] scores[p] == score_at(
                    scored_moves@.take(k as int),
                    p as usize,
                ),
        decreases scored_moves.len() - k,
    {
        let m = &scored_moves[k];
        let indices = m.min_max_move.expanded_indices();
        let ghost before = scores;
        let mut e: usize = 0;
        while e < indices.len()
            invariant
                0 <= e <= indices.len(),
                m.min_max_move.0 < 9,
                indices@ == m.min_max_move.1.expansion(&m.min_max_move.0),
                forall|p: int|
                    0 <= p < 9 ==> #[trigger] scores[p] == if indices@.take(e as int).contains(
                        p as usize,
                    ) {
                        m.score
                    } else {
                        before[p]
                    },
            decreases indices.len() - e,
        {
            let index = indices[e];
            proof {
                lemma_expansion_on_grid(
                    GridSymmetryAxisContext3x3::grid(),
                    m.min_max_move.1@,
                    m.min_max_move.0,
                    index,
                );
                GridSymmetryAxisContext3x3::lemma_grid();
            }
            let ghost held = scores;
            scores[index] = m.score;
            proof {
                let shorter = indices@.take(e as int);
                let longer = indices@.take(e + 1);
                assert(longer =~= shorter.push(index));
                assert forall|p: int| 0 <= p < 9 implies #[trigger] scores[p] == if longer.contains(
                    p as usize,
                ) {
                    m.score
                } else {
                    before[p]
                } by {
                    if p == index {
                        assert(longer[e as int] == index);
                    } else if shorter.contains(p as usize) {
                        let at = choose|at: int| 0 <= at < shorter.len() && shorter[at]
                            == p as usize;
                        assert(longer[at] == p as usize);
                    } else if longer.contains(p as usize) {
                        let at = choose|at: int| 0 <= at < longer.len() && longer[at] == p as usize;
                        assert(shorter[at] == p as usize);
                    }
                }
            }
            e += 1;
        }
        proof {
            assert(indices@.take(indices.len() as int) =~= indices@);
            assert(scored_moves@.take(k + 1).drop_last() =~= scored_moves@.take(k as int));
            assert(scored_moves@.take(k + 1).last() == scored_moves@[k as int]);
        }
        k += 1;
    }
    proof {
        assert(scored_moves@.take(scored_moves.len() as int) =~= scored_moves@);
    }
    scores
}

/// Whether two strategies play one game: they have the same moves, the same
/// states after them and the same worth of every state.
pub open spec fn same_game<A: Strategy, B: Strategy<State = A::State, Move = A::Move>>() -> bool {
    &&& forall|state: A::State| #[trigger] A::moves(&state) == B::moves(&state)
    &&& forall|state: A::State, mv: <A::Move as View>::V, player: Player| #[trigger]
        A::apply(&state, mv, player) == B::apply(&state, mv, player)
    &&& forall|state: A::State, player: Player| #[trigger]
        A::value(&state, player) == B::value(&state, player)
}

/// The value of a state is a matter of the game alone.
pub proof fn lemma_same_game_same_value<A: Strategy, B: Strategy<State = A::State, Move = A::Move>>(
    state: &A::State,
    player: Player,
    depth: nat,
)
    requires
        same_game::<A, B>(),
    ensures
        negamax::<A>(state, player, depth) == negamax::<B>(state, player, depth),
    decreases depth, 1nat, 0nat,
{
    assert(A::moves(state) == B::moves(state));
    assert(A::value(state, player) == B::value(state, player));
    if depth > 0 && A::moves(state).len() > 0 {
        lemma_same_game_same_reply::<A, B>(state, player, depth, A::moves(state).len());
    }
}

/// The best of the first moves of a state is a matter of the game alone.
pub proof fn lemma_same_game_same_reply<A: Strategy, B: Strategy<State = A::State, Move = A::Move>>(
    state: &A::State,
    player: Player,
    depth: nat,
    n: nat,
)
    requires
        same_game::<A, B>(),
        depth > 0,
    ensures
        best_reply::<A>(state, player, depth, n) == best_reply::<B>(state, player, depth, n),
    decreases depth, 0nat, n,
{
    if n > 0 {
        lemma_same_game_same_reply::<A, B>(state, player, depth, (n - 1) as nat);
        assert(A::moves(state) == B::moves(state));
        let mv = A::moves(state)[n - 1];
        assert(A::apply(state, mv, player) == B::apply(state, mv, player));
        lemma_same_game_same_value::<A, B>(
            &A::apply(state, mv, player),
            player.opponent(),
            (depth - 1) as nat,
        );
    }
}

/// The cache does not show in the scores: two searches of one state of one
/// game to one depth, each with a cache of its own that it can rely on (one
/// that keeps nothing is such a cache), give every move the same score.
pub proof fn lemma_cache_transparent<A: Strategy, B: Strategy<State = A::State, Move = A::Move>>(
    state: &A::State,
    max_level: nat,
    one: Seq<ScoredMove<A::Move>>,
    other: Seq<ScoredMove<A::Move>>,
)
    requires
        same_game::<A, B>(),
        max_level >= 1,
        one.len() == A::moves(state).len(),
        other.len() == A::moves(state).len(),
        forall|i: int| 0 <= i < one.len() ==> (#[trigger] one[i]).score == move_score::<A>(state, i,
            max_level),
        forall|i: int|
            0 <= i < other.len() ==> (#[trigger] other[i]).score == move_score::<B>(
                state,
                i,
                max_level,
            ),
    ensures
        forall|i: int| 0 <= i < one.len() ==> (#[trigger] one[i]).score == other[i].score,
{
    assert forall|i: int| 0 <= i < one.len() implies (#[trigger] one[i]).score
        == other[i].score by {
        assert(A::moves(state) == B::moves(state));
        let mv = A::moves(state)[i];
        assert(A::apply(state, mv, Player::Max) == B::apply(state, mv, Player::Max));
        lemma_same_game_same_value::<A, B>(
            &A::apply(state, mv, Player::Max),
            Player::Min,
            (max_level - 1) as nat,
        );
        assert(other[i].score == move_score::<B>(state, i, max_level));
    }
}

/// A cache that holds nothing can be relied on in a ranked game.
pub proof fn lemma_empty_cache_is_sound<T: Strategy>(cache: T::Cache, horizon: int)
    requires
        T::ranked(),
        cache.entries() == Map::<T::State, CacheEntry>::empty(),
    ensures
        cache_sound::<T>(cache, horizon),
        cache_bounded::<T>(cache),
{
}

/// A cache that keeps nothing can be relied on, whatever the game.
pub proof fn lemma_idle_cache_is_sound<T: Strategy>(cache: T::Cache, horizon: int)
    requires
        !T::Cache::stores(),
    ensures
        cache_sound::<T>(cache, horizon),
        cache_bounded::<T>(cache),
{
}

/// The sign law: where the search stops at a state, because no level is left
/// or the state has no moves, and the state is worth to one side what it
/// costs the other, the value of the state to one side is the negated value
/// to the other.
pub proof fn lemma_negamax_sign<T: Strategy>(state: &T::State, depth: nat)
    requires
        depth == 0 || T::moves(state).len() == 0,
        T::value(state, Player::Max) == -T::value(state, Player::Min),
    ensures
        negamax::<T>(state, Player::Max, depth) == -negamax::<T>(state, Player::Min, depth),
{
    let v = T::value(state, Player::Min);
    assert((-v) * (depth + 1) == -(v * (depth + 1))) by (nonlinear_arith);
}

} // verus!
