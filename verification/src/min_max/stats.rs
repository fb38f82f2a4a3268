//! Counters a search may keep about its own work.

use vstd::prelude::*;

verus! {

/// What the counters of a `Stats` hold: prunes, cache hits, cache misses and
/// scored states, in that order.
pub struct Tally {
    pub prunes: nat,
    pub cache_hits: nat,
    pub cache_misses: nat,
    pub states_scored: nat,
}

/// A sink for the events of a search.
pub trait Stats {
    /// Whether the counters keep what is recorded.
    spec fn counts() -> bool;

    /// The counters as numbers.
    spec fn tally(&self) -> Tally;

    /// Whether every counter can still take one more event.
    spec fn has_room(&self) -> bool;

    fn record_prune(&mut self)
        requires
            old(self).has_room(),
        ensures
            final(self).tally() == if Self::counts() {
                (Tally { prunes: old(self).tally().prunes + 1, ..old(self).tally() })
            } else {
                old(self).tally()
            },
    ;

    fn record_cache_hit(&mut self)
        requires
            old(self).has_room(),
        ensures
            final(self).tally() == if Self::counts() {
                (Tally { cache_hits: old(self).tally().cache_hits + 1, ..old(self).tally() })
            } else {
                old(self).tally()
            },
    ;

    fn record_cache_miss(&mut self)
        requires
            old(self).has_room(),
        ensures
            final(self).tally() == if Self::counts() {
                (Tally { cache_misses: old(self).tally().cache_misses + 1, ..old(self).tally() })
            } else {
                old(self).tally()
            },
    ;

    fn record_state_scored(&mut self)
        requires
            old(self).has_room(),
        ensures
            final(self).tally() == if Self::counts() {
                (Tally { states_scored: old(self).tally().states_scored + 1, ..old(self).tally() })
            } else {
                old(self).tally()
            },
    ;
}

/// Counts nothing.
#[derive(Debug)]
pub struct NullStats;

impl Default for NullStats {
    fn default() -> (r: Self)
        ensures
            r == NullStats,
    {
        NullStats
    }
}

impl Stats for NullStats {
    open spec fn counts() -> bool {
        false
    }

    open spec fn tally(&self) -> Tally {
        Tally { prunes: 0, cache_hits: 0, cache_misses: 0, states_scored: 0 }
    }

    open spec fn has_room(&self) -> bool {
        true
    }

    fn record_prune(&mut self) {
    }

    fn record_cache_hit(&mut self) {
    }

    fn record_cache_miss(&mut self) {
    }

    fn record_state_scored(&mut self) {
    }
}

/// Counts each kind of event.
#[derive(Debug, Clone)]
pub struct SimpleStats {
    pub prune_count: u64,
    pub cache_hit_count: u64,
    pub cache_miss_count: u64,
    pub state_scored_count: u64,
}

impl Default for SimpleStats {
    fn default() -> (r: Self)
        ensures
            r.prune_count == 0,
            r.cache_hit_count == 0,
            r.cache_miss_count == 0,
            r.state_scored_count == 0,
    {
        SimpleStats { prune_count: 0, cache_hit_count: 0, cache_miss_count: 0,
            state_scored_count: 0 }
    }
}

impl Stats for SimpleStats {
    open spec fn counts() -> bool {
        true
    }

    open spec fn tally(&self) -> Tally {
        Tally {
            prunes: self.prune_count as nat,
            cache_hits: self.cache_hit_count as nat,
            cache_misses: self.cache_miss_count as nat,
            states_scored: self.state_scored_count as nat,
        }
    }

    open spec fn has_room(&self) -> bool {
        &&& self.prune_count < u64::MAX
        &&& self.cache_hit_count < u64::MAX
        &&& self.cache_miss_count < u64::MAX
        &&& self.state_scored_count < u64::MAX
    }

    fn record_prune(&mut self) {
        self.prune_count += 1;
    }

    fn record_cache_hit(&mut self) {
        self.cache_hit_count += 1;
    }

    fn record_cache_miss(&mut self) {
        self.cache_miss_count += 1;
    }

    fn record_state_scored(&mut self) {
        self.state_scored_count += 1;
    }
}

} // verus!
