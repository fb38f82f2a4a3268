//! Walking several sequences in turn.

use vstd::prelude::*;

verus! {

/// A walk whose items can be collected.
pub trait IterUtil: Sized {
    type Item;

    /// The items that are still to come, in their order.
    spec fn rest(&self) -> Seq<Self::Item>;

    /// The items that are still to come, in a vector that has room for
    /// `capacity` items from the start.
    fn collect_vec_with_capacity(self, capacity: usize) -> (r: Vec<Self::Item>)
        ensures
            r@ == self.rest(),
    ;
}

/// Several sequences that are walked in turn: one item of the first, one of
/// the second, and so on round and round, past the sequences that have run
/// out.
#[derive(Debug)]
pub struct FlattenInterleaving<T> {
    /// What is left of each sequence, last item first.
    iters: Vec<Vec<T>>,
    /// The sequence whose turn it is.
    index: usize,
}

/// How many items the sequences hold together.
pub open spec fn total_len<T>(sources: Seq<Seq<T>>) -> nat
    decreases sources.len(),
{
    if sources.len() == 0 {
        0
    } else {
        total_len(sources.drop_last()) + sources.last().len()
    }
}

/// The first sequence with an item left, going round from the one at
/// `index` and looking at no more than `steps` sequences. It is told by how
/// far it is from `index`.
pub open spec fn first_live<T>(sources: Seq<Seq<T>>, index: int, steps: nat) -> Option<int>
    decreases steps,
{
    if steps == 0 || sources.len() == 0 {
        None
    } else if sources[index % (sources.len() as int)].len() > 0 {
        Some(0)
    } else {
        match first_live(sources, (index + 1) % (sources.len() as int), (steps - 1) as nat) {
            Some(d) => Some(d + 1),
            None => None,
        }
    }
}

/// The sequence whose item comes next, if any has one left.
pub open spec fn next_source<T>(sources: Seq<Seq<T>>, index: int) -> Option<int> {
    match first_live(sources, index, sources.len()) {
        Some(d) => Some((index + d) % (sources.len() as int)),
        None => None,
    }
}

/// The sequences after the first item of the one at `at` has been taken.
pub open spec fn without_first<T>(sources: Seq<Seq<T>>, at: int) -> Seq<Seq<T>> {
    sources.update(at, sources[at].drop_first())
}

/// The first `n` items of the walk that starts with the sequence at
/// `index`, or all of them where there are fewer.
pub open spec fn interleaved<T>(sources: Seq<Seq<T>>, index: int, n: nat) -> Seq<T>
    decreases n,
{
    if n == 0 {
        Seq::empty()
    } else {
        match next_source(sources, index) {
            Some(at) => seq![sources[at][0]] + interleaved(
                without_first(sources, at),
                (at + 1) % (sources.len() as int),
                (n - 1) as nat,
            ),
            None => Seq::empty(),
        }
    }
}

/// Walks the sequences in turn, starting with the first.
pub fn flatten_interleaving<T>(iters: Vec<Vec<T>>) -> (r: FlattenInterleaving<T>)
    ensures
        r.sources() == iters@.map_values(|v: Vec<T>| v@),
        r.turn() == 0,
{
    FlattenInterleaving::new(iters)
}

impl<T> FlattenInterleaving<T> {
    /// What is left of each sequence.
    pub closed spec fn sources(&self) -> Seq<Seq<T>> {
        self.iters@.map_values(|v: Vec<T>| v@.reverse())
    }

    /// The place of the sequence whose turn it is.
    pub closed spec fn turn(&self) -> int {
        self.index as int
    }

    #[verifier::type_invariant]
    closed spec fn turn_in_range(&self) -> bool {
        self.index < self.iters.len() || self.index == 0
    }

    pub fn new(iters: Vec<Vec<T>>) -> (r: FlattenInterleaving<T>)
        ensures
            r.sources() == iters@.map_values(|v: Vec<T>| v@),
            r.turn() == 0,
    {
        let ghost given = iters@;
        let mut iters = iters;
        let mut turned: Vec<Vec<T>> = Vec::new();
        while iters.len() > 0
            invariant
                iters.len() + turned.len() == given.len(),
                forall|i: int| 0 <= i < iters.len() ==> #[trigger] iters[i] == given[i],
                forall|i: int|
                    0 <= i < turned.len() ==> (#[trigger] turned[i])@ == given[given.len() - 1
                        - i]@,
            decreases iters.len(),
        {
            let source = iters.pop().unwrap();
            turned.push(source);
        }
        let mut ordered: Vec<Vec<T>> = Vec::new();
        while turned.len() > 0
            invariant
                turned.len() + ordered.len() == given.len(),
                forall|i: int|
                    0 <= i < turned.len() ==> (#[trigger] turned[i])@ == given[given.len() - 1
                        - i]@,
                forall|i: int|
                    0 <= i < ordered.len() ==> (#[trigger] ordered[i])@ == given[i]@.reverse(),
            decreases turned.len(),
        {
            let mut source = turned.pop().unwrap();
            let ghost items = source@;
            let mut back: Vec<T> = Vec::new();
            while source.len() > 0
                invariant
                    source.len() + back.len() == items.len(),
                    forall|i: int| 0 <= i < source.len() ==> #[trigger] source[i] == items[i],
                    forall|i: int|
                        0 <= i < back.len() ==> #[trigger] back[i] == items[items.len() - 1 - i],
                decreases source.len(),
            {
                let item = source.pop().unwrap();
                back.push(item);
            }
            proof {
                assert(back@ =~= items.reverse());
            }
            ordered.push(back);
        }
        let r = FlattenInterleaving { iters: ordered, index: 0 };
        proof {
            assert(r.sources() =~= given.map_values(|v: Vec<T>| v@)) by {
                assert forall|i: int| 0 <= i < given.len() implies r.sources()[i] == given[i]@ by {
                    assert(ordered[i]@.reverse() =~= given[i]@);
                }
            }
        }
        r
    }

    /// The next item of the walk: the first item of the first sequence that
    /// has one left, going round from the one whose turn it is. The turn
    /// passes to the sequence after it. Where no sequence has an item left
    /// there is none, and nothing changes.
    pub fn next(&mut self) -> (r: Option<T>)
        ensures
            match next_source(old(self).sources(), old(self).turn()) {
                Some(at) => {
                    &&& 0 <= at < old(self).sources().len()
                    &&& old(self).sources()[at].len() > 0
                    &&& r == Some(old(self).sources()[at][0])
                    &&& final(self).sources() == without_first(old(self).sources(), at)
                    &&& final(self).turn() == (at + 1) % (old(self).sources().len() as int)
                },
                None => {
                    &&& r is None
                    &&& final(self).sources() == old(self).sources()
                    &&& final(self).turn() == old(self).turn()
                    &&& total_len(old(self).sources()) == 0
                },
            },
    {
        proof {
            use_type_invariant(&*self);
        }
        let len = self.iters.len();
        if len == 0 {
            proof {
                assert(self.sources().len() == 0);
            }
            return None;
        }
        let ghost sources = self.sources();
        let ghost start = self.index as int;
        let mut step: usize = 0;
        proof {
            vstd::arithmetic::div_mod::lemma_small_mod(start as nat, len as nat);
        }
        while step < len
            invariant
                0 <= step <= len,
                len == self.iters.len(),
                len == sources.len(),
                self.sources() == sources,
                old(self).sources() == sources,
                old(self).turn() == start,
                self.iters@ == old(self).iters@,
                0 <= start < len,
                self.index == (start + step) % (len as int),
                first_live(sources, start, len as nat) == match first_live(
                    sources,
                    self.index as int,
                    (len - step) as nat,
                ) {
                    Some(d) => Some(d + step),
                    None => None,
                },
                forall|t: int|
                    0 <= t < step ==> sources[#[trigger] round(start, t, len as int)].len() == 0,
            decreases len - step,
        {
            let at = self.index;
            proof {
                vstd::arithmetic::div_mod::lemma_mod_bound(start + step, len as int);
                assert(at < len);
                vstd::arithmetic::div_mod::lemma_small_mod(at as nat, len as nat);
                assert(self.iters@[at as int]@.reverse().len() == self.iters@[at as int]@.len());
                assert(sources[at as int] == self.iters@[at as int]@.reverse());
                lemma_mod_step(start, step as int, len as int);
            }
            if self.iters[at].len() > 0 {
                let ghost held = self.iters@[at as int]@;
                let item = self.iters[at].pop().unwrap();
                self.index = (self.index + 1) % len;
                proof {
                    assert(at as int % (len as int) == at as int);
                    assert(first_live(sources, at as int, (len - step) as nat) == Some(0int));
                    assert(self.iters@[at as int]@ == held.drop_last());
                    assert(held.drop_last().reverse() =~= held.reverse().drop_first());
                    assert(self.sources() =~= without_first(sources, at as int)) by {
                        assert forall|i: int| 0 <= i < len implies self.sources()[i]
                            == without_first(sources, at as int)[i] by {
                            if i != at {
                                assert(self.iters@[i] == old(self).iters@[i]);
                            }
                        }
                    }
                    assert(held.reverse()[0] == item);
                    assert(first_live(sources, start, len as nat) == Some(step as int));
                    assert(next_source(sources, start) == Some(at as int));
                    assert(sources[at as int].len() > 0);
                    assert(sources[at as int][0] == item);
                    assert(self.index as int == (at + 1) % (len as int));
                }
                return Some(item);
            }
            self.index = (self.index + 1) % len;
            proof {
                assert(at as int % (len as int) == at as int);
                assert(round(start, step as int, len as int) == at);
            }
            step += 1;
        }
        proof {
            assert(self.index == (start + len) % (len as int));
            lemma_mod_round(start, len as int);
            lemma_total_len_empty(sources, start);
        }
        None
    }

    /// All the items of the walk, from the sequence whose turn it is on.
    pub fn collect(self) -> (r: Vec<T>)
        ensures
            r@ == interleaved(self.sources(), self.turn(), total_len(self.sources())),
    {
        self.collect_vec_with_capacity(0)
    }
}

impl<T> IterUtil for FlattenInterleaving<T> {
    type Item = T;

    open spec fn rest(&self) -> Seq<T> {
        interleaved(self.sources(), self.turn(), total_len(self.sources()))
    }

    fn collect_vec_with_capacity(self, capacity: usize) -> (r: Vec<T>) {
        let mut walk = self;
        let mut items: Vec<T> = Vec::with_capacity(capacity);
        loop
            invariant
                items@ + interleaved(walk.sources(), walk.turn(), total_len(walk.sources()))
                    == interleaved(self.sources(), self.turn(), total_len(self.sources())),
            ensures
                items@ == interleaved(self.sources(), self.turn(), total_len(self.sources())),
            decreases total_len(walk.sources()),
        {
            let ghost before = walk.sources();
            let ghost turn = walk.turn();
            match walk.next() {
                Some(item) => {
                    proof {
                        let at = next_source(before, turn).unwrap();
                        lemma_total_len_without_first(before, at);
                        let rest = interleaved(
                            without_first(before, at),
                            (at + 1) % (before.len() as int),
                            (total_len(before) - 1) as nat,
                        );
                        assert(interleaved(before, turn, total_len(before)) == seq![item] + rest);
                        assert(items@.push(item) + rest =~= items@ + (seq![item] + rest));
                    }
                    items.push(item);
                },
                None => {
                    proof {
                        assert(interleaved(before, turn, total_len(before)) =~= Seq::<T>::empty());
                        assert(items@ + Seq::<T>::empty() =~= items@);
                    }
                    break;
                },
            }
        }
        items
    }
}

/// The place that is `t` places round from `start`, of `len` places.
pub open spec fn round(start: int, t: int, len: int) -> int {
    (start + t) % len
}

/// One step further round is one more.
proof fn lemma_mod_step(start: int, step: int, len: int)
    requires
        0 <= start < len,
        0 <= step,
    ensures
        ((start + step) % len + 1) % len == (start + step + 1) % len,
{
    vstd::arithmetic::div_mod::lemma_add_mod_noop(start + step, 1, len);
    vstd::arithmetic::div_mod::lemma_mod_twice(start + step, len);
    if len == 1 {
    } else {
        vstd::arithmetic::div_mod::lemma_small_mod(1, len as nat);
    }
}

/// Once round leads back.
proof fn lemma_mod_round(start: int, len: int)
    requires
        0 <= start < len,
    ensures
        (start + len) % len == start,
{
    vstd::arithmetic::div_mod::lemma_mod_add_multiples_vanish(start, len);
    vstd::arithmetic::div_mod::lemma_small_mod(start as nat, len as nat);
}

/// Sequences that are all empty hold nothing.
proof fn lemma_total_len_empty<T>(sources: Seq<Seq<T>>, start: int)
    requires
        0 <= start < sources.len(),
        forall|t: int|
            0 <= t < sources.len() ==> sources[#[trigger] round(start, t,
                sources.len() as int)].len()
                == 0,
    ensures
        total_len(sources) == 0,
{
    let len = sources.len() as int;
    assert forall|i: int| 0 <= i < len implies (#[trigger] sources[i]).len() == 0 by {
        let t = if i >= start {
            i - start
        } else {
            i - start + len
        };
        if i >= start {
            vstd::arithmetic::div_mod::lemma_small_mod(i as nat, len as nat);
        } else {
            vstd::arithmetic::div_mod::lemma_mod_add_multiples_vanish(i, len);
            vstd::arithmetic::div_mod::lemma_small_mod(i as nat, len as nat);
        }
        assert(round(start, t, len) == i);
    }
    lemma_total_len_zero(sources);
}

proof fn lemma_total_len_zero<T>(sources: Seq<Seq<T>>)
    requires
        forall|i: int| 0 <= i < sources.len() ==> (#[trigger] sources[i]).len() == 0,
    ensures
        total_len(sources) == 0,
    decreases sources.len(),
{
    if sources.len() > 0 {
        assert forall|i: int| 0 <= i < sources.drop_last().len() implies (
        #[trigger] sources.drop_last()[i]).len() == 0 by {
            assert(sources.drop_last()[i] == sources[i]);
        }
        lemma_total_len_zero(sources.drop_last());
    }
}

/// To take an item is to hold one item less.
proof fn lemma_total_len_without_first<T>(sources: Seq<Seq<T>>, at: int)
    requires
        0 <= at < sources.len(),
        sources[at].len() > 0,
    ensures
        total_len(without_first(sources, at)) == total_len(sources) - 1,
    decreases sources.len(),
{
    let after = without_first(sources, at);
    if at == sources.len() - 1 {
        assert(after.drop_last() =~= sources.drop_last());
    } else {
        assert(after.drop_last() =~= without_first(sources.drop_last(), at));
        lemma_total_len_without_first(sources.drop_last(), at);
    }
}

} // verus!
