//! The transposition cache: what a search has already found out about a state.

use std::collections::HashMap;
use std::marker::PhantomData;
use vstd::prelude::*;

verus! {

/// How the value of an entry relates to the true value of its state.
#[derive(Debug, Copy, Clone, PartialEq, Eq, Hash, Structural)]
pub enum CacheFlag {
    Exact,
    LowerBound,
    UpperBound,
}

/// What one search of a state found: a value, the depth that was left when it
/// was found, and whether the value is exact or a bound.
#[derive(Debug, Copy, Clone, PartialEq, Eq, Hash, Structural)]
pub struct CacheEntry {
    pub value: i32,
    pub level: u8,
    pub flag: CacheFlag,
}

/// A store of entries by state.
pub trait Cache<S> {
    /// Whether `set` records what it is given. A cache that does not never
    /// answers a `get`.
    spec fn stores() -> bool;

    /// What the cache holds.
    spec fn entries(&self) -> Map<S, CacheEntry>;

    /// Records `entry` for `state`, in place of what was recorded before.
    fn set(&mut self, state: &S, entry: CacheEntry)
        ensures
            final(self).entries() == if Self::stores() {
                old(self).entries().insert(*state, entry)
            } else {
                old(self).entries()
            },
    ;

    /// The entry recorded for `state`, if there is one.
    fn get(&mut self, state: &S) -> (r: Option<CacheEntry>)
        ensures
            final(self).entries() == old(self).entries(),
            r == if Self::stores() && old(self).entries().contains_key(*state) {
                Some(old(self).entries()[*state])
            } else {
                None
            },
    ;
}

/// The key under which a hash map files a state.
pub type Key = (u128, u128);

/// A hash map that is hashed by `ahash`.
pub type KeyedTable<V> = HashMap<Key, V, ahash::RandomState>;

/// The table behind a `HashMapCache`.
pub type Table = KeyedTable<CacheEntry>;

/// The hasher state of `ahash`, which seeds the cache's table.
#[verifier::external_type_specification]
#[verifier::external_body]
pub struct ExRandomState(ahash::RandomState);

/// A state that a `HashMapCache` can file: it has a key, and no two states
/// share one.
pub trait CacheKey: Sized {
    spec fn key_of(&self) -> Key;

    fn cache_key(&self) -> (k: Key)
        ensures
            k == self.key_of(),
    ;

    proof fn lemma_key_injective(&self, other: &Self)
        ensures
            self.key_of() == other.key_of() ==> *self == *other,
    ;
}

/// `HashMap::insert` on a table hashed by `ahash`: afterwards the table holds
/// `value` under `key` and is otherwise as before.
#[verifier::external_body]
pub(crate) fn table_insert<V>(table: &mut KeyedTable<V>, key: Key, value: V)
    ensures
        final(table)@ == old(table)@.insert(key, value),
{
    table.insert(key, value);
}

/// `HashMap::get` on a table hashed by `ahash`: what the table holds under
/// `key`, if it holds anything there.
#[verifier::external_body]
pub(crate) fn table_get<V>(table: &KeyedTable<V>, key: Key) -> (r: Option<&V>)
    ensures
        r == if table@.contains_key(key) { Some(&table@[key]) } else { None::<&V> },
{
    table.get(&key)
}

/// A cache that keeps every entry in a hash map.
#[derive(Debug)]
pub struct HashMapCache<S> {
    table: Table,
    state: PhantomData<S>,
}

impl<S> HashMapCache<S> {
    /// The table that the cache files its entries in.
    pub closed spec fn table(&self) -> Map<Key, CacheEntry> {
        self.table@
    }

    /// A cache that starts with the entries of `map`.
    pub fn new(map: Table) -> (r: Self)
        ensures
            r.table() == map@,
    {
        Self { table: map, state: PhantomData }
    }
}

impl<S> Clone for HashMapCache<S> {
    fn clone(&self) -> (r: Self)
        ensures
            r.table() == self.table(),
    {
        Self { table: self.table.clone(), state: PhantomData }
    }
}

impl<S> Default for HashMapCache<S> {
    fn default() -> (r: Self)
        ensures
            r.table() == Map::<Key, CacheEntry>::empty(),
    {
        Self { table: HashMap::default(), state: PhantomData }
    }
}

impl<S: CacheKey> Cache<S> for HashMapCache<S> {
    open spec fn stores() -> bool {
        true
    }

    open spec fn entries(&self) -> Map<S, CacheEntry> {
        Map::new(
            |s: S| self.table().contains_key(s.key_of()),
            |s: S| self.table()[s.key_of()],
        )
    }

    fn set(&mut self, state: &S, entry: CacheEntry) {
        let key = state.cache_key();
        table_insert(&mut self.table, key, entry);
        proof {
            assert forall|s: S|
                #[trigger] self.table().contains_key(s.key_of()) == old(self).entries().insert(
                    *state,
                    entry,
                ).contains_key(s) by {
                s.lemma_key_injective(state);
            }
            assert forall|s: S| self.table().contains_key(s.key_of())
                implies self.table()[s.key_of()]
                == #[trigger] old(self).entries().insert(*state, entry)[s] by {
                s.lemma_key_injective(state);
            }
            assert(self.entries() =~= old(self).entries().insert(*state, entry));
        }
    }

    fn get(&mut self, state: &S) -> (r: Option<CacheEntry>) {
        match table_get(&self.table, state.cache_key()) {
            Some(entry) => Some(*entry),
            None => None,
        }
    }
}

/// A cache that keeps nothing.
#[derive(Debug, Copy, Clone, PartialEq, Eq, Hash, Structural)]
pub struct NullCache;

impl Default for NullCache {
    fn default() -> (r: Self)
        ensures
            r == NullCache,
    {
        NullCache
    }
}

impl<S> Cache<S> for NullCache {
    open spec fn stores() -> bool {
        false
    }

    open spec fn entries(&self) -> Map<S, CacheEntry> {
        Map::empty()
    }

    fn set(&mut self, _state: &S, _entry: CacheEntry) {
    }

    fn get(&mut self, _state: &S) -> (r: Option<CacheEntry>) {
        None
    }
}

} // verus!
