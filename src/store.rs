use std::collections::hash_map::RandomState;
use std::hash::BuildHasher;
use vstd::prelude::*;
use vstd::rwlock::{RwLock, RwLockPredicate};

use crate::dataframe::DataFrame;
use crate::shard::Shard;

verus! {

/// What every shard lock guards: a well-formed shard, keys strictly ascending.
pub struct ShardPred;

impl RwLockPredicate<Shard> for ShardPred {
    open spec fn inv(self, v: Shard) -> bool {
        v.wf()
    }
}

/// Relies on `RandomState::new`: a hash seed drawn afresh for this process.
#[verifier::external_body]
fn new_hash_seed() -> (r: RandomState) {
    RandomState::new()
}

/// Relies on `BuildHasher::hash_one` over `RandomState`: hashes `key` with the
/// store's seed. The seed differs from process to process, so nothing is
/// stated of the result.
#[verifier::external_body]
fn hash_key(seed: &RandomState, key: &[u8]) -> (r: u64) {
    seed.hash_one(key)
}

/// A store shared between tasks: a fixed number of independently locked
/// shards, each key living in the shard that its hash selects.
pub struct ConcurrentHashtable {
    shards: Vec<RwLock<Shard, ShardPred>>,
    hash_builder: RandomState,
}

impl ConcurrentHashtable {
    pub closed spec fn shard_count(&self) -> nat {
        self.shards@.len()
    }

    /// At least one shard, and every lock guards a well-formed shard.
    pub closed spec fn wf(&self) -> bool {
        &&& self.shards@.len() > 0
        &&& forall|i: int| 0 <= i < self.shards@.len() ==> (#[trigger] self.shards@[i]).pred() == ShardPred
    }

    /// A store of `no_shards` empty shards.
    pub fn with_shards(no_shards: usize) -> (r: Self)
        requires
            no_shards > 0,
        ensures
            r.wf(),
            r.shard_count() == no_shards,
    {
        let mut shards: Vec<RwLock<Shard, ShardPred>> = Vec::new();
        let mut i: usize = 0;
        while i < no_shards
            invariant
                i <= no_shards,
                shards@.len() == i,
                forall|j: int| 0 <= j < i ==> (#[trigger] shards@[j]).pred() == ShardPred,
            decreases no_shards - i,
        {
            shards.push(RwLock::new(Shard::new(), Ghost(ShardPred)));
            i = i + 1;
        }
        ConcurrentHashtable { shards, hash_builder: new_hash_seed() }
    }

    /// The shard that holds `key`.
    fn get_hash(&self, key: &[u8]) -> (r: usize)
        requires
            self.wf(),
        ensures
            r < self.shard_count(),
    {
        let h = hash_key(&self.hash_builder, key);
        (h % (self.shards.len() as u64)) as usize
    }
}

/// The operations of a key/value store shared between tasks. Every
/// operation takes the store by shared reference; its effect on the contents
/// is that of the same operation on a `Shard`, done atomically under a lock.
pub trait Store {
    /// The store is ready for use.
    spec fn ready(&self) -> bool;

    fn get(&self, key: &[u8]) -> Option<DataFrame>
        requires
            self.ready(),
    ;

    fn contains(&self, key: &[u8]) -> bool
        requires
            self.ready(),
    ;

    fn set(&self, key: Vec<u8>, val: DataFrame)
        requires
            self.ready(),
    ;

    fn remove(&self, key: &[u8]) -> bool
        requires
            self.ready(),
    ;

    fn remove_if_expired(&self, key: &[u8], now: u64) -> bool
        requires
            self.ready(),
    ;

    fn remove_if<F: Fn(&DataFrame) -> bool>(&self, key: &[u8], cond: F) -> bool
        requires
            self.ready(),
            forall|f: &DataFrame| #[trigger] cond.requires((f,)),
    ;

    fn for_each(&self) -> Vec<(Vec<u8>, DataFrame)>
        requires
            self.ready(),
    ;
}

impl Store for ConcurrentHashtable {
    open spec fn ready(&self) -> bool {
        self.wf()
    }

    /// A copy of the entry under `key`, if any, as its shard holds it at the
    /// moment its lock is taken.
    fn get(&self, key: &[u8]) -> Option<DataFrame> {
        let shard = &self.shards[self.get_hash(key)];
        let handle = shard.acquire_read();
        let r = match handle.borrow().get(key) {
            Some(f) => Some(f.duplicate()),
            None => None,
        };
        handle.release_read();
        r
    }

    /// Whether an entry is stored under `key`.
    fn contains(&self, key: &[u8]) -> bool {
        self.get(key).is_some()
    }

    /// Stores `val` under `key`, replacing what was there.
    fn set(&self, key: Vec<u8>, val: DataFrame) {
        let shard = &self.shards[self.get_hash(key.as_slice())];
        let (mut inner, handle) = shard.acquire_write();
        inner.set(key, val);
        handle.release_write(inner);
    }

    /// Removes the entry under `key`; returns whether there was one.
    fn remove(&self, key: &[u8]) -> bool {
        let shard = &self.shards[self.get_hash(key)];
        let (mut inner, handle) = shard.acquire_write();
        let r = inner.remove(key);
        handle.release_write(inner);
        r
    }

    /// Removes the entry under `key` if, under the shard's write lock, it is
    /// found expired at clock reading `now`; returns whether it was removed.
    fn remove_if_expired(&self, key: &[u8], now: u64) -> bool {
        let shard = &self.shards[self.get_hash(key)];
        let (mut inner, handle) = shard.acquire_write();
        let r = inner.remove_if_expired(key, now);
        handle.release_write(inner);
        r
    }

    /// Removes the entry under `key` if `cond`, asked under the shard's
    /// write lock, holds of it; returns whether it was removed.
    fn remove_if<F: Fn(&DataFrame) -> bool>(&self, key: &[u8], cond: F) -> bool {
        let shard = &self.shards[self.get_hash(key)];
        let (mut inner, handle) = shard.acquire_write();
        let r = inner.remove_if(key, cond);
        handle.release_write(inner);
        r
    }

    /// Every entry, shard by shard; within a shard in ascending key order.
    /// Each shard is read under its lock, so concurrent writes may show in
    /// some shards and not in others.
    fn for_each(&self) -> Vec<(Vec<u8>, DataFrame)> {
        let mut out: Vec<(Vec<u8>, DataFrame)> = Vec::new();
        let mut i: usize = 0;
        while i < self.shards.len()
            invariant
                self.wf(),
                i <= self.shards.len(),
            decreases self.shards.len() - i,
        {
            let handle = self.shards[i].acquire_read();
            let mut part = handle.borrow().for_each();
            handle.release_read();
            out.append(&mut part);
            i = i + 1;
        }
        out
    }
}

} // verus!
