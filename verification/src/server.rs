//! The server's state: the store and the cache of answers, behind the one
//! function that turns a datagram into what is done with the socket.

use crate::application::{Response, ResponseView};
use crate::engine::{cache_bounded, cache_view, step, EngineState, CACHE_TTL_NANOS};
use crate::expiring_hashmap::ExpiringHashMap;
use crate::kv_store::{handler, stored_bytes, Action, KVStore};
use vstd::prelude::*;

verus! {

broadcast use vstd::std_specs::hash::group_hash_axioms;

/// The store and the cache that suppresses duplicate requests.
pub struct Server {
    kvstore: KVStore,
    at_most_once_cache: ExpiringHashMap<u128, Response>,
}

impl View for Server {
    type V = EngineState;

    closed spec fn view(&self) -> EngineState {
        EngineState { store: self.kvstore@, cache: cache_view(self.at_most_once_cache@) }
    }
}

impl Server {
    /// The server's invariant: store and cache are well formed, answers are
    /// remembered for one second, and every remembered answer can be
    /// written.
    pub closed spec fn wf(&self) -> bool {
        &&& self.kvstore.wf()
        &&& self.at_most_once_cache.wf()
        &&& self.at_most_once_cache.ttl() == CACHE_TTL_NANOS
        &&& cache_bounded(cache_view(self.at_most_once_cache@))
    }

    /// A server with an empty store and an empty cache.
    pub fn new() -> (r: Server)
        ensures
            r.wf(),
            r@ == (EngineState { store: Map::empty(), cache: Map::empty() }),
    {
        let r = Server {
            kvstore: KVStore::new(),
            at_most_once_cache: ExpiringHashMap::new(CACHE_TTL_NANOS),
        };
        assert(cache_view(r.at_most_once_cache@) =~= Map::<u128, (u128, ResponseView)>::empty());
        r
    }

    /// The number of entries in the store.
    pub fn store_len(&self) -> (r: usize)
        requires
            self.wf(),
        ensures
            r == self@.store.dom().len(),
    {
        self.kvstore.len()
    }

    /// The bytes that the store's entries count for.
    pub fn store_size(&self) -> (r: usize)
        requires
            self.wf(),
        ensures
            r == stored_bytes(self@.store),
    {
        self.kvstore.approximate_size()
    }

    /// Handles one datagram at the present time: one step of the engine.
    /// `pid` is the identifier of the process, for the request that asks for
    /// it.
    pub fn _parse_bytes(&mut self, buf: &[u8], pid: i32) -> (r: Action)
        requires
            old(self).wf(),
        ensures
            final(self).wf(),
            exists|now: u128|
                (final(self)@, r@) == #[trigger] step(old(self)@, CACHE_TTL_NANOS, buf@, now, pid),
    {
        let r = handler(&mut self.kvstore, &mut self.at_most_once_cache, buf, pid);
        proof {
            let before = EngineState {
                store: old(self).kvstore@,
                cache: cache_view(old(self).at_most_once_cache@),
            };
            let after = EngineState {
                store: self.kvstore@,
                cache: cache_view(self.at_most_once_cache@),
            };
            let now = choose|now: u128|
                (after, r@) == #[trigger] step(before, CACHE_TTL_NANOS, buf@, now, pid);
            assert((self@, r@) == step(old(self)@, CACHE_TTL_NANOS, buf@, now, pid));
        }
        r
    }
}

impl Default for Server {
    fn default() -> (r: Server)
        ensures
            r.wf(),
            r@ == (EngineState { store: Map::empty(), cache: Map::empty() }),
    {
        Server::new()
    }
}

} // verus!
