//! A bounded cache that evicts the least recently used entry: recency is
//! tracked by handing every access a fresh, ever-growing priority.
use vstd::prelude::*;
use std::collections::HashMap;

verus! {

/// Keys map to priorities; priorities map back to the key and its value.
/// The entry with the smallest priority is the least recently used.
pub struct LRUCache<V> {
    pub capacity: usize,
    pub size: usize,
    pub min_prior: u32,
    pub max_prior: u32,
    pub key_prior_map: HashMap<u64, u32>,
    pub prior_value_map: HashMap<u32, (u64, V)>,
}

impl<V> LRUCache<V> {
    /// The two maps invert each other and all priorities lie between the
    /// tracked bounds.
    pub open spec fn wf(self) -> bool {
        &&& vstd::std_specs::hash::obeys_key_model::<u64>()
        &&& vstd::std_specs::hash::obeys_key_model::<u32>()
        &&& vstd::std_specs::hash::builds_valid_hashers::<std::collections::hash_map::RandomState>()
        &&& (forall|k: u64|
            self.key_prior_map@.dom().contains(k) ==> self.prior_value_map@.dom().contains(
                #[trigger] self.key_prior_map@[k],
            ) && self.prior_value_map@[self.key_prior_map@[k]].0 == k)
        &&& (forall|p: u32|
            self.prior_value_map@.dom().contains(p) ==> self.key_prior_map@.dom().contains(
                (#[trigger] self.prior_value_map@[p]).0,
            ) && self.key_prior_map@[self.prior_value_map@[p].0] == p)
        &&& (forall|p: u32|
            #[trigger] self.prior_value_map@.dom().contains(p) ==> self.min_prior <= p
                < self.max_prior)
        &&& self.min_prior <= self.max_prior
        &&& self.capacity >= 1
        &&& self.size <= self.capacity
    }

    /// The mapping the cache currently stores.
    pub open spec fn view(self) -> Map<u64, V> {
        Map::new(
            |k: u64| self.key_prior_map@.dom().contains(k),
            |k: u64| self.prior_value_map@[self.key_prior_map@[k]].1,
        )
    }

    /// An empty cache that will hold at most `capacity` entries.
    pub fn new(capacity: usize) -> (r: Self)
        requires
            capacity >= 1,
        ensures
            r.wf(),
            r.view() == Map::<u64, V>::empty(),
            r.capacity == capacity,
            r.size == 0,
    {
        let r = Self {
            capacity,
            size: 0,
            min_prior: 0,
            max_prior: 0,
            key_prior_map: HashMap::new(),
            prior_value_map: HashMap::new(),
        };
        proof {
            broadcast use vstd::std_specs::hash::axiom_u64_obeys_hash_table_key_model;
            broadcast use vstd::std_specs::hash::axiom_u32_obeys_hash_table_key_model;
            broadcast use vstd::std_specs::hash::axiom_random_state_builds_valid_hashers;
            assert(vstd::std_specs::hash::obeys_key_model::<u64>());
            assert(vstd::std_specs::hash::obeys_key_model::<u32>());
            assert(vstd::std_specs::hash::builds_valid_hashers::<
                std::collections::hash_map::RandomState,
            >());
            assert(r.view() =~= Map::<u64, V>::empty());
        }
        r
    }

    /// Looks `key` up and, when present, marks it most recently used.
    pub fn get(&mut self, key: &u64) -> (r: Option<&V>)
        requires
            old(self).wf(),
            old(self).max_prior < u32::MAX,
        ensures
            final(self).wf(),
            final(self).view() == old(self).view(),
            final(self).capacity == old(self).capacity,
            final(self).size == old(self).size,
            match r {
                Some(v) => old(self).view().dom().contains(*key) && *v == old(self).view()[*key]
                    && final(self).key_prior_map@[*key] == old(self).max_prior
                    && final(self).max_prior == old(self).max_prior + 1 && (forall|k: u64|
                    k != *key && #[trigger] old(self).key_prior_map@.dom().contains(k)
                        ==> final(self).key_prior_map@[k] == old(self).key_prior_map@[k]),
                None => !old(self).view().dom().contains(*key) && *final(self) == *old(self),
            },
    {
        if self.key_prior_map.contains_key(key) {
            self.get_and_update_prior(key)
        } else {
            None
        }
    }

    /// Puts `key` to `value`: replaces the old value when present, otherwise
    /// takes a free slot or evicts the least recently used entry.  Every key
    /// that stays keeps its value, and no keys appear from nowhere.
    pub fn insert(&mut self, key: u64, value: V) -> (r: Option<V>)
        requires
            old(self).wf(),
            old(self).max_prior < u32::MAX,
        ensures
            final(self).wf(),
            final(self).capacity == old(self).capacity,
            final(self).view().dom().contains(key),
            final(self).view()[key] == value,
            forall|k: u64|
                #[trigger] final(self).view().dom().contains(k) && k != key ==> old(
                    self,
                ).view().dom().contains(k) && final(self).view()[k] == old(self).view()[k],
            match r {
                Some(v) => old(self).view().dom().contains(key) && v == old(self).view()[key],
                None => !old(self).view().dom().contains(key),
            },
            final(self).key_prior_map@[key] == old(self).max_prior,
            final(self).size as int == if old(self).view().dom().contains(key) || old(self).size
                >= old(self).capacity {
                old(self).size as int
            } else {
                old(self).size + 1
            },
            old(self).view().dom().contains(key) || old(self).size < old(self).capacity
                ==> forall|k: u64|
                #[trigger] old(self).view().dom().contains(k) && k != key
                    ==> final(self).view().dom().contains(k) && final(self).view()[k] == old(
                    self,
                ).view()[k],
            (!old(self).view().dom().contains(key) && old(self).size >= old(self).capacity && (
            exists|kx: u64| old(self).view().dom().contains(kx))) ==> exists|k0: u64|
                #![auto]
                old(self).view().dom().contains(k0) && (forall|k: u64|
                    old(self).view().dom().contains(k) ==> old(self).key_prior_map@[k0] <= old(
                        self,
                    ).key_prior_map@[k]) && final(self).view() == old(self).view().remove(
                    k0,
                ).insert(key, value),
    {
        if self.key_prior_map.contains_key(&key) {
            self.get_old_and_insert(key, value)
        } else {
            self.insert_new(key, value);
            None
        }
    }

    /// Draws the next (most recent) priority.
    pub fn get_new_prior(&mut self) -> (r: u32)
        requires
            old(self).max_prior < u32::MAX,
        ensures
            r == old(self).max_prior,
            final(self).max_prior == old(self).max_prior + 1,
            final(self).capacity == old(self).capacity,
            final(self).size == old(self).size,
            final(self).min_prior == old(self).min_prior,
            final(self).key_prior_map@ == old(self).key_prior_map@,
            final(self).prior_value_map@ == old(self).prior_value_map@,
    {
        let new_prior = self.max_prior;
        self.max_prior = self.max_prior + 1;
        new_prior
    }

    /// Re-queues a known key at the freshest priority and hands its value
    /// back.
    pub fn get_and_update_prior(&mut self, key: &u64) -> (r: Option<&V>)
        requires
            old(self).wf(),
            old(self).max_prior < u32::MAX,
            old(self).key_prior_map@.dom().contains(*key),
        ensures
            final(self).wf(),
            final(self).view() == old(self).view(),
            final(self).capacity == old(self).capacity,
            final(self).size == old(self).size,
            final(self).key_prior_map@[*key] == old(self).max_prior,
            final(self).max_prior == old(self).max_prior + 1,
            forall|k: u64|
                k != *key && #[trigger] old(self).key_prior_map@.dom().contains(k)
                    ==> final(self).key_prior_map@[k] == old(self).key_prior_map@[k],
            match r {
                Some(v) => old(self).view().dom().contains(*key) && *v == old(self).view()[*key],
                None => false,
            },
    {
        let ghost prev = *self;
        let prior = match self.key_prior_map.remove(key) {
            Some(p) => p,
            None => {
                return vstd::pervasive::unreached();
            },
        };
        if self.prior_value_map.contains_key(&prior) {
            let new_prior = self.update_priors(prior);
            proof {
                let k0 = *key;
                assert forall|k: u64|
                    self.key_prior_map@.dom().contains(k) implies self.prior_value_map@.dom().contains(
                    #[trigger] self.key_prior_map@[k],
                ) && self.prior_value_map@[self.key_prior_map@[k]].0 == k by {
                    if k != k0 {
                        assert(self.key_prior_map@[k] == prev.key_prior_map@[k]);
                        assert(prev.key_prior_map@[k] != prior);
                    }
                }
                assert forall|p: u32|
                    self.prior_value_map@.dom().contains(p) implies self.key_prior_map@.dom().contains(
                    (#[trigger] self.prior_value_map@[p]).0,
                ) && self.key_prior_map@[self.prior_value_map@[p].0] == p by {
                    if p != prev.max_prior {
                        assert(prev.prior_value_map@.dom().contains(p));
                        assert(prev.key_prior_map@[prev.prior_value_map@[p].0] == p);
                        assert(self.prior_value_map@[p].0 != k0);
                    }
                }
                assert forall|p: u32|
                    self.prior_value_map@.dom().contains(p) implies self.min_prior <= p
                    < self.max_prior by {
                    assert(self.prior_value_map@.dom().contains(p));
                    if p != prev.max_prior {
                        assert(prev.prior_value_map@.dom().contains(p));
                        assert(p != prior);
                    }
                }
                assert(self.view() =~= prev.view());
            }
            match self.prior_value_map.get(&new_prior) {
                Some(pair) => Some(&pair.1),
                None => vstd::pervasive::unreached(),
            }
        } else {
            vstd::pervasive::unreached()
        }
    }

    /// Moves the entry at `prior` to the freshest priority and returns that
    /// priority.
    pub fn update_priors(&mut self, prior: u32) -> (r: u32)
        requires
            old(self).max_prior < u32::MAX,
            old(self).prior_value_map@.dom().contains(prior),
            old(self).key_prior_map@.dom() =~= old(self).key_prior_map@.dom().remove(
                old(self).prior_value_map@[prior].0,
            ),
            // The key was already taken out of the key map; the rest inverts.
            forall|k: u64|
                old(self).key_prior_map@.dom().contains(k) ==> old(
                    self,
                ).prior_value_map@.dom().contains(#[trigger] old(self).key_prior_map@[k]) && old(
                    self,
                ).prior_value_map@[old(self).key_prior_map@[k]].0 == k && old(
                    self,
                ).key_prior_map@[k] != prior,
            forall|p: u32|
                old(self).prior_value_map@.dom().contains(p) && p != prior ==> old(
                    self,
                ).key_prior_map@.dom().contains((#[trigger] old(self).prior_value_map@[p]).0)
                    && old(self).key_prior_map@[old(self).prior_value_map@[p].0] == p,
            forall|p: u32|
                #[trigger] old(self).prior_value_map@.dom().contains(p) ==> old(self).min_prior
                    <= p < old(self).max_prior,
            old(self).min_prior <= old(self).max_prior,
        ensures
            r == old(self).max_prior,
            final(self).capacity == old(self).capacity,
            final(self).size == old(self).size,
            final(self).max_prior == old(self).max_prior + 1,
            final(self).min_prior == if prior == old(self).min_prior {
                old(self).min_prior + 1
            } else {
                old(self).min_prior as int
            },
            final(self).key_prior_map@ == old(self).key_prior_map@.insert(
                old(self).prior_value_map@[prior].0,
                old(self).max_prior,
            ),
            final(self).prior_value_map@ == old(self).prior_value_map@.remove(prior).insert(
                old(self).max_prior,
                old(self).prior_value_map@[prior],
            ),
    {
        let pair = match self.prior_value_map.remove(&prior) {
            Some(p) => p,
            None => {
                return vstd::pervasive::unreached();
            },
        };
        if prior == self.min_prior {
            self.min_prior = self.min_prior + 1;
        }
        self.simple_insert_pair(pair)
    }

    /// Inserts a key/value pair at the freshest priority.
    fn simple_insert_pair(&mut self, pair: (u64, V)) -> (r: u32)
        requires
            old(self).max_prior < u32::MAX,
        ensures
            r == old(self).max_prior,
            final(self).capacity == old(self).capacity,
            final(self).size == old(self).size,
            final(self).min_prior == old(self).min_prior,
            final(self).max_prior == old(self).max_prior + 1,
            final(self).key_prior_map@ == old(self).key_prior_map@.insert(
                pair.0,
                old(self).max_prior,
            ),
            final(self).prior_value_map@ == old(self).prior_value_map@.insert(
                old(self).max_prior,
                pair,
            ),
    {
        let new_prior = self.get_new_prior();
        self.key_prior_map.insert(pair.0, new_prior);
        self.prior_value_map.insert(new_prior, pair);
        new_prior
    }

    /// Inserts `key` and `value` at the freshest priority.
    pub fn simple_insert(&mut self, key: u64, value: V) -> (r: u32)
        requires
            old(self).max_prior < u32::MAX,
        ensures
            r == old(self).max_prior,
            final(self).capacity == old(self).capacity,
            final(self).size == old(self).size,
            final(self).min_prior == old(self).min_prior,
            final(self).max_prior == old(self).max_prior + 1,
            final(self).key_prior_map@ == old(self).key_prior_map@.insert(
                key,
                old(self).max_prior,
            ),
            final(self).prior_value_map@ == old(self).prior_value_map@.insert(
                old(self).max_prior,
                (key, value),
            ),
    {
        self.simple_insert_pair((key, value))
    }

    /// Walks the priority range upward from `min_prior` and removes the
    /// first (least recently used) occupied entry, if one exists.
    pub fn remove_least_recent(&mut self)
        requires
            old(self).wf(),
        ensures
            final(self).wf(),
            final(self).capacity == old(self).capacity,
            final(self).size == old(self).size,
            final(self).max_prior == old(self).max_prior,
            forall|k: u64|
                #[trigger] final(self).view().dom().contains(k) ==> old(
                    self,
                ).view().dom().contains(k) && final(self).view()[k] == old(self).view()[k],
            (exists|p: u32| old(self).prior_value_map@.dom().contains(p)) ==> exists|p: u32|
                #![auto]
                old(self).prior_value_map@.dom().contains(p) && (forall|q: u32|
                    old(self).prior_value_map@.dom().contains(q) ==> p <= q)
                    && final(self).prior_value_map@ == old(self).prior_value_map@.remove(p)
                    && final(self).key_prior_map@ == old(self).key_prior_map@.remove(
                    old(self).prior_value_map@[p].0,
                ) && old(self).view().dom().contains(old(self).prior_value_map@[p].0)
                    && !final(self).view().dom().contains(old(self).prior_value_map@[p].0),
    {
        let ghost prev = *self;
        loop
            invariant
                self.wf(),
                self.capacity == prev.capacity,
                self.size == prev.size,
                self.max_prior == prev.max_prior,
                self.min_prior >= prev.min_prior,
                self.key_prior_map@ == prev.key_prior_map@,
                self.prior_value_map@ == prev.prior_value_map@,
            ensures
                self.wf(),
                self.capacity == prev.capacity,
                self.size == prev.size,
                self.max_prior == prev.max_prior,
                self.key_prior_map@ == prev.key_prior_map@,
                self.prior_value_map@ == prev.prior_value_map@,
                self.min_prior == self.max_prior || self.prior_value_map@.dom().contains(
                    self.min_prior,
                ),
            decreases prev.max_prior - self.min_prior,
        {
            if self.min_prior == self.max_prior {
                break ;
            }
            if self.prior_value_map.contains_key(&self.min_prior) {
                break ;
            }
            self.min_prior = self.min_prior + 1;
        }
        if self.min_prior == self.max_prior {
            proof {
                assert(forall|p: u32| !old(self).prior_value_map@.dom().contains(p));
                assert forall|k: u64| #[trigger] self.view().dom().contains(k) implies old(
                    self,
                ).view().dom().contains(k) && self.view()[k] == old(self).view()[k] by {}
            }
            return ;
        }
        let ghost evicted_prior = self.min_prior;
        proof {
            assert forall|q: u32| old(self).prior_value_map@.dom().contains(q) implies
                evicted_prior <= q by {}
        }
        let pair = match self.prior_value_map.remove(&self.min_prior) {
            Some(p) => p,
            None => {
                return vstd::pervasive::unreached();
            },
        };
        self.key_prior_map.remove(&pair.0);
        self.min_prior = self.min_prior + 1;
        proof {
            assert(old(self).view().dom().contains(pair.0));
            assert(!self.view().dom().contains(pair.0));
            assert forall|k: u64| #[trigger] self.view().dom().contains(k) implies old(
                self,
            ).view().dom().contains(k) && self.view()[k] == old(self).view()[k] by {
                assert(self.key_prior_map@[k] == old(self).key_prior_map@[k]);
            }
        }
    }

    /// Inserts a key that is not yet present, evicting the least recently
    /// used entry when the cache is full.
    pub fn insert_new(&mut self, key: u64, value: V)
        requires
            old(self).wf(),
            old(self).max_prior < u32::MAX,
            !old(self).key_prior_map@.dom().contains(key),
        ensures
            final(self).wf(),
            final(self).capacity == old(self).capacity,
            final(self).view().dom().contains(key),
            final(self).view()[key] == value,
            forall|k: u64|
                #[trigger] final(self).view().dom().contains(k) && k != key ==> old(
                    self,
                ).view().dom().contains(k) && final(self).view()[k] == old(self).view()[k],
            final(self).key_prior_map@[key] == old(self).max_prior,
            final(self).size as int == if old(self).size < old(self).capacity {
                old(self).size + 1
            } else {
                old(self).size as int
            },
            old(self).size < old(self).capacity ==> forall|k: u64|
                #[trigger] old(self).view().dom().contains(k) && k != key
                    ==> final(self).view().dom().contains(k) && final(self).view()[k] == old(
                    self,
                ).view()[k],
            (old(self).size >= old(self).capacity && (exists|kx: u64|
                old(self).view().dom().contains(kx))) ==> exists|k0: u64|
                #![auto]
                old(self).view().dom().contains(k0) && (forall|k: u64|
                    old(self).view().dom().contains(k) ==> old(self).key_prior_map@[k0] <= old(
                        self,
                    ).key_prior_map@[k]) && final(self).view() == old(self).view().remove(
                    k0,
                ).insert(key, value),
    {
        if self.size < self.capacity {
            self.size = self.size + 1;
        } else {
            self.remove_least_recent();
        }
        let ghost mid = *self;
        self.simple_insert(key, value);
        proof {
            assert forall|k: u64|
                self.key_prior_map@.dom().contains(k) implies self.prior_value_map@.dom().contains(
                #[trigger] self.key_prior_map@[k],
            ) && self.prior_value_map@[self.key_prior_map@[k]].0 == k by {
                if k != key {
                    assert(self.key_prior_map@[k] == mid.key_prior_map@[k]);
                    assert(mid.key_prior_map@[k] != mid.max_prior);
                }
            }
            assert forall|p: u32|
                self.prior_value_map@.dom().contains(p) implies self.key_prior_map@.dom().contains(
                (#[trigger] self.prior_value_map@[p]).0,
            ) && self.key_prior_map@[self.prior_value_map@[p].0] == p by {
                if p != mid.max_prior {
                    assert(mid.prior_value_map@.dom().contains(p));
                    assert(self.prior_value_map@[p] == mid.prior_value_map@[p]);
                    assert(!mid.view().dom().contains(key));
                    assert(mid.key_prior_map@.dom().contains(mid.prior_value_map@[p].0));
                    assert(self.prior_value_map@[p].0 != key);
                }
            }
            assert(self.view().dom().contains(key));
            assert(self.view()[key] == value);
            assert forall|k: u64| #[trigger] self.view().dom().contains(k) && k != key implies
                mid.view().dom().contains(k) && self.view()[k] == mid.view()[k] by {
                assert(self.key_prior_map@[k] == mid.key_prior_map@[k]);
                assert(mid.key_prior_map@[k] != mid.max_prior);
            }
            assert forall|p: u32|
                #[trigger] self.prior_value_map@.dom().contains(p) implies self.min_prior <= p
                < self.max_prior by {}
            if old(self).size < old(self).capacity {
                assert forall|k: u64|
                    #[trigger] old(self).view().dom().contains(k) && k != key implies
                    self.view().dom().contains(k) && self.view()[k] == old(self).view()[k] by {
                    assert(self.key_prior_map@[k] == old(self).key_prior_map@[k]);
                    assert(old(self).key_prior_map@[k] != mid.max_prior);
                }
            } else if exists|kx: u64| old(self).view().dom().contains(kx) {
                let kx = choose|kx: u64| old(self).view().dom().contains(kx);
                assert(old(self).prior_value_map@.dom().contains(
                    old(self).key_prior_map@[kx],
                ));
                let p = choose|p: u32|
                    #![auto]
                    old(self).prior_value_map@.dom().contains(p) && (forall|q: u32|
                        old(self).prior_value_map@.dom().contains(q) ==> p <= q)
                        && mid.prior_value_map@ == old(self).prior_value_map@.remove(p)
                        && mid.key_prior_map@ == old(self).key_prior_map@.remove(
                        old(self).prior_value_map@[p].0,
                    ) && old(self).view().dom().contains(old(self).prior_value_map@[p].0);
                let k0 = old(self).prior_value_map@[p].0;
                assert forall|k: u64|
                    old(self).view().dom().contains(k) implies old(self).key_prior_map@[k0]
                    <= old(self).key_prior_map@[k] by {
                    assert(old(self).prior_value_map@.dom().contains(
                        old(self).key_prior_map@[k],
                    ));
                }
                assert forall|k: u64|
                    #[trigger] self.view().dom().contains(k) == old(self).view().remove(
                    k0,
                ).insert(key, value).dom().contains(k) && (self.view().dom().contains(k)
                    ==> self.view()[k] == old(self).view().remove(k0).insert(
                    key,
                    value,
                )[k]) by {
                    if k != key && k != k0 {
                        if old(self).key_prior_map@.dom().contains(k) {
                            assert(self.key_prior_map@[k] == old(self).key_prior_map@[k]);
                            assert(old(self).key_prior_map@[k] != p);
                            assert(old(self).key_prior_map@[k] != mid.max_prior);
                        }
                    }
                }
                assert(self.view() =~= old(self).view().remove(k0).insert(key, value));
            }
        }
    }

    /// Replaces the value of a key that is already present and returns the
    /// old value, marking the key most recently used.
    pub fn get_old_and_insert(&mut self, key: u64, value: V) -> (r: Option<V>)
        requires
            old(self).wf(),
            old(self).max_prior < u32::MAX,
            old(self).key_prior_map@.dom().contains(key),
        ensures
            final(self).wf(),
            final(self).capacity == old(self).capacity,
            final(self).size == old(self).size,
            final(self).view().dom().contains(key),
            final(self).view()[key] == value,
            forall|k: u64|
                #[trigger] final(self).view().dom().contains(k) && k != key ==> old(
                    self,
                ).view().dom().contains(k) && final(self).view()[k] == old(self).view()[k],
            forall|k: u64|
                #[trigger] old(self).view().dom().contains(k) && k != key
                    ==> final(self).view().dom().contains(k) && final(self).view()[k] == old(
                    self,
                ).view()[k],
            final(self).key_prior_map@[key] == old(self).max_prior,
            match r {
                Some(v) => v == old(self).view()[key],
                None => false,
            },
    {
        let prior = match self.key_prior_map.remove(&key) {
            Some(p) => p,
            None => {
                return vstd::pervasive::unreached();
            },
        };
        let old_pair = match self.prior_value_map.remove(&prior) {
            Some(p) => p,
            None => {
                return vstd::pervasive::unreached();
            },
        };
        let ghost mid = *self;
        self.simple_insert(key, value);
        proof {
            assert forall|k: u64| #[trigger] self.view().dom().contains(k) && k != key implies
                old(self).view().dom().contains(k) && self.view()[k] == old(self).view()[k] by {
                assert(self.key_prior_map@[k] == old(self).key_prior_map@[k]);
                assert(old(self).key_prior_map@[k] != prior);
                assert(old(self).key_prior_map@[k] != mid.max_prior);
            }
            assert forall|k: u64| #[trigger] old(self).view().dom().contains(k) && k != key
                implies self.view().dom().contains(k) && self.view()[k] == old(self).view()[k] by {
                assert(self.key_prior_map@[k] == old(self).key_prior_map@[k]);
                assert(old(self).key_prior_map@[k] != prior);
                assert(old(self).key_prior_map@[k] != mid.max_prior);
            }
            assert(old_pair.1 == old(self).view()[key]);
        }
        Some(old_pair.1)
    }
}

} // verus!
