//! The cache contract that every eviction policy obeys, key hashing, and the
//! k-way set-associative dispatcher that fans requests out to independent
//! shards.
use vstd::prelude::*;

use crate::RequestId;
use crate::TimeUnit;

verus! {

/// The hash that shard selection is derived from, as a function of the key.
pub uninterp spec fn stable_hash_of(key: u64) -> u64;

/// Relies on `ahash::AHasher::default`, which (with the crate's `std` and
/// `runtime-rng` features disabled, as this crate requests) hashes with the
/// hardcoded fixed keys, so the result depends on the hashed key alone.
/// Hashing a `u64` feeds it to the hasher with one `write_u64`.
#[verifier::external_body]
pub fn key_hash(key: u64) -> (r: u64)
    ensures
        r == stable_hash_of(key),
{
    let mut hasher = ahash::AHasher::default();
    std::hash::Hasher::write_u64(&mut hasher, key);
    std::hash::Hasher::finish(&hasher)
}

/// The shard that `key` is routed to among `k` shards.
pub open spec fn shard_index_of(key: RequestId, k: usize) -> usize
    recommends
        k >= 1,
{
    (stable_hash_of(key) as usize) % k
}

/// A bounded store of keys with opaque values. A policy decides which key to
/// evict when a write finds the store full; it never rejects a write.
///
/// `residency` is the set of keys currently stored, `wf` the policy's internal
/// invariant, and `may_write` records for which keys the policy has the
/// bookkeeping that a `write` relies on: a key may be written after it has
/// been the subject of a `get`, and `write` never revokes that right. The
/// delay-aware policy needs this protocol: its eviction scan reads the
/// metadata that only a `get` creates, which is also the order of operations
/// the simulator performs (a write only admits a fetched miss).
pub trait Cache<V>: Sized {
    /// The set of keys the cache currently holds values for.
    spec fn residency(&self) -> Set<RequestId>;

    /// The policy's internal invariant.
    spec fn wf(&self) -> bool;

    /// Whether the policy is prepared to accept a `write` of `key`.
    spec fn may_write(&self, key: RequestId) -> bool;

    /// Insert `key`. If `key` was resident its value is overwritten and the
    /// residency is unchanged; otherwise, if the store is full, exactly one
    /// victim of the policy's choice is removed first. The timestamp only
    /// feeds the policy's heuristics.
    fn write(&mut self, key: RequestId, value: V, timestamp: TimeUnit)
        requires
            old(self).wf(),
            old(self).may_write(key),
        ensures
            final(self).wf(),
            final(self).residency().contains(key),
            final(self).residency().subset_of(old(self).residency().insert(key)),
            old(self).residency().contains(key) ==> final(self).residency() == old(self).residency(),
            forall|k: RequestId| old(self).may_write(k) ==> final(self).may_write(k),
    ;

    /// Consult the residency; the result is `Some` exactly when `key` is
    /// resident. The call may update the policy's heuristic state but never
    /// the residency itself, and it entitles the caller to `write` the key.
    fn get(&mut self, key: &RequestId, timestamp: TimeUnit) -> (r: Option<&V>)
        requires
            old(self).wf(),
        ensures
            final(self).wf(),
            r.is_some() <==> old(self).residency().contains(*key),
            final(self).residency() =~= old(self).residency(),
            final(self).may_write(*key),
            forall|k: RequestId| old(self).may_write(k) ==> final(self).may_write(k),
    ;

    /// Whether `key` currently resides. No state is mutated.
    fn contains(&self, key: &RequestId) -> (r: bool)
        requires
            self.wf(),
        ensures
            r == self.residency().contains(*key),
    ;
}

/// A k-way set-associative cache: `k` independent shards of one policy, each
/// key always served by the shard its hash selects.
pub struct MultiCache<V, C: Cache<V>> {
    caches: Vec<C>,
    _phantom: core::marker::PhantomData<V>,
}

impl<V, C: Cache<V>> MultiCache<V, C> {
    /// The shards, for specification purposes.
    pub closed spec fn shards(&self) -> Seq<C> {
        self.caches@
    }

    /// Every key a shard holds is routed to that shard.
    pub open spec fn routed(&self) -> bool {
        forall|i: int, key: RequestId|
            0 <= i < self.shards().len() && #[trigger] self.shards()[i].residency().contains(key)
                ==> shard_index_of(key, self.shards().len() as usize) == i
    }
}

/// Build a `k`-way cache whose `i`-th shard is `constructor(i)`. Each shard
/// must be constructed well-formed and empty.
pub fn construct_k_way_cache<V, C: Cache<V>, F: Fn(usize) -> C>(k: usize, constructor: F) -> (r:
    MultiCache<V, C>)
    requires
        k >= 1,
        forall|i: usize| i < k ==> #[trigger] constructor.requires((i,)),
        forall|i: usize, c: C|
            i < k && #[trigger] constructor.ensures((i,), c) ==> c.wf() && c.residency()
                == Set::<RequestId>::empty(),
    ensures
        r.wf(),
        r.shards().len() == k,
        r.residency() == Set::<RequestId>::empty(),
        forall|i: int| 0 <= i < k ==> constructor.ensures((i as usize,), #[trigger] r.shards()[i]),
{
    let mut caches: Vec<C> = Vec::new();
    let mut i: usize = 0;
    while i < k
        invariant
            i <= k,
            caches@.len() == i,
            forall|i: usize| i < k ==> #[trigger] constructor.requires((i,)),
            forall|i: usize, c: C|
                i < k && #[trigger] constructor.ensures((i,), c) ==> c.wf() && c.residency()
                    == Set::<RequestId>::empty(),
            forall|j: int|
                0 <= j < i ==> (#[trigger] caches@[j]).wf() && caches@[j].residency()
                    == Set::<RequestId>::empty(),
            forall|j: int| 0 <= j < i ==> constructor.ensures((j as usize,), #[trigger] caches@[j]),
        decreases k - i,
    {
        let c = constructor(i);
        caches.push(c);
        i = i + 1;
    }
    let r = MultiCache { caches, _phantom: core::marker::PhantomData };
    proof {
        assert(r.residency() =~= Set::<RequestId>::empty());
    }
    r
}

/// The shard index for `key` among `k` shards: its stable hash reduced mod
/// `k`. A pure function of the key, so equal keys always land on one shard.
pub fn get_cache_idx(k: usize, key: &RequestId) -> (r: usize)
    requires
        k >= 1,
    ensures
        r == shard_index_of(*key, k),
        r < k,
{
    let hash = key_hash(*key);
    (hash as usize) % k
}


/// Two k-way caches whose shards hold the same keys hold the same keys.
pub broadcast proof fn lemma_multicache_residency_eq<V, C: Cache<V>>(
    a: &MultiCache<V, C>,
    b: &MultiCache<V, C>,
)
    requires
        a.shards().len() == b.shards().len(),
        forall|i: int|
            0 <= i < a.shards().len() ==> (#[trigger] a.shards()[i]).residency()
                == b.shards()[i].residency(),
    ensures
        #![trigger a.residency(), b.residency()]
        a.residency() == b.residency(),
{
    assert forall|key: RequestId| a.residency().contains(key) implies b.residency().contains(
        key,
    ) by {
        let i = choose|i: int|
            0 <= i < a.shards().len() && #[trigger] a.shards()[i].residency().contains(key);
        assert(b.shards()[i].residency().contains(key));
    }
    assert forall|key: RequestId| b.residency().contains(key) implies a.residency().contains(
        key,
    ) by {
        let i = choose|i: int|
            0 <= i < b.shards().len() && #[trigger] b.shards()[i].residency().contains(key);
        assert(a.shards()[i].residency().contains(key));
    }
    assert(a.residency() =~= b.residency());
}

impl<V, C: Cache<V>> Cache<V> for MultiCache<V, C> {
    open spec fn residency(&self) -> Set<RequestId> {
        Set::new(
            |key: RequestId|
                exists|i: int|
                    0 <= i < self.shards().len() && #[trigger] self.shards()[i].residency().contains(
                        key,
                    ),
        )
    }

    open spec fn wf(&self) -> bool {
        &&& self.shards().len() >= 1
        &&& forall|i: int| 0 <= i < self.shards().len() ==> (#[trigger] self.shards()[i]).wf()
        &&& self.routed()
    }

    open spec fn may_write(&self, key: RequestId) -> bool {
        self.shards()[shard_index_of(key, self.shards().len() as usize) as int].may_write(key)
    }

    fn write(&mut self, key: RequestId, value: V, timestamp: TimeUnit)
        ensures
            final(self).shards().len() == old(self).shards().len(),
            forall|j: int|
                0 <= j < old(self).shards().len() && j != shard_index_of(
                    key,
                    old(self).shards().len() as usize,
                ) as int ==> final(self).shards()[j] == (#[trigger] old(self).shards()[j]),
    {
        let idx = get_cache_idx(self.caches.len(), &key);
        self.caches[idx].write(key, value, timestamp);
        proof {
            let n = self.shards().len();
            let ghost idx = shard_index_of(key, n as usize) as int;
            assert(final(self).residency().contains(key)) by {
                assert(final(self).shards()[idx].residency().contains(key));
            }
            assert forall|k: RequestId| final(self).residency().contains(k) implies old(self).residency().insert(key).contains(k) by {
                let i = choose|i: int|
                    0 <= i < n && #[trigger] final(self).shards()[i].residency().contains(k);
                if i != idx {
                    assert(old(self).shards()[i].residency().contains(k));
                } else {
                    if k != key {
                        assert(old(self).shards()[idx].residency().insert(key).contains(k));
                        assert(old(self).shards()[idx].residency().contains(k));
                    }
                }
            }
            if old(self).residency().contains(key) {
                let j = choose|j: int|
                    0 <= j < n && #[trigger] old(self).shards()[j].residency().contains(key);
                assert(j == idx);
                assert(old(self).shards()[idx].residency().contains(key));
                assert(final(self).residency() =~= old(self).residency()) by {
                    assert forall|k: RequestId| old(self).residency().contains(k) implies final(self).residency().contains(k) by {
                        let i = choose|i: int|
                            0 <= i < n && #[trigger] old(self).shards()[i].residency().contains(k);
                        if i == idx {
                            assert(final(self).shards()[idx].residency().contains(k));
                        } else {
                            assert(final(self).shards()[i].residency().contains(k));
                        }
                    }
                }
            }
        }
    }

    fn get(&mut self, key: &RequestId, timestamp: TimeUnit) -> (r: Option<&V>)
        ensures
            final(self).shards().len() == old(self).shards().len(),
            forall|j: int|
                0 <= j < old(self).shards().len() && j != shard_index_of(
                    *key,
                    old(self).shards().len() as usize,
                ) as int ==> final(self).shards()[j] == (#[trigger] old(self).shards()[j]),
    {
        broadcast use lemma_multicache_residency_eq;

        let idx = get_cache_idx(self.caches.len(), key);
        proof {
            let n = self.shards().len();
            let idxg = shard_index_of(*key, n as usize) as int;
            if self.residency().contains(*key) {
                let j = choose|j: int|
                    0 <= j < n && #[trigger] self.shards()[j].residency().contains(*key);
                assert(j == idxg);
            }
            if self.shards()[idxg].residency().contains(*key) {
                assert(self.residency().contains(*key));
            }
        }
        self.caches[idx].get(key, timestamp)
    }

    fn contains(&self, key: &RequestId) -> (r: bool) {
        let idx = get_cache_idx(self.caches.len(), key);
        let r = self.caches[idx].contains(key);
        proof {
            let n = self.shards().len();
            let ghost idx = shard_index_of(*key, n as usize) as int;
            if self.residency().contains(*key) {
                let j = choose|j: int|
                    0 <= j < n && #[trigger] self.shards()[j].residency().contains(*key);
                assert(j == idx);
            }
            if self.shards()[idx].residency().contains(*key) {
                assert(self.residency().contains(*key));
            }
        }
        r
    }
}

} // verus!
