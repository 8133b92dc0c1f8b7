//! Recency-ordered eviction: keys are kept in the order of their last use and
//! the least recently used one is evicted when a write finds the store full.
//! The recency order itself is kept in a `linked_hash_map::LinkedHashMap`.
use vstd::prelude::*;

use crate::RequestId;
use crate::TimeUnit;
use crate::cache::Cache;
use linked_hash_map::LinkedHashMap;

verus! {

#[verifier::external_type_specification]
#[verifier::external_body]
#[verifier::reject_recursive_types(K)]
#[verifier::reject_recursive_types(V)]
#[verifier::reject_recursive_types(S)]
pub struct ExLinkedHashMap<K, V, S>(LinkedHashMap<K, V, S>);

#[verifier::external_type_specification]
#[verifier::external_body]
pub struct ExRandomState(ahash::RandomState);

/// The keys the store holds, ordered from the least recently used (index 0)
/// to the most recently used (last index).
pub uninterp spec fn recency_of(m: LinkedHashMap<u64, (), ahash::RandomState>) -> Seq<u64>;

/// `s` without every occurrence of `key`.
pub open spec fn remove_key(s: Seq<u64>, key: u64) -> Seq<u64> {
    s.filter(|k: u64| k != key)
}

/// `s` with `key` moved to (or inserted at) the most recent position.
pub open spec fn promote(s: Seq<u64>, key: u64) -> Seq<u64> {
    remove_key(s, key).push(key)
}

proof fn lemma_remove_key(s: Seq<u64>, key: u64)
    ensures
        remove_key(s, key).len() <= s.len(),
        forall|x: u64| #[trigger] remove_key(s, key).contains(x) <==> (s.contains(x) && x != key),
        s.no_duplicates() ==> remove_key(s, key).no_duplicates(),
        !s.contains(key) ==> remove_key(s, key) == s,
        s.no_duplicates() && s.contains(key) ==> remove_key(s, key).len() == s.len() - 1,
    decreases s.len(),
{
    broadcast use vstd::seq_lib::group_seq_properties;

    reveal_with_fuel(Seq::filter, 2);
    if s.len() == 0 {
        assert(remove_key(s, key) =~= s);
        assert forall|x: u64| #[trigger] remove_key(s, key).contains(x) implies (s.contains(x) && x
            != key) by {
            let i = choose|i: int| 0 <= i < remove_key(s, key).len() && remove_key(s, key)[i] == x;
        }
    } else {
        let init = s.drop_last();
        let last = s.last();
        lemma_remove_key(init, key);
        let f = remove_key(init, key);
        assert(remove_key(s, key) == if last != key {
            f.push(last)
        } else {
            f
        });
        assert forall|x: u64| s.contains(x) implies (init.contains(x) || x == last) by {
            let i = choose|i: int| 0 <= i < s.len() && s[i] == x;
            if i < init.len() {
                assert(init[i] == x);
            }
        }
        assert forall|x: u64| init.contains(x) implies s.contains(x) by {
            let i = choose|i: int| 0 <= i < init.len() && init[i] == x;
            assert(s[i] == x);
        }
        assert(s.contains(last)) by {
            assert(s[s.len() - 1] == last);
        }
        if last != key {
            assert forall|x: u64| #[trigger] remove_key(s, key).contains(x) implies (s.contains(x)
                && x != key) by {
                assert(f.contains(x) || x == last);
            }
            assert forall|x: u64| s.contains(x) && x != key implies remove_key(s, key).contains(
                x,
            ) by {
                if x != last {
                    assert(init.contains(x));
                    assert(f.contains(x));
                }
            }
        } else {
            assert forall|x: u64| s.contains(x) && x != key implies remove_key(s, key).contains(
                x,
            ) by {
                assert(init.contains(x));
            }
        }
        if s.no_duplicates() {
            assert(init.no_duplicates()) by {
                assert forall|i: int, j: int| 0 <= i < j < init.len() implies init[i] != init[j] by {
                    assert(s[i] == init[i] && s[j] == init[j]);
                }
            }
            assert(!init.contains(last)) by {
                if init.contains(last) {
                    let i = choose|i: int| 0 <= i < init.len() && init[i] == last;
                    assert(s[i] == last && s[s.len() - 1] == last);
                }
            }
            if last != key {
                assert(remove_key(s, key).no_duplicates()) by {
                    let g = f.push(last);
                    assert forall|i: int, j: int| 0 <= i < j < g.len() implies g[i] != g[j] by {
                        if j == g.len() - 1 {
                            assert(f.contains(g[i]));
                            assert(init.contains(g[i]));
                        }
                    }
                }
            }
            if s.contains(key) {
                if last == key {
                    assert(!init.contains(key));
                    assert(remove_key(s, key) == init);
                } else {
                    assert(init.contains(key));
                }
            }
        }
        if !s.contains(key) {
            assert(!init.contains(key));
            assert(last != key);
            assert(remove_key(s, key) == init.push(last));
            assert(init.push(last) =~= s);
        }
    }
}

proof fn lemma_promote(s: Seq<u64>, key: u64)
    requires
        s.no_duplicates(),
    ensures
        promote(s, key).no_duplicates(),
        promote(s, key).to_set() =~= s.to_set().insert(key),
        promote(s, key).len() == if s.contains(key) {
            s.len() as int
        } else {
            s.len() + 1int
        },
        forall|x: u64| #[trigger] promote(s, key).contains(x) <==> (s.contains(x) || x == key),
{
    lemma_remove_key(s, key);
    let f = remove_key(s, key);
    assert forall|x: u64| #[trigger] promote(s, key).contains(x) implies (s.contains(x) || x
        == key) by {
        let i = choose|i: int| 0 <= i < promote(s, key).len() && promote(s, key)[i] == x;
        if i < f.len() {
            assert(f.contains(x));
        }
    }
    assert forall|x: u64| s.contains(x) || x == key implies promote(s, key).contains(x) by {
        if x == key {
            assert(promote(s, key)[promote(s, key).len() - 1] == key);
        } else {
            assert(f.contains(x));
            let i = choose|i: int| 0 <= i < f.len() && f[i] == x;
            assert(promote(s, key)[i] == x);
        }
    }
    assert(promote(s, key).no_duplicates()) by {
        assert forall|i: int, j: int|
            0 <= i < j < promote(s, key).len() implies promote(s, key)[i] != promote(s, key)[j] by {
            if j == promote(s, key).len() - 1 {
                assert(f.contains(promote(s, key)[i]));
            }
        }
    }
}

/// Relies on `LinkedHashMap::with_capacity_and_hasher`: the new map is empty.
#[verifier::external_body]
fn store_new(capacity: usize) -> (m: LinkedHashMap<u64, (), ahash::RandomState>)
    ensures
        recency_of(m) == Seq::<u64>::empty(),
{
    LinkedHashMap::with_capacity_and_hasher(capacity, ahash::RandomState::new())
}

/// Relies on `LinkedHashMap::len`: the number of keys held.
#[verifier::external_body]
fn store_len(m: &LinkedHashMap<u64, (), ahash::RandomState>) -> (n: usize)
    ensures
        n == recency_of(*m).len(),
{
    m.len()
}

/// Relies on `LinkedHashMap::contains_key`.
#[verifier::external_body]
fn store_contains(m: &LinkedHashMap<u64, (), ahash::RandomState>, key: u64) -> (r: bool)
    ensures
        r == recency_of(*m).contains(key),
{
    m.contains_key(&key)
}

/// Relies on `LinkedHashMap::insert`: a present key is detached from its
/// place and reattached at the most recent end; an absent key is attached
/// there; no other entry moves.
#[verifier::external_body]
fn store_insert(m: &mut LinkedHashMap<u64, (), ahash::RandomState>, key: u64)
    ensures
        recency_of(*final(m)) == promote(recency_of(*old(m)), key),
{
    m.insert(key, ());
}

/// Relies on `LinkedHashMap::get_refresh`: a present key is moved to the most
/// recent end and found; an absent key leaves the map unchanged.
#[verifier::external_body]
fn store_get_refresh(m: &mut LinkedHashMap<u64, (), ahash::RandomState>, key: u64) -> (r: bool)
    ensures
        r == recency_of(*old(m)).contains(key),
        r ==> recency_of(*final(m)) == promote(recency_of(*old(m)), key),
        !r ==> recency_of(*final(m)) == recency_of(*old(m)),
{
    m.get_refresh(&key).is_some()
}

/// Relies on `LinkedHashMap::pop_front`: removes and returns the least
/// recently used entry, if any.
#[verifier::external_body]
fn store_pop_front(m: &mut LinkedHashMap<u64, (), ahash::RandomState>) -> (r: Option<u64>)
    ensures
        recency_of(*old(m)).len() == 0 ==> r.is_none() && recency_of(*final(m)) == recency_of(
            *old(m),
        ),
        recency_of(*old(m)).len() > 0 ==> r == Some(recency_of(*old(m))[0]) && recency_of(
            *final(m),
        ) == recency_of(*old(m)).drop_first(),
{
    m.pop_front().map(|p| p.0)
}

/// A least-recently-used cache of unit values, capacity at least 1.
pub struct LRU {
    capacity: usize,
    store: LinkedHashMap<u64, (), ahash::RandomState>,
}

impl LRU {
    /// The recency order: least recently used first.
    pub closed spec fn recency(&self) -> Seq<u64> {
        recency_of(self.store)
    }

    /// The configured capacity.
    pub closed spec fn spec_capacity(&self) -> usize {
        self.capacity
    }

    /// An empty cache that holds at most `capacity` keys.
    pub fn new(capacity: usize) -> (r: Self)
        requires
            capacity > 0,
        ensures
            r.wf(),
            r.recency() == Seq::<u64>::empty(),
            r.residency() == Set::<RequestId>::empty(),
            r.spec_capacity() == capacity,
            forall|key: RequestId| r.may_write(key),
    {
        let r = LRU { capacity, store: store_new(capacity) };
        proof {
            assert(r.recency().to_set() =~= Set::<RequestId>::empty());
        }
        r
    }
}

impl Cache<()> for LRU {
    open spec fn residency(&self) -> Set<RequestId> {
        self.recency().to_set()
    }

    closed spec fn wf(&self) -> bool {
        &&& self.recency().no_duplicates()
        &&& self.recency().len() <= self.capacity
        &&& self.capacity >= 1
    }

    open spec fn may_write(&self, key: RequestId) -> bool {
        true
    }

    fn write(&mut self, key: RequestId, value: (), timestamp: TimeUnit)
        ensures
            final(self).spec_capacity() == old(self).spec_capacity(),
            old(self).recency().contains(key) ==> final(self).recency() == promote(
                old(self).recency(),
                key,
            ),
            !old(self).recency().contains(key) && old(self).recency().len() < old(
                self,
            ).spec_capacity() ==> final(self).recency() == old(self).recency().push(key),
            !old(self).recency().contains(key) && old(self).recency().len() == old(
                self,
            ).spec_capacity() ==> final(self).recency() == old(self).recency().drop_first().push(
                key,
            ) && final(self).recency().len() == old(self).spec_capacity(),
    {
        proof {
            lemma_promote(old(self).recency(), key);
        }
        if store_contains(&self.store, key) {
            store_insert(&mut self.store, key);
            proof {
                assert(final(self).residency() =~= old(self).residency());
            }
        } else {
            proof {
                lemma_remove_key(old(self).recency(), key);
            }
            if store_len(&self.store) == self.capacity {
                let evicted = store_pop_front(&mut self.store);
                proof {
                    let s0 = old(self).recency();
                    let s1 = s0.drop_first();
                    assert(s1.no_duplicates()) by {
                        assert forall|i: int, j: int| 0 <= i < j < s1.len() implies s1[i]
                            != s1[j] by {
                            assert(s0[i + 1] == s1[i] && s0[j + 1] == s1[j]);
                        }
                    }
                    assert(!s1.contains(key)) by {
                        if s1.contains(key) {
                            let i = choose|i: int| 0 <= i < s1.len() && s1[i] == key;
                            assert(s0[i + 1] == key);
                        }
                    }
                    assert(forall|x: u64| s1.contains(x) ==> s0.contains(x)) by {
                        assert forall|x: u64| s1.contains(x) implies s0.contains(x) by {
                            let i = choose|i: int| 0 <= i < s1.len() && s1[i] == x;
                            assert(s0[i + 1] == x);
                        }
                    }
                    lemma_remove_key(s1, key);
                    lemma_promote(s1, key);
                }
            }
            store_insert(&mut self.store, key);
            proof {
                let s0 = old(self).recency();
                if s0.len() == old(self).spec_capacity() {
                    let s1 = s0.drop_first();
                    assert(final(self).recency() == promote(s1, key));
                    assert(remove_key(s1, key) == s1);
                    assert(final(self).recency() == s1.push(key));
                    assert forall|x: u64|
                        final(self).residency().contains(x) implies old(
                        self,
                    ).residency().insert(key).contains(x) by {
                        assert(promote(s1, key).contains(x));
                    }
                } else {
                    assert(remove_key(s0, key) == s0);
                    assert(final(self).recency() == s0.push(key));
                    assert(final(self).residency() =~= old(self).residency().insert(key));
                }
            }
        }
    }

    fn get(&mut self, key: &RequestId, timestamp: TimeUnit) -> (r: Option<&()>)
        ensures
            final(self).spec_capacity() == old(self).spec_capacity(),
            old(self).recency().contains(*key) ==> final(self).recency() == promote(
                old(self).recency(),
                *key,
            ),
            !old(self).recency().contains(*key) ==> final(self).recency() == old(self).recency(),
    {
        proof {
            lemma_promote(old(self).recency(), *key);
        }
        let hit = store_get_refresh(&mut self.store, *key);
        proof {
            if old(self).recency().contains(*key) {
                assert(final(self).residency() =~= old(self).residency());
            }
        }
        if hit {
            Some(&())
        } else {
            None
        }
    }

    fn contains(&self, key: &RequestId) -> (r: bool) {
        store_contains(&self.store, *key)
    }
}

} // verus!
