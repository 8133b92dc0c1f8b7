//! LRU-MAD: delay-aware eviction. Every access updates per-object metadata
//! that estimates the aggregate delay the object causes per miss-window; a
//! write into a full store evicts the resident key with the least score,
//! where `score = (cumulative_delay / num_windows) / (t - last_access + 1)`.
//! Scores are compared exactly, by cross-multiplying the integer numerators
//! and denominators, so no floating point is involved and ties are broken
//! deterministically by last access time and then by key.
use vstd::prelude::*;

use crate::RequestId;
use crate::TimeUnit;
use crate::cache::Cache;
use vstd::hash_map::HashMapWithView;

verus! {

broadcast use vstd::std_specs::hash::group_hash_axioms;

/// Per-object bookkeeping for the delay-aware score. An entry is created on
/// the first access of a key and never removed, even when the key is evicted.
#[derive(Debug, Clone, Copy, PartialEq, Eq, Structural)]
pub struct ObjectMetaData {
    /// Whether no update has happened yet. Without it a first access would
    /// leave `num_windows` at zero and the score undefined.
    pub new: bool,
    /// Number of miss-windows this object has contributed to.
    pub num_windows: usize,
    /// Total delay, in nanoseconds, credited to this object.
    pub cumulative_delay: TimeUnit,
    /// Start of the current miss-window.
    pub window_start_timestamp: TimeUnit,
    /// Timestamp of the most recent access.
    pub last_access_timestamp: TimeUnit,
}

/// The metadata of a key that has never been accessed.
pub open spec fn fresh_meta() -> ObjectMetaData {
    ObjectMetaData {
        new: true,
        num_windows: 0,
        cumulative_delay: 0,
        window_start_timestamp: 0,
        last_access_timestamp: 0,
    }
}

/// A well-formed metadata entry: windows have been counted exactly when an
/// update has happened.
pub open spec fn meta_wf(m: ObjectMetaData) -> bool {
    &&& (m.num_windows >= 1 <==> !m.new)
}

pub open spec fn sat_add_usize(a: usize, b: usize) -> usize {
    if a + b > usize::MAX {
        usize::MAX
    } else {
        (a + b) as usize
    }
}

pub open spec fn sat_add_u64(a: u64, b: u64) -> u64 {
    if a + b > u64::MAX {
        u64::MAX
    } else {
        (a + b) as u64
    }
}

/// One metadata update at access time `t` with estimated miss latency `lat`:
/// a first access, or an access at least `lat` after the current window
/// started, opens a new window and credits a full `lat` of delay; an access
/// inside the active window credits the remaining wait `lat - tssw`. Sums
/// saturate instead of wrapping, and a clock that runs backwards counts as
/// time-since-window-start zero.
pub open spec fn meta_updated(m: ObjectMetaData, t: TimeUnit, lat: TimeUnit) -> ObjectMetaData {
    let tssw: TimeUnit = if t >= m.window_start_timestamp {
        (t - m.window_start_timestamp) as TimeUnit
    } else {
        0
    };
    if m.new || tssw >= lat {
        ObjectMetaData {
            new: false,
            num_windows: sat_add_usize(m.num_windows, 1),
            cumulative_delay: sat_add_u64(m.cumulative_delay, lat),
            window_start_timestamp: t,
            last_access_timestamp: t,
        }
    } else {
        ObjectMetaData {
            new: false,
            num_windows: m.num_windows,
            cumulative_delay: sat_add_u64(m.cumulative_delay, (lat - tssw) as u64),
            window_start_timestamp: m.window_start_timestamp,
            last_access_timestamp: t,
        }
    }
}

impl ObjectMetaData {
    /// Metadata for a key that has not been accessed yet.
    pub fn new() -> (r: Self)
        ensures
            r == fresh_meta(),
    {
        ObjectMetaData {
            new: true,
            num_windows: 0,
            cumulative_delay: 0,
            window_start_timestamp: 0,
            last_access_timestamp: 0,
        }
    }

    /// Record an access at `timestamp`.
    pub fn update(&mut self, timestamp: TimeUnit, estimated_miss_latency: TimeUnit)
        requires
            meta_wf(*old(self)),
        ensures
            *final(self) == meta_updated(*old(self), timestamp, estimated_miss_latency),
            meta_wf(*final(self)),
            !final(self).new,
            final(self).last_access_timestamp == timestamp,
            final(self).num_windows >= 1,
    {
        let tssw: TimeUnit = if timestamp >= self.window_start_timestamp {
            timestamp - self.window_start_timestamp
        } else {
            0
        };
        if self.new || tssw >= estimated_miss_latency {
            self.num_windows = self.num_windows.saturating_add(1);
            self.window_start_timestamp = timestamp;
            self.cumulative_delay = self.cumulative_delay.saturating_add(estimated_miss_latency);
        } else {
            self.cumulative_delay = self.cumulative_delay.saturating_add(
                estimated_miss_latency - tssw,
            );
        }
        self.last_access_timestamp = timestamp;
        self.new = false;
    }
}

/// The staleness proxy: time since the last access, plus one. A clock that
/// runs backwards counts as staleness one.
pub open spec fn ttna(m: ObjectMetaData, t: TimeUnit) -> int {
    (if t >= m.last_access_timestamp {
        (t - m.last_access_timestamp) as int
    } else {
        0
    }) + 1
}

/// The score denominator: windows times staleness.
pub open spec fn score_den(m: ObjectMetaData, t: TimeUnit) -> int {
    m.num_windows * ttna(m, t)
}

/// Exact comparison `score(a) < score(b)` of the two rational scores
/// `cumulative_delay / (num_windows * ttna)`, by cross-multiplication.
pub open spec fn score_lt(a: ObjectMetaData, b: ObjectMetaData, t: TimeUnit) -> bool {
    a.cumulative_delay * score_den(b, t) < b.cumulative_delay * score_den(a, t)
}

/// Exact equality of the two rational scores.
pub open spec fn score_eq(a: ObjectMetaData, b: ObjectMetaData, t: TimeUnit) -> bool {
    a.cumulative_delay * score_den(b, t) == b.cumulative_delay * score_den(a, t)
}

/// Whether key `ka` (with metadata `a`) is evicted in preference to key `kb`
/// (with metadata `b`) at time `t`: strictly smaller score, or an equal score
/// and an older last access, or both equal and the smaller key.
pub open spec fn evict_before(
    a: ObjectMetaData,
    ka: u64,
    b: ObjectMetaData,
    kb: u64,
    t: TimeUnit,
) -> bool {
    ||| score_lt(a, b, t)
    ||| (score_eq(a, b, t) && (a.last_access_timestamp < b.last_access_timestamp || (
    a.last_access_timestamp == b.last_access_timestamp && ka < kb)))
}

/// Split the 192-bit product `a * m` into `2^64 * high + low`.
fn mul_parts(a: u64, m: u128) -> (r: (u128, u64))
    ensures
        (r.0 as int) * 0x10000000000000000 + (r.1 as int) == (a as int) * (m as int),
{
    let p: u128 = 0x10000000000000000u128;
    let mhi: u128 = m / p;
    let mlo: u128 = m % p;
    proof {
        assert(mhi <= 0xffffffffffffffffu128 && mlo < p && m == mhi * p + mlo) by (nonlinear_arith)
            requires
                p == 0x10000000000000000u128,
                mhi == m / p,
                mlo == m % p,
                m <= u128::MAX,
        ;
        assert((mhi as int) * (a as int) <= 0xffffffffffffffff * 0xffffffffffffffff)
            by (nonlinear_arith)
            requires
                mhi <= 0xffffffffffffffffu128,
                a <= 0xffffffffffffffffu64,
        ;
        assert((mlo as int) * (a as int) < 0x10000000000000000 * 0x10000000000000000)
            by (nonlinear_arith)
            requires
                mlo < 0x10000000000000000u128,
                a <= 0xffffffffffffffffu64,
        ;
    }
    let hi: u128 = mhi * (a as u128);
    let lo: u128 = mlo * (a as u128);
    let carry: u128 = lo / p;
    let low: u128 = lo % p;
    proof {
        assert(carry <= 0xffffffffffffffffu128 && low < p && lo == carry * p + low)
            by (nonlinear_arith)
            requires
                p == 0x10000000000000000u128,
                carry == lo / p,
                low == lo % p,
                lo <= u128::MAX,
        ;
        assert(hi + carry <= u128::MAX);
        assert(((hi + carry) as int) * (p as int) + (low as int) == (a as int) * (m as int))
            by (nonlinear_arith)
            requires
                m == mhi * p + mlo,
                hi == mhi * (a as u128),
                lo == mlo * (a as u128),
                lo == carry * p + low,
        ;
    }
    (hi + carry, low as u64)
}

/// Compare the products `x1 * d1` and `x2 * d2` exactly: whether the first
/// is smaller, and whether they are equal.
fn prod_cmp(x1: u64, d1: u128, x2: u64, d2: u128) -> (r: (bool, bool))
    ensures
        r.0 == ((x1 as int) * (d1 as int) < (x2 as int) * (d2 as int)),
        r.1 == ((x1 as int) * (d1 as int) == (x2 as int) * (d2 as int)),
{
    let (h1, l1) = mul_parts(x1, d1);
    let (h2, l2) = mul_parts(x2, d2);
    ((h1 < h2 || (h1 == h2 && l1 < l2)), (h1 == h2 && l1 == l2))
}

/// The score denominator `num_windows * ttna`, exactly, as a 128-bit value.
fn den_of(m: &ObjectMetaData, t: TimeUnit) -> (r: u128)
    ensures
        r as int == score_den(*m, t),
{
    let stale: u128 = (if t >= m.last_access_timestamp {
        t - m.last_access_timestamp
    } else {
        0
    }) as u128;
    proof {
        assert((m.num_windows as int) * ((stale + 1) as int) < 0x100000000000000000000000000000000)
            by (nonlinear_arith)
            requires
                m.num_windows as int <= 0xffffffffffffffff,
                stale <= 0xffffffffffffffffu128,
        ;
    }
    (m.num_windows as u128) * (stale + 1)
}

/// Whether key `ka` should be evicted in preference to key `kb` at time `t`:
/// the exact comparison that the eviction scan uses.
pub fn victim_prefer(a: &ObjectMetaData, ka: u64, b: &ObjectMetaData, kb: u64, t: TimeUnit) -> (r:
    bool)
    ensures
        r == evict_before(*a, ka, *b, kb, t),
{
    let da = den_of(a, t);
    let db = den_of(b, t);
    let (lt, eq) = prod_cmp(a.cumulative_delay, db, b.cumulative_delay, da);
    if lt {
        true
    } else if eq {
        if a.last_access_timestamp < b.last_access_timestamp {
            true
        } else if a.last_access_timestamp == b.last_access_timestamp {
            ka < kb
        } else {
            false
        }
    } else {
        false
    }
}

proof fn lemma_frac_trans(x1: int, d1: int, x2: int, d2: int, x3: int, d3: int)
    requires
        d1 >= 1,
        d2 >= 1,
        d3 >= 1,
        x1 * d2 <= x2 * d1,
        x2 * d3 <= x3 * d2,
        x1 * d2 < x2 * d1 || x2 * d3 < x3 * d2,
    ensures
        x1 * d3 < x3 * d1,
{
    assert((x1 * d2) * d3 <= (x2 * d1) * d3 && ((x1 * d2 < x2 * d1) ==> (x1 * d2) * d3 < (x2 * d1)
        * d3)) by (nonlinear_arith)
        requires
            d3 >= 1,
            x1 * d2 <= x2 * d1,
    ;
    assert((x2 * d3) * d1 <= (x3 * d2) * d1 && ((x2 * d3 < x3 * d2) ==> (x2 * d3) * d1 < (x3 * d2)
        * d1)) by (nonlinear_arith)
        requires
            d1 >= 1,
            x2 * d3 <= x3 * d2,
    ;
    assert((x2 * d1) * d3 == (x2 * d3) * d1 && (x1 * d2) * d3 == (x1 * d3) * d2 && (x3 * d2) * d1
        == (x3 * d1) * d2) by (nonlinear_arith);
    assert((x1 * d3) * d2 < (x3 * d1) * d2);
    assert(x1 * d3 < x3 * d1) by (nonlinear_arith)
        requires
            d2 >= 1,
            (x1 * d3) * d2 < (x3 * d1) * d2,
    ;
}

proof fn lemma_frac_eq_trans(x1: int, d1: int, x2: int, d2: int, x3: int, d3: int)
    requires
        d1 >= 1,
        d2 >= 1,
        d3 >= 1,
        x1 * d2 == x2 * d1,
        x2 * d3 == x3 * d2,
    ensures
        x1 * d3 == x3 * d1,
{
    assert((x1 * d2) * d3 == (x2 * d1) * d3 && (x2 * d3) * d1 == (x3 * d2) * d1 && (x2 * d1) * d3
        == (x2 * d3) * d1 && (x1 * d2) * d3 == (x1 * d3) * d2 && (x3 * d2) * d1 == (x3 * d1) * d2)
        by (nonlinear_arith)
        requires
            x1 * d2 == x2 * d1,
            x2 * d3 == x3 * d2,
    ;
    assert((x1 * d3) * d2 == (x3 * d1) * d2);
    assert(x1 * d3 == x3 * d1) by (nonlinear_arith)
        requires
            d2 >= 1,
            (x1 * d3) * d2 == (x3 * d1) * d2,
    ;
}

/// The eviction preference is transitive over well-formed metadata.
proof fn lemma_evict_before_trans(
    a: ObjectMetaData,
    ka: u64,
    b: ObjectMetaData,
    kb: u64,
    c: ObjectMetaData,
    kc: u64,
    t: TimeUnit,
)
    requires
        a.num_windows >= 1,
        b.num_windows >= 1,
        c.num_windows >= 1,
        evict_before(a, ka, b, kb, t),
        evict_before(b, kb, c, kc, t),
    ensures
        evict_before(a, ka, c, kc, t),
{
    let da = score_den(a, t);
    let db = score_den(b, t);
    let dc = score_den(c, t);
    assert(da >= 1 && db >= 1 && dc >= 1) by (nonlinear_arith)
        requires
            a.num_windows >= 1,
            b.num_windows >= 1,
            c.num_windows >= 1,
            da == a.num_windows * ttna(a, t),
            db == b.num_windows * ttna(b, t),
            dc == c.num_windows * ttna(c, t),
            ttna(a, t) >= 1,
            ttna(b, t) >= 1,
            ttna(c, t) >= 1,
    ;
    if score_lt(a, b, t) || score_lt(b, c, t) {
        lemma_frac_trans(
            a.cumulative_delay as int,
            da,
            b.cumulative_delay as int,
            db,
            c.cumulative_delay as int,
            dc,
        );
    } else {
        lemma_frac_eq_trans(
            a.cumulative_delay as int,
            da,
            b.cumulative_delay as int,
            db,
            c.cumulative_delay as int,
            dc,
        );
    }
}


proof fn lemma_push_distinct(s: Seq<u64>, x: u64)
    requires
        s.no_duplicates(),
        !s.contains(x),
    ensures
        s.push(x).no_duplicates(),
        s.push(x).to_set() =~= s.to_set().insert(x),
{
    broadcast use vstd::seq_lib::group_seq_properties;

    assert forall|j1: int, j2: int| 0 <= j1 < j2 < s.push(x).len() implies s.push(x)[j1] != s.push(
        x,
    )[j2] by {
        if j2 == s.len() {
            assert(s.contains(s[j1]));
        }
    }
    assert forall|y: u64| s.push(x).to_set().contains(y) implies s.to_set().insert(x).contains(
        y,
    ) by {
        let j = choose|j: int| 0 <= j < s.push(x).len() && s.push(x)[j] == y;
        if j < s.len() {
            assert(s.contains(y));
        }
    }
    assert forall|y: u64| s.to_set().insert(x).contains(y) implies s.push(x).to_set().contains(
        y,
    ) by {
        if y == x {
            assert(s.push(x)[s.len() as int] == x);
            assert(s.push(x).contains(x));
        } else {
            let j = choose|j: int| 0 <= j < s.len() && s[j] == y;
            assert(s.push(x)[j] == y);
            assert(s.push(x).contains(y));
        }
    }
}

proof fn lemma_swap_remove_set(s: Seq<u64>, i: int)
    requires
        s.no_duplicates(),
        0 <= i < s.len(),
    ensures
        (s.update(i, s.last()).drop_last()).no_duplicates(),
        (s.update(i, s.last()).drop_last()).to_set() =~= s.to_set().remove(s[i]),
        (s.update(i, s.last()).drop_last()).len() == s.len() - 1,
{
    let t = s.update(i, s.last()).drop_last();
    assert forall|x: u64| t.to_set().contains(x) implies s.to_set().remove(s[i]).contains(x) by {
        let j = choose|j: int| 0 <= j < t.len() && t[j] == x;
        if j == i {
            assert(x == s.last());
            assert(s.contains(x)) by {
                assert(s[s.len() - 1] == x);
            }
            assert(i < s.len() - 1);
            assert(x != s[i]);
        } else {
            assert(x == s[j]);
            assert(s.contains(x));
            assert(x != s[i]);
        }
    }
    assert forall|x: u64| s.to_set().remove(s[i]).contains(x) implies t.to_set().contains(x) by {
        let j = choose|j: int| 0 <= j < s.len() && s[j] == x;
        assert(j != i);
        if j < s.len() - 1 {
            assert(t[j] == x);
            assert(t.contains(x));
        } else {
            assert(x == s.last());
            assert(i < s.len() - 1);
            assert(t[i] == x);
            assert(t.contains(x));
        }
    }
    assert(t.no_duplicates()) by {
        assert forall|j1: int, j2: int| 0 <= j1 < j2 < t.len() implies t[j1] != t[j2] by {
            if j1 == i {
                assert(t[j1] == s[s.len() - 1] && t[j2] == s[j2]);
            } else if j2 == i {
                assert(t[j1] == s[j1] && t[j2] == s[s.len() - 1]);
            } else {
                assert(t[j1] == s[j1] && t[j2] == s[j2]);
            }
        }
    }
}

/// The delay-aware cache: a bounded value store, the set of resident keys,
/// and an unbounded metadata store that survives eviction.
#[verifier::reject_recursive_types(V)]
pub struct LRUMinAD<V> {
    capacity: usize,
    value_store: HashMapWithView<u64, V>,
    resident: Vec<u64>,
    metadata_store: HashMapWithView<u64, ObjectMetaData>,
    estimated_miss_latency: TimeUnit,
}

impl<V> LRUMinAD<V> {
    /// The metadata table, for specification purposes.
    pub closed spec fn metadata(&self) -> Map<u64, ObjectMetaData> {
        self.metadata_store@
    }

    /// The resident keys, in the order the scan visits them.
    pub closed spec fn resident_keys(&self) -> Seq<u64> {
        self.resident@
    }

    /// The configured capacity.
    pub closed spec fn spec_capacity(&self) -> usize {
        self.capacity
    }

    /// The configured estimate of the backing store's fetch cost.
    pub closed spec fn spec_miss_latency(&self) -> TimeUnit {
        self.estimated_miss_latency
    }

    /// An empty cache that holds at most `capacity` keys and scores with the
    /// given estimated miss latency.
    pub fn new(capacity: usize, estimated_miss_latency: TimeUnit) -> (r: Self)
        requires
            capacity >= 1,
        ensures
            r.wf(),
            r.residency() == Set::<RequestId>::empty(),
            r.metadata() == Map::<u64, ObjectMetaData>::empty(),
            r.spec_capacity() == capacity,
            r.spec_miss_latency() == estimated_miss_latency,
    {
        let r = LRUMinAD {
            capacity,
            value_store: HashMapWithView::new(),
            resident: Vec::new(),
            metadata_store: HashMapWithView::new(),
            estimated_miss_latency,
        };
        proof {
            assert(r.resident_keys().to_set() =~= Set::<u64>::empty());
            assert(r.residency() =~= Set::<RequestId>::empty());
        }
        r
    }
}

impl<V> Cache<V> for LRUMinAD<V> {
    closed spec fn residency(&self) -> Set<RequestId> {
        self.value_store@.dom()
    }

    closed spec fn wf(&self) -> bool {
        &&& self.capacity >= 1
        &&& self.resident@.no_duplicates()
        &&& self.resident@.len() <= self.capacity
        &&& self.resident@.to_set() == self.value_store@.dom()
        &&& forall|k: u64|
            self.resident@.to_set().contains(k) ==> #[trigger] self.metadata_store@.dom().contains(
                k,
            )
        &&& forall|k: u64|
            #[trigger] self.metadata_store@.dom().contains(k) ==> meta_wf(self.metadata_store@[k])
                && !self.metadata_store@[k].new
    }

    closed spec fn may_write(&self, key: RequestId) -> bool {
        self.metadata_store@.dom().contains(key)
    }

    fn write(&mut self, key: RequestId, value: V, timestamp: TimeUnit)
        ensures
            final(self).spec_capacity() == old(self).spec_capacity(),
            final(self).spec_miss_latency() == old(self).spec_miss_latency(),
            final(self).metadata() == old(self).metadata(),
            !old(self).residency().contains(key) && old(self).resident_keys().len() < old(self).spec_capacity() ==> final(self).residency() =~= old(self).residency().insert(key),
            !old(self).residency().contains(key) && old(self).resident_keys().len() == old(self).spec_capacity() ==> exists|v: u64|
                {
                    &&& #[trigger] old(self).residency().contains(v)
                    &&& v != key
                    &&& final(self).residency() =~= old(self).residency().remove(v).insert(key)
                    &&& forall|u: u64|
                        old(self).residency().contains(u) && u != v ==> !evict_before(
                            old(self).metadata()[u],
                            u,
                            old(self).metadata()[v],
                            v,
                            timestamp,
                        )
                },
            final(self).resident_keys().len() == if old(self).residency().contains(key) {
                old(self).resident_keys().len() as int
            } else if old(self).resident_keys().len() < old(self).spec_capacity() {
                old(self).resident_keys().len() + 1int
            } else {
                old(self).spec_capacity() as int
            },
    {
        if self.value_store.contains_key(&key) {
            self.value_store.insert(key, value);
            proof {
                assert(old(self).resident_keys().to_set().contains(key));
                assert(final(self).residency() =~= old(self).residency());
            }
        } else if self.resident.len() == self.capacity {
            proof {
                assert(self.resident@.contains(self.resident@[0]));
                assert(self.resident@.to_set().contains(self.resident@[0]));
            }
            let mut best_idx: usize = 0;
            let mut best_key: u64 = self.resident[0];
            let mut best_meta: ObjectMetaData = *self.metadata_store.get(&best_key).unwrap();
            let mut i: usize = 1;
            while i < self.resident.len()
                invariant
                    old(self).wf(),
                    self == old(self),
                    1 <= i <= self.resident@.len(),
                    (best_idx as int) < i,
                    self.resident@[best_idx as int] == best_key,
                    self.metadata_store@.dom().contains(best_key),
                    best_meta == self.metadata_store@[best_key],
                    forall|j: int|
                        0 <= j < i && j != best_idx ==> !evict_before(
                            self.metadata_store@[#[trigger] self.resident@[j]],
                            self.resident@[j],
                            best_meta,
                            best_key,
                            timestamp,
                        ),
                decreases self.resident@.len() - i,
            {
                let cand = self.resident[i];
                proof {
                    assert(self.resident@.contains(cand));
                    assert(self.resident@.to_set().contains(cand));
                }
                let cand_meta: ObjectMetaData = *self.metadata_store.get(&cand).unwrap();
                if victim_prefer(&cand_meta, cand, &best_meta, best_key, timestamp) {
                    proof {
                        assert forall|j: int|
                            0 <= j < i + 1 && j != i implies !evict_before(
                            self.metadata_store@[#[trigger] self.resident@[j]],
                            self.resident@[j],
                            cand_meta,
                            cand,
                            timestamp,
                        ) by {
                            let u = self.resident@[j];
                            assert(self.resident@.contains(u));
                            assert(self.resident@.to_set().contains(u));
                            assert(self.metadata_store@.dom().contains(u));
                            let um = self.metadata_store@[u];
                            assert(um.num_windows >= 1 && cand_meta.num_windows >= 1
                                && best_meta.num_windows >= 1);
                            if evict_before(um, u, cand_meta, cand, timestamp) {
                                if j == best_idx {
                                    assert(false);
                                } else {
                                    lemma_evict_before_trans(
                                        um,
                                        u,
                                        cand_meta,
                                        cand,
                                        best_meta,
                                        best_key,
                                        timestamp,
                                    );
                                    assert(false);
                                }
                            }
                        }
                    }
                    best_idx = i;
                    best_key = cand;
                    best_meta = cand_meta;
                }
                i = i + 1;
            }
            self.value_store.remove(&best_key);
            let moved = self.resident.swap_remove(best_idx);
            proof {
                lemma_swap_remove_set(old(self).resident@, best_idx as int);
            }
            self.value_store.insert(key, value);
            self.resident.push(key);
            proof {
                let s0 = old(self).resident_keys();
                let sr = s0.update(best_idx as int, s0.last()).drop_last();
                assert(!sr.contains(key)) by {
                    if sr.contains(key) {
                        assert(sr.to_set().contains(key));
                        assert(s0.to_set().contains(key));
                    }
                }
                lemma_push_distinct(sr, key);
                assert(final(self).resident_keys() == sr.push(key));
                assert(final(self).residency() =~= old(self).residency().remove(
                    best_key,
                ).insert(key));
                assert(final(self).resident_keys().to_set() =~= final(self).residency());
                assert(old(self).residency().contains(best_key)) by {
                    assert(s0.to_set().contains(best_key));
                }
                assert forall|u: u64|
                    old(self).residency().contains(u) && u != best_key implies !evict_before(
                    old(self).metadata()[u],
                    u,
                    old(self).metadata()[best_key],
                    best_key,
                    timestamp,
                ) by {
                    assert(s0.to_set().contains(u));
                    let j = choose|j: int| 0 <= j < s0.len() && s0[j] == u;
                    assert(j != best_idx);
                }
                assert(exists|v: u64|
                    {
                        &&& #[trigger] old(self).residency().contains(v)
                        &&& v != key
                        &&& final(self).residency() =~= old(self).residency().remove(v).insert(key)
                        &&& forall|u: u64|
                            old(self).residency().contains(u) && u != v ==> !evict_before(
                                old(self).metadata()[u],
                                u,
                                old(self).metadata()[v],
                                v,
                                timestamp,
                            )
                    }) by {
                    assert(old(self).residency().contains(best_key) && best_key != key && final(self).residency() =~= old(self).residency().remove(best_key).insert(key) && (forall|u: u64|
                        old(self).residency().contains(u) && u != best_key ==> !evict_before(
                            old(self).metadata()[u],
                            u,
                            old(self).metadata()[best_key],
                            best_key,
                            timestamp,
                        )));
                }
            }
        } else {
            self.value_store.insert(key, value);
            self.resident.push(key);
            proof {
                let s0 = old(self).resident_keys();
                assert(!s0.contains(key)) by {
                    if s0.contains(key) {
                        assert(s0.to_set().contains(key));
                    }
                }
                lemma_push_distinct(s0, key);
                assert(final(self).residency() =~= old(self).residency().insert(key));
                assert(final(self).resident_keys().to_set() =~= final(self).residency());
            }
        }
    }

    fn get(&mut self, key: &RequestId, timestamp: TimeUnit) -> (r: Option<&V>)
        ensures
            final(self).spec_capacity() == old(self).spec_capacity(),
            final(self).spec_miss_latency() == old(self).spec_miss_latency(),
            final(self).resident_keys() == old(self).resident_keys(),
            final(self).metadata() == old(self).metadata().insert(
                *key,
                meta_updated(
                    if old(self).metadata().dom().contains(*key) {
                        old(self).metadata()[*key]
                    } else {
                        fresh_meta()
                    },
                    timestamp,
                    old(self).spec_miss_latency(),
                ),
            ),
    {
        let mut m: ObjectMetaData = match self.metadata_store.get(key) {
            Some(mm) => *mm,
            None => ObjectMetaData::new(),
        };
        m.update(timestamp, self.estimated_miss_latency);
        self.metadata_store.insert(*key, m);
        self.value_store.get(key)
    }

    fn contains(&self, key: &RequestId) -> (r: bool) {
        self.value_store.contains_key(key)
    }
}


} // verus!
