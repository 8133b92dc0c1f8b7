//! Workload heuristics for sizing a cache: the maximum number of
//! simultaneously live objects (an object is live from its first access to
//! its last), and the inter-request time distribution bucketed by powers of
//! ten.
use vstd::prelude::*;

use crate::RequestEvent;
use crate::RequestId;
use crate::TimeUnit;
use crate::simulator::events_sorted;
use vstd::hash_map::HashMapWithView;
use vstd::hash_set::HashSetWithView;

verus! {

broadcast use {vstd::std_specs::hash::group_hash_axioms, vstd::std_specs::vec::group_vec_axioms};

/// Whether `k` is requested at or before index `i`.
pub open spec fn appears_by(evs: Seq<RequestEvent<RequestId>>, k: RequestId, i: int) -> bool {
    exists|j: int| 0 <= j <= i && j < evs.len() && (#[trigger] evs[j]).key == k
}

/// Whether `k` is requested strictly after index `i`.
pub open spec fn appears_after(evs: Seq<RequestEvent<RequestId>>, k: RequestId, i: int) -> bool {
    exists|j: int| i < j < evs.len() && (#[trigger] evs[j]).key == k
}

/// The objects live just after event `i`: first access passed, last access
/// still to come.
pub open spec fn active_at(evs: Seq<RequestEvent<RequestId>>, i: int) -> Set<RequestId> {
    Set::new(|k: RequestId| appears_by(evs, k, i) && appears_after(evs, k, i))
}

/// The largest live count over the prefix of events up to index `i`.
pub open spec fn spec_max_active(evs: Seq<RequestEvent<RequestId>>, i: int) -> nat
    decreases i + 1,
{
    if i < 0 {
        0
    } else if active_at(evs, i).len() > spec_max_active(evs, i - 1) {
        active_at(evs, i).len()
    } else {
        spec_max_active(evs, i - 1)
    }
}

/// The maximum number of overlapping live ranges in the workload: an
/// object's live range runs from its first access to its last.
pub fn maximum_active_objects(events: &Vec<RequestEvent<RequestId>>) -> (r: usize)
    requires
        events_sorted(events@),
    ensures
        r == spec_max_active(events@, events@.len() - 1),
{
    let ghost evs = events@;
    let n = events.len();
    let mut last_idx: HashMapWithView<u64, usize> = HashMapWithView::new();
    let mut i: usize = 0;
    while i < n
        invariant
            i <= n,
            n == evs.len(),
            events@ == evs,
            forall|k: u64| #[trigger] last_idx@.dom().contains(k) ==> appears_by(evs, k, i - 1),
            forall|k: u64|
                #[trigger] last_idx@.dom().contains(k) ==> last_idx@[k] < i
                    && evs[last_idx@[k] as int].key == k && forall|j2: int|
                    last_idx@[k] < j2 < i ==> (#[trigger] evs[j2]).key != k,
            forall|j: int| 0 <= j < i ==> last_idx@.dom().contains((#[trigger] evs[j]).key),
        decreases n - i,
    {
        let key = events[i].key;
        last_idx.insert(key, i);
        proof {
            assert(evs[i as int].key == key);
            assert(appears_by(evs, key, i as int));
        }
        i += 1;
    }
    let mut active: HashSetWithView<u64> = HashSetWithView::new();
    let mut maxa: usize = 0;
    let mut i: usize = 0;
    while i < n
        invariant
            i <= n,
            n == evs.len(),
            events@ == evs,
            forall|k: u64| #[trigger] last_idx@.dom().contains(k) ==> last_idx@[k] < n
                && evs[last_idx@[k] as int].key == k && forall|j2: int|
                last_idx@[k] < j2 < n ==> (#[trigger] evs[j2]).key != k,
            forall|j: int| 0 <= j < n ==> last_idx@.dom().contains((#[trigger] evs[j]).key),
            active@ == active_at(evs, i - 1),
            maxa == spec_max_active(evs, i - 1),
        decreases n - i,
    {
        let key = events[i].key;
        active.insert(key);
        let li = *last_idx.get(&key).unwrap();
        if li == i {
            active.remove(&key);
        }
        proof {
            let prev = active_at(evs, i - 1);
            assert(evs[i as int].key == key);
            assert(li >= i) by {
                if li < i {
                    assert(evs[i as int].key != key);
                }
            }
            assert forall|k: u64| active@.contains(k) implies active_at(evs, i as int).contains(
                k,
            ) by {
                if k == key {
                    assert(li != i);
                    assert(evs[li as int].key == key && li > i);
                    assert(appears_by(evs, k, i as int));
                    assert(appears_after(evs, k, i as int));
                } else {
                    assert(prev.contains(k));
                    assert(appears_by(evs, k, i as int)) by {
                        let j = choose|j: int|
                            0 <= j <= i - 1 && j < evs.len() && (#[trigger] evs[j]).key == k;
                    }
                    assert(appears_after(evs, k, i as int)) by {
                        let j = choose|j: int| i - 1 < j < evs.len() && (#[trigger] evs[j]).key == k;
                        assert(j != i);
                        assert(i < j);
                    }
                }
            }
            assert forall|k: u64| active_at(evs, i as int).contains(k) implies active@.contains(
                k,
            ) by {
                assert(appears_by(evs, k, i as int) && appears_after(evs, k, i as int));
                if k == key {
                    let j = choose|j: int| i < j < evs.len() && (#[trigger] evs[j]).key == k;
                    assert(li != i) by {
                        if li == i as usize {
                            assert(evs[j].key != k);
                        }
                    }
                } else {
                    assert(prev.contains(k)) by {
                        assert(appears_by(evs, k, i - 1)) by {
                            let j = choose|j: int|
                                0 <= j <= i && j < evs.len() && (#[trigger] evs[j]).key == k;
                            assert(j != i);
                        }
                        assert(appears_after(evs, k, i - 1)) by {
                            let j = choose|j: int|
                                i < j < evs.len() && (#[trigger] evs[j]).key == k;
                        }
                    }
                }
            }
            assert(active@ =~= active_at(evs, i as int));
        }
        let cur = active.len();
        if cur > maxa {
            maxa = cur;
        }
        i += 1;
    }
    maxa
}

/// How many times a gap is divided by ten, capped at nine, before it falls
/// below ten: the index of its power-of-ten bucket.
pub open spec fn bucket_of(g: int) -> int
    decreases g,
{
    if g < 10 {
        0
    } else if 1 + bucket_of(g / 10) > 9 {
        9
    } else {
        1 + bucket_of(g / 10)
    }
}

/// How many gaps fall in bucket `b`.
pub open spec fn bucket_count(gaps: Seq<u64>, b: int) -> nat {
    gaps.filter(|g: u64| bucket_of(g as int) == b).len()
}

proof fn lemma_bucket_of_bounds(g: int)
    ensures
        0 <= bucket_of(g) <= 9,
    decreases g,
{
    if g >= 10 {
        lemma_bucket_of_bounds(g / 10);
    }
}

proof fn lemma_bucket_count_push(gaps: Seq<u64>, g: u64, b: int)
    ensures
        bucket_count(gaps.push(g), b) == bucket_count(gaps, b) + (if bucket_of(g as int) == b {
            1int
        } else {
            0int
        }),
{
    reveal_with_fuel(Seq::filter, 2);
    assert(gaps.push(g).drop_last() =~= gaps);
    assert(gaps.push(g).last() == g);
}

/// The sum of a sequence of gaps.
pub open spec fn sum_of(gaps: Seq<u64>) -> int
    decreases gaps.len(),
{
    if gaps.len() == 0 {
        0
    } else {
        sum_of(gaps.drop_last()) + gaps.last()
    }
}

/// The inter-request gaps of a trace: each timestamp minus its predecessor,
/// counted only once a nonzero timestamp has been seen as predecessor.
pub open spec fn gaps_of(evs: Seq<RequestEvent<RequestId>>) -> Seq<u64>
    decreases evs.len(),
{
    if evs.len() < 2 {
        Seq::empty()
    } else if evs[evs.len() - 2].timestamp != 0 {
        gaps_of(evs.drop_last()).push(
            (evs.last().timestamp - evs[evs.len() - 2].timestamp) as u64,
        )
    } else {
        gaps_of(evs.drop_last())
    }
}

/// The inter-request time distribution: bucket `b` counts the gaps whose
/// power-of-ten bucket is `b`, alongside their total and count.
pub struct IrtStatistics {
    /// `buckets[b]` counts the gaps `g` with `bucket_of(g) == b`.
    pub buckets: Vec<u64>,
    /// The sum of all gaps, in nanoseconds.
    pub total: u128,
    /// The number of gaps.
    pub count: u64,
}

impl IrtStatistics {
    /// Ten buckets, and a count no bucket exceeds.
    pub open spec fn wf(&self) -> bool {
        &&& self.buckets@.len() == 10
        &&& forall|b: int| 0 <= b < 10 ==> (#[trigger] self.buckets@[b]) <= self.count
    }

    /// Empty statistics.
    pub fn new() -> (r: Self)
        ensures
            r.wf(),
            r.total == 0,
            r.count == 0,
            forall|b: int| 0 <= b < 10 ==> (#[trigger] r.buckets@[b]) == 0,
    {
        let mut buckets: Vec<u64> = Vec::new();
        let mut i: usize = 0;
        while i < 10
            invariant
                i <= 10,
                buckets@.len() == i,
                forall|b: int| 0 <= b < i ==> (#[trigger] buckets@[b]) == 0,
            decreases 10 - i,
        {
            buckets.push(0);
            i += 1;
        }
        IrtStatistics { buckets, total: 0, count: 0 }
    }

    /// Record one gap: its bucket, the total and the count each grow by it.
    pub fn add(&mut self, irt: u64)
        requires
            old(self).wf(),
            old(self).count < u64::MAX,
            old(self).total + irt <= u128::MAX,
        ensures
            final(self).wf(),
            final(self).total == old(self).total + irt,
            final(self).count == old(self).count + 1,
            final(self).buckets@ == old(self).buckets@.update(
                bucket_of(irt as int),
                (old(self).buckets@[bucket_of(irt as int)] + 1) as u64,
            ),
    {
        self.total = self.total + (irt as u128);
        self.count = self.count + 1;
        let mut c = irt;
        let mut bucket: usize = 0;
        proof {
            lemma_bucket_of_bounds(irt as int);
        }
        while c >= 10 && bucket < 9
            invariant
                bucket <= 9,
                bucket_of(irt as int) == if 9 <= bucket + bucket_of(c as int) {
                    9int
                } else {
                    bucket + bucket_of(c as int)
                },
            decreases c,
        {
            proof {
                lemma_bucket_of_bounds(c as int);
                lemma_bucket_of_bounds(c as int / 10);
                assert(c as int / 10 == (c / 10) as int);
            }
            c = c / 10;
            bucket += 1;
        }
        proof {
            lemma_bucket_of_bounds(c as int);
            assert(bucket_of(irt as int) == bucket);
            assert(self.buckets@[bucket as int] <= old(self).count);
        }
        let cur = self.buckets[bucket];
        self.buckets[bucket] = cur + 1;
    }
}

/// Fold a trace into its inter-request time statistics.
pub fn get_irt(events: &Vec<RequestEvent<RequestId>>) -> (r: IrtStatistics)
    requires
        events_sorted(events@),
    ensures
        r.wf(),
        r.count == gaps_of(events@).len(),
        r.total == sum_of(gaps_of(events@)),
        forall|b: int|
            0 <= b < 10 ==> (#[trigger] r.buckets@[b]) == bucket_count(gaps_of(events@), b),
{
    broadcast use vstd::seq_lib::group_filter_ensures;

    let ghost evs = events@;
    let mut irt = IrtStatistics::new();
    let mut i: usize = 0;
    proof {
        assert(evs.take(1).len() < 2 ==> gaps_of(evs.take(if 1 <= evs.len() {
            1int
        } else {
            0int
        })) =~= Seq::<u64>::empty());
        assert(gaps_of(evs.take(0)) =~= Seq::<u64>::empty());
        assert forall|b: int| 0 <= b < 10 implies #[trigger] bucket_count(Seq::<u64>::empty(), b)
            == 0 by {
            assert(Seq::<u64>::empty().filter(|g: u64| bucket_of(g as int) == b)
                =~= Seq::<u64>::empty());
        }
    }
    while i < events.len()
        invariant
            i <= evs.len(),
            events@ == evs,
            events_sorted(evs),
            irt.wf(),
            irt.count == gaps_of(evs.take(i as int)).len(),
            irt.total == sum_of(gaps_of(evs.take(i as int))),
            forall|b: int|
                0 <= b < 10 ==> (#[trigger] irt.buckets@[b]) == bucket_count(
                    gaps_of(evs.take(i as int)),
                    b,
                ),
            irt.count <= i,
            irt.total <= irt.count * (u64::MAX as int),
        decreases evs.len() - i,
    {
        let ghost pre = gaps_of(evs.take(i as int));
        proof {
            assert(evs.take(i + 1).len() == i + 1);
            if i >= 1 {
                assert(evs.take(i + 1).drop_last() =~= evs.take(i as int));
                assert(evs.take(i + 1)[i as int] == evs[i as int]);
                assert(evs.take(i + 1)[i - 1] == evs[i - 1]);
            } else {
                assert(gaps_of(evs.take(1)) =~= Seq::<u64>::empty());
                assert(gaps_of(evs.take(0)) =~= Seq::<u64>::empty());
            }
        }
        if i >= 1 {
            let prev = events[i - 1].timestamp;
            if prev != 0 {
                let gap = events[i].timestamp - prev;
                proof {
                    assert(gaps_of(evs.take(i + 1)) == pre.push(gap));
                    assert((irt.count as int) + 1 <= u64::MAX) by {
                        assert(irt.count <= i);
                    }
                    assert(irt.total + gap <= u128::MAX) by {
                        assert(irt.total <= irt.count * (u64::MAX as int));
                        assert(irt.count * (u64::MAX as int) + u64::MAX == (irt.count + 1) * (
                        u64::MAX as int)) by (nonlinear_arith);
                        assert((irt.count + 1) * (u64::MAX as int) <= u64::MAX * (u64::MAX as int))
                            by (nonlinear_arith)
                            requires
                                irt.count + 1 <= u64::MAX,
                        ;
                    }
                }
                irt.add(gap);
                proof {
                    assert(pre.push(gap).drop_last() =~= pre);
                    assert(sum_of(pre.push(gap)) == sum_of(pre) + gap);
                    lemma_bucket_of_bounds(gap as int);
                    assert forall|b: int| 0 <= b < 10 implies (#[trigger] irt.buckets@[b])
                        == bucket_count(gaps_of(evs.take(i + 1)), b) by {
                        lemma_bucket_count_push(pre, gap, b);
                    }
                    assert(irt.total <= irt.count * (u64::MAX as int)) by {
                        assert(((irt.count - 1) as int) * (u64::MAX as int) + u64::MAX
                            == (irt.count as int) * (u64::MAX as int)) by (nonlinear_arith);
                    }
                }
            } else {
                proof {
                    assert(gaps_of(evs.take(i + 1)) == pre);
                }
            }
        }
        i += 1;
    }
    proof {
        assert(evs.take(evs.len() as int) =~= evs);
    }
    irt
}

} // verus!
