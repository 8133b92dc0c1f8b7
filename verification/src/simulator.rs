//! The delay-aware discrete-event simulator: it replays a finite trace of
//! timestamped requests against an eviction policy, merging trace arrivals
//! with the completions of outstanding fetches, and reports the completion
//! timestamp of every request. Arrivals that find a fetch for their key in
//! flight coalesce onto it and share its completion.
use vstd::prelude::*;

use crate::RequestEvent;
use crate::RequestId;
use crate::TimeUnit;
use crate::cache::Cache;
use std::collections::VecDeque;
use vstd::hash_map::HashMapWithView;

verus! {

broadcast use {
    vstd::std_specs::hash::group_hash_axioms,
    vstd::std_specs::vecdeque::group_vec_dequeue_axioms,
};

/// The outcome of one request: the key, the (clamped) arrival timestamp, and
/// the time at which the request was served. They are equal exactly on a
/// request served without waiting.
#[derive(Debug, Eq, PartialEq, Clone, Copy, Structural)]
pub struct RequestResult {
    pub key: RequestId,
    pub request_timestamp: TimeUnit,
    pub completion_timestamp: TimeUnit,
}

/// The next thing the event loop processes: a trace arrival, the completion
/// of an outstanding fetch, or the end of the simulation.
#[derive(Debug, Eq, PartialEq, Clone, Copy, Structural)]
pub enum Event {
    Request(RequestId, TimeUnit),
    Completion(RequestId, TimeUnit),
    End,
}

/// Timestamps never decrease along the trace.
pub open spec fn events_sorted(evs: Seq<RequestEvent<RequestId>>) -> bool {
    forall|i: int, j: int| 0 <= i < j < evs.len() ==> evs[i].timestamp <= evs[j].timestamp
}

/// The timestamp at which arrival `i` is processed: its own, clamped from
/// below to the raw timestamp of the arrival before it (never rewind). On a
/// sorted trace this is the arrival's own timestamp.
pub open spec fn effective_timestamp(evs: Seq<RequestEvent<RequestId>>, i: int) -> TimeUnit {
    if i <= 0 || evs[i].timestamp >= evs[i - 1].timestamp {
        evs[i].timestamp
    } else {
        evs[i - 1].timestamp
    }
}

/// The arrivals as the simulator sees them: each key with its effective
/// timestamp.
pub open spec fn effective_arrivals(evs: Seq<RequestEvent<RequestId>>) -> Seq<
    (RequestId, TimeUnit),
> {
    Seq::new(evs.len(), |i: int| (evs[i].key, effective_timestamp(evs, i)))
}

/// The `(key, request timestamp)` pairs of a result list.
pub open spec fn result_pairs(res: Seq<RequestResult>) -> Seq<(RequestId, TimeUnit)> {
    Seq::new(res.len(), |i: int| (res[i].key, res[i].request_timestamp))
}

/// Each waiting arrival of one key, as `(key, timestamp)` pairs.
pub open spec fn key_pairs(k: RequestId, ws: Seq<TimeUnit>) -> Seq<(RequestId, TimeUnit)> {
    Seq::new(ws.len(), |i: int| (k, ws[i]))
}

/// All arrivals that wait on an outstanding fetch, walked in the order of the
/// completion queue.
pub open spec fn pending_pairs(
    q: Seq<(RequestId, TimeUnit)>,
    m: Map<u64, Vec<TimeUnit>>,
) -> Seq<(RequestId, TimeUnit)>
    decreases q.len(),
{
    if q.len() == 0 {
        Seq::empty()
    } else {
        key_pairs(q[0].0, m[q[0].0]@) + pending_pairs(q.drop_first(), m)
    }
}

/// `pending_pairs` reads only the entries of the keys on the queue.
proof fn lemma_pending_congruence(
    q: Seq<(RequestId, TimeUnit)>,
    m1: Map<u64, Vec<TimeUnit>>,
    m2: Map<u64, Vec<TimeUnit>>,
)
    requires
        forall|i: int|
            0 <= i < q.len() ==> m1[(#[trigger] q[i]).0]@ == m2[q[i].0]@,
    ensures
        pending_pairs(q, m1) == pending_pairs(q, m2),
    decreases q.len(),
{
    if q.len() > 0 {
        assert(m1[q[0].0]@ == m2[q[0].0]@);
        assert(key_pairs(q[0].0, m1[q[0].0]@) =~= key_pairs(q[0].0, m2[q[0].0]@));
        assert forall|i: int|
            0 <= i < q.drop_first().len() implies m1[(#[trigger] q.drop_first()[i]).0]@
            == m2[q.drop_first()[i].0]@ by {
            assert(q.drop_first()[i] == q[i + 1]);
        }
        lemma_pending_congruence(q.drop_first(), m1, m2);
    }
}

/// Appending an entry to the queue appends that key's waiters to the pending
/// pairs.
proof fn lemma_pending_push(
    q: Seq<(RequestId, TimeUnit)>,
    m: Map<u64, Vec<TimeUnit>>,
    e: (RequestId, TimeUnit),
)
    ensures
        pending_pairs(q.push(e), m) == pending_pairs(q, m) + key_pairs(e.0, m[e.0]@),
    decreases q.len(),
{
    if q.len() == 0 {
        assert(q.push(e).drop_first() =~= q);
        assert(pending_pairs(q.push(e), m) =~= key_pairs(e.0, m[e.0]@));
        assert(pending_pairs(q, m) + key_pairs(e.0, m[e.0]@) =~= key_pairs(e.0, m[e.0]@));
    } else {
        assert(q.push(e).drop_first() =~= q.drop_first().push(e));
        assert(q.push(e)[0] == q[0]);
        lemma_pending_push(q.drop_first(), m, e);
        assert(pending_pairs(q.push(e), m) =~= pending_pairs(q, m) + key_pairs(e.0, m[e.0]@));
    }
}

/// Appending one waiter to the list of a key that sits on the queue exactly
/// once adds exactly that pair to the pending pairs.
proof fn lemma_pending_append_waiter(
    q: Seq<(RequestId, TimeUnit)>,
    m: Map<u64, Vec<TimeUnit>>,
    k: RequestId,
    w1: Vec<TimeUnit>,
    t: TimeUnit,
)
    requires
        forall|i: int, j: int| 0 <= i < j < q.len() ==> (#[trigger] q[i]).0 != (#[trigger] q[j]).0,
        exists|i: int| 0 <= i < q.len() && (#[trigger] q[i]).0 == k,
        m.dom().contains(k),
        w1@ == m[k]@.push(t),
    ensures
        pending_pairs(q, m.insert(k, w1)).to_multiset() == pending_pairs(q, m).to_multiset().insert(
            (k, t),
        ),
    decreases q.len(),
{
    broadcast use {vstd::multiset::group_multiset_axioms, vstd::seq_lib::group_to_multiset_ensures};

    let m2 = m.insert(k, w1);
    let x = (k, t);
    let tail = q.drop_first();
    if q[0].0 == k {
        assert forall|i: int| 0 <= i < tail.len() implies m2[(#[trigger] tail[i]).0]@
            == m[tail[i].0]@ by {
            assert(tail[i] == q[i + 1]);
            assert(q[i + 1].0 != k);
        }
        lemma_pending_congruence(tail, m2, m);
        let a = key_pairs(k, m[k]@);
        let b = pending_pairs(tail, m);
        assert(key_pairs(k, w1@) =~= a.push(x));
        assert(pending_pairs(q, m2) == a.push(x) + b);
        assert(pending_pairs(q, m) == a + b);
        vstd::seq_lib::lemma_multiset_commutative(a.push(x), b);
        vstd::seq_lib::lemma_multiset_commutative(a, b);
        assert(a.push(x).to_multiset() == a.to_multiset().insert(x));
        assert(a.to_multiset().insert(x).add(b.to_multiset()) =~= (a.to_multiset().add(
            b.to_multiset(),
        )).insert(x));
    } else {
        let i = choose|i: int| 0 <= i < q.len() && (#[trigger] q[i]).0 == k;
        assert(i >= 1);
        assert(tail[i - 1].0 == k);
        lemma_pending_append_waiter(tail, m, k, w1, t);
        let h = key_pairs(q[0].0, m[q[0].0]@);
        assert(m2[q[0].0]@ == m[q[0].0]@);
        assert(key_pairs(q[0].0, m2[q[0].0]@) =~= h);
        assert(pending_pairs(q, m2) == h + pending_pairs(tail, m2));
        assert(pending_pairs(q, m) == h + pending_pairs(tail, m));
        vstd::seq_lib::lemma_multiset_commutative(h, pending_pairs(tail, m2));
        vstd::seq_lib::lemma_multiset_commutative(h, pending_pairs(tail, m));
        assert(h.to_multiset().add(pending_pairs(tail, m).to_multiset().insert(x)) =~= (
        h.to_multiset().add(pending_pairs(tail, m).to_multiset())).insert(x));
    }
}

/// Pick the next event: the earlier of the next trace arrival (at its
/// effective, clamped timestamp) and the first queued completion, arrivals
/// winning ties. Consuming an arrival records its raw trace timestamp.
pub fn next_event(
    requests: &Vec<RequestEvent<RequestId>>,
    next_idx: &mut usize,
    future_completion: &mut VecDeque<(RequestId, TimeUnit)>,
    last_request_timestamp: &mut TimeUnit,
) -> (e: Event)
    requires
        *old(next_idx) <= requests@.len(),
        *old(last_request_timestamp) == if *old(next_idx) == 0 {
            0
        } else {
            requests@[*old(next_idx) - 1].timestamp
        },
    ensures
        ({
            let idx = *old(next_idx) as int;
            let evs = requests@;
            let q0 = old(future_completion)@;
            match e {
                Event::Request(k, t) => {
                    &&& idx < evs.len()
                    &&& k == evs[idx].key
                    &&& t == effective_timestamp(evs, idx)
                    &&& q0.len() > 0 ==> t <= q0[0].1
                    &&& *final(next_idx) == idx + 1
                    &&& *final(last_request_timestamp) == evs[idx].timestamp
                    &&& final(future_completion)@ == q0
                },
                Event::Completion(k, t) => {
                    &&& q0.len() > 0
                    &&& k == q0[0].0
                    &&& t == q0[0].1
                    &&& idx < evs.len() ==> t < effective_timestamp(evs, idx)
                    &&& final(future_completion)@ == q0.drop_first()
                    &&& *final(next_idx) == idx
                    &&& *final(last_request_timestamp) == *old(last_request_timestamp)
                },
                Event::End => {
                    &&& idx == evs.len()
                    &&& q0.len() == 0
                    &&& final(future_completion)@ == q0
                    &&& *final(next_idx) == idx
                    &&& *final(last_request_timestamp) == *old(last_request_timestamp)
                },
            }
        }),
{
    if *next_idx < requests.len() {
        let ev = requests[*next_idx];
        let eff = if ev.timestamp >= *last_request_timestamp {
            ev.timestamp
        } else {
            *last_request_timestamp
        };
        let choose_request = if future_completion.len() > 0 {
            eff <= future_completion[0].1
        } else {
            true
        };
        if choose_request {
            *next_idx += 1;
            *last_request_timestamp = ev.timestamp;
            Event::Request(ev.key, eff)
        } else {
            let c = future_completion.pop_front().unwrap();
            Event::Completion(c.0, c.1)
        }
    } else {
        match future_completion.pop_front() {
            Some(c) => Event::Completion(c.0, c.1),
            None => Event::End,
        }
    }
}


/// What `run_simulation` promises of its results, given the trace, the keys
/// initially resident, and the miss latency. Unconditionally, there is one
/// result per arrival and the results' `(key, request timestamp)` pairs are
/// exactly the effective arrivals. On a sorted trace, additionally: every
/// request completes no earlier than it arrives and within one miss latency;
/// completions of one key never decrease in request order; a request served
/// instantly found its key fetched earlier or initially resident; and every
/// waiting request shares the completion of the first arrival of its
/// miss-window, one miss latency after that first arrival.
pub open spec fn simulation_postcondition(
    evs: Seq<RequestEvent<RequestId>>,
    initial: Set<RequestId>,
    lat: TimeUnit,
    res: Seq<RequestResult>,
) -> bool {
    &&& res.len() == evs.len()
    &&& result_pairs(res).to_multiset() == effective_arrivals(evs).to_multiset()
    &&& events_sorted(evs) ==> forall|i: int|
        0 <= i < res.len() ==> (#[trigger] res[i]).request_timestamp <= res[i].completion_timestamp
            && res[i].completion_timestamp <= res[i].request_timestamp + lat
    &&& events_sorted(evs) ==> forall|i: int, j: int|
        0 <= i < res.len() && 0 <= j < res.len() && (#[trigger] res[i]).key == (
        #[trigger] res[j]).key && res[i].request_timestamp < res[j].request_timestamp
            ==> res[i].completion_timestamp <= res[j].completion_timestamp
    &&& events_sorted(evs) && lat >= 1 ==> forall|i: int|
        0 <= i < res.len() && (#[trigger] res[i]).completion_timestamp
            == res[i].request_timestamp ==> initial.contains(res[i].key) || exists|j: int|
            0 <= j < res.len() && j != i && (#[trigger] res[j]).key == res[i].key
                && res[j].completion_timestamp <= res[i].request_timestamp
    &&& events_sorted(evs) ==> forall|i: int|
        0 <= i < res.len() ==> (#[trigger] res[i]).completion_timestamp
            == res[i].request_timestamp || exists|j: int|
            0 <= j < res.len() && (#[trigger] res[j]).key == res[i].key
                && res[j].request_timestamp <= res[i].request_timestamp
                && res[j].completion_timestamp == res[i].completion_timestamp
                && res[i].completion_timestamp == res[j].request_timestamp + lat
}


/// The simulator's loop invariant, tying together the cache, the completion
/// queue `q`, the in-flight table `m`, the results so far, the number of
/// consumed arrivals `idx`, and (on sorted traces) the current time `now`.
pub open spec fn sim_inv<C: Cache<()>>(
    cache: C,
    evs: Seq<RequestEvent<RequestId>>,
    initial: Set<RequestId>,
    lat: TimeUnit,
    idx: int,
    q: Seq<(RequestId, TimeUnit)>,
    m: Map<u64, Vec<TimeUnit>>,
    res: Seq<RequestResult>,
    now: TimeUnit,
) -> bool {
    let sorted = events_sorted(evs);
    &&& cache.wf()
    &&& 0 <= idx <= evs.len()
    &&& forall|i: int, j: int| 0 <= i < j < q.len() ==> (#[trigger] q[i]).0 != (#[trigger] q[j]).0
    &&& forall|i: int| 0 <= i < q.len() ==> m.dom().contains((#[trigger] q[i]).0)
    &&& forall|k: u64|
        #[trigger] m.dom().contains(k) ==> exists|i: int|
            0 <= i < q.len() && (#[trigger] q[i]).0 == k
    &&& forall|k: u64| #[trigger] m.dom().contains(k) ==> m[k]@.len() >= 1
    &&& forall|i: int|
        0 <= i < q.len() ==> !cache.residency().contains((#[trigger] q[i]).0) && cache.may_write(
            q[i].0,
        )
    &&& (result_pairs(res) + pending_pairs(q, m)).to_multiset() == effective_arrivals(evs).take(
        idx,
    ).to_multiset()
    &&& sorted ==> (idx < evs.len() ==> now <= evs[idx].timestamp)
    &&& sorted ==> forall|i: int| 0 <= i < q.len() ==> now <= (#[trigger] q[i]).1
    &&& sorted ==> forall|i: int, j: int|
        0 <= i <= j < q.len() ==> (#[trigger] q[i]).1 <= (#[trigger] q[j]).1
    &&& sorted ==> forall|i: int|
        0 <= i < res.len() ==> (#[trigger] res[i]).request_timestamp
            <= res[i].completion_timestamp && res[i].completion_timestamp
            <= res[i].request_timestamp + lat && res[i].completion_timestamp <= now
    &&& sorted ==> forall|i: int|
        0 <= i < q.len() ==> {
            let k = (#[trigger] q[i]).0;
            let c = q[i].1;
            let ws = m[k]@;
            &&& c == ws[0] + lat
            &&& forall|p: int| 0 <= p < ws.len() ==> (#[trigger] ws[p]) <= c
            &&& forall|p: int| 0 <= p < ws.len() ==> (#[trigger] ws[p]) <= now
            &&& forall|p: int, p2: int| 0 <= p <= p2 < ws.len() ==> (#[trigger] ws[p]) <= (
            #[trigger] ws[p2])
            &&& forall|r: int|
                0 <= r < res.len() && (#[trigger] res[r]).key == k ==> res[r].completion_timestamp
                    <= ws[0]
        }
    &&& sorted ==> forall|r1: int, r2: int|
        0 <= r1 < res.len() && 0 <= r2 < res.len() && (#[trigger] res[r1]).key == (
        #[trigger] res[r2]).key && res[r1].request_timestamp < res[r2].request_timestamp
            ==> res[r1].completion_timestamp <= res[r2].completion_timestamp
    &&& sorted ==> forall|k: u64|
        #[trigger] cache.residency().contains(k) ==> initial.contains(k) || exists|j: int|
            0 <= j < res.len() && (#[trigger] res[j]).key == k && res[j].completion_timestamp
                <= now
    &&& sorted && lat >= 1 ==> forall|i: int|
        0 <= i < res.len() && (#[trigger] res[i]).completion_timestamp
            == res[i].request_timestamp ==> initial.contains(res[i].key) || exists|j: int|
            0 <= j < res.len() && j != i && (#[trigger] res[j]).key == res[i].key
                && res[j].completion_timestamp <= res[i].request_timestamp
    &&& sorted ==> forall|i: int|
        0 <= i < res.len() ==> (#[trigger] res[i]).completion_timestamp
            == res[i].request_timestamp || exists|j: int|
            0 <= j < res.len() && (#[trigger] res[j]).key == res[i].key
                && res[j].request_timestamp <= res[i].request_timestamp
                && res[j].completion_timestamp == res[i].completion_timestamp
                && res[i].completion_timestamp == res[j].request_timestamp + lat
}

/// Process one arrival `(key, timestamp)`: a resident key completes at once;
/// otherwise the arrival joins its key's in-flight list, starting a fetch
/// (and scheduling its completion) if none is outstanding.
fn handle_arrival<C: Cache<()>>(
    cache: &mut C,
    requests_in_progress: &mut HashMapWithView<u64, Vec<TimeUnit>>,
    future_completions: &mut VecDeque<(RequestId, TimeUnit)>,
    results: &mut Vec<RequestResult>,
    key: RequestId,
    timestamp: TimeUnit,
    miss_latency: TimeUnit,
    Ghost(evs): Ghost<Seq<RequestEvent<RequestId>>>,
    Ghost(initial): Ghost<Set<RequestId>>,
    Ghost(idx0): Ghost<int>,
    Ghost(now0): Ghost<TimeUnit>,
)
    requires
        sim_inv(
            *old(cache),
            evs,
            initial,
            miss_latency,
            idx0,
            old(future_completions)@,
            old(requests_in_progress)@,
            old(results)@,
            now0,
        ),
        0 <= idx0 < evs.len(),
        key == evs[idx0].key,
        timestamp == effective_timestamp(evs, idx0),
        old(future_completions)@.len() > 0 ==> timestamp <= old(future_completions)@[0].1,
        timestamp + miss_latency <= u64::MAX,
    ensures
        sim_inv(
            *final(cache),
            evs,
            initial,
            miss_latency,
            idx0 + 1,
            final(future_completions)@,
            final(requests_in_progress)@,
            final(results)@,
            timestamp,
        ),
        final(future_completions)@.len() <= old(future_completions)@.len() + 1,
{
    let ghost sorted = events_sorted(evs);
    let ghost q0 = future_completions@;
    let ghost m0 = requests_in_progress@;
    let ghost res0 = results@;
    proof {
        assert(effective_arrivals(evs).take(idx0 + 1) =~= effective_arrivals(evs).take(idx0).push(
            (key, timestamp),
        ));
        if sorted {
            assert(now0 <= timestamp);
        }
    }
    let hit = cache.get(&key, timestamp).is_some();
    if hit {
        results.push(
            RequestResult { key, request_timestamp: timestamp, completion_timestamp: timestamp },
        );
        proof {
            broadcast use {
                vstd::multiset::group_multiset_axioms,
                vstd::seq_lib::group_to_multiset_ensures,
            };

            let a = result_pairs(res0);
            let b = pending_pairs(q0, m0);
            let x = (key, timestamp);
            assert(result_pairs(results@) =~= a.push(x));
            vstd::seq_lib::lemma_multiset_commutative(a.push(x), b);
            vstd::seq_lib::lemma_multiset_commutative(a, b);
            assert(a.push(x).to_multiset() == a.to_multiset().insert(x));
            assert(a.to_multiset().insert(x).add(b.to_multiset()) =~= (a.to_multiset().add(
                b.to_multiset(),
            )).insert(x));
            assert((result_pairs(results@) + b).to_multiset() =~= (a + b).to_multiset().insert(x));
            if sorted {
                let ri = res0.len() as int;
                assert(results@[ri].key == key);
                assert(forall|j: int| 0 <= j < res0.len() ==> results@[j] == res0[j]);
                assert forall|k2: u64|
                    #[trigger] cache.residency().contains(k2) && !initial.contains(
                    k2,
                ) implies exists|j: int|
                    0 <= j < results@.len() && (#[trigger] results@[j]).key == k2
                        && results@[j].completion_timestamp <= timestamp by {
                    let j = choose|j: int|
                        0 <= j < res0.len() && (#[trigger] res0[j]).key == k2
                            && res0[j].completion_timestamp <= now0;
                    assert(results@[j].key == k2 && results@[j].completion_timestamp <= timestamp);
                }
                if miss_latency >= 1 {
                    assert forall|i: int|
                        0 <= i < results@.len() && (#[trigger] results@[i]).completion_timestamp
                            == results@[i].request_timestamp && !initial.contains(
                            results@[i].key,
                        ) implies exists|j: int|
                        0 <= j < results@.len() && j != i && (#[trigger] results@[j]).key
                            == results@[i].key && results@[j].completion_timestamp
                            <= results@[i].request_timestamp by {
                        if i < res0.len() {
                            let j = choose|j: int|
                                0 <= j < res0.len() && j != i && (#[trigger] res0[j]).key
                                    == res0[i].key && res0[j].completion_timestamp
                                    <= res0[i].request_timestamp;
                            assert(results@[j].key == results@[i].key
                                && results@[j].completion_timestamp
                                <= results@[i].request_timestamp);
                        } else {
                            assert(cache.residency().contains(key));
                            let j = choose|j: int|
                                0 <= j < res0.len() && (#[trigger] res0[j]).key == key
                                    && res0[j].completion_timestamp <= now0;
                            assert(results@[j].key == key && results@[j].completion_timestamp
                                <= timestamp);
                        }
                    }
                }
                assert forall|i: int|
                    0 <= i < results@.len() && (#[trigger] results@[i]).completion_timestamp
                        != results@[i].request_timestamp implies exists|j: int|
                    0 <= j < results@.len() && (#[trigger] results@[j]).key == results@[i].key
                        && results@[j].request_timestamp <= results@[i].request_timestamp
                        && results@[j].completion_timestamp == results@[i].completion_timestamp
                        && results@[i].completion_timestamp == results@[j].request_timestamp
                        + miss_latency by {
                    assert(i < res0.len());
                    let j = choose|j: int|
                        0 <= j < res0.len() && (#[trigger] res0[j]).key == res0[i].key
                            && res0[j].request_timestamp <= res0[i].request_timestamp
                            && res0[j].completion_timestamp == res0[i].completion_timestamp
                            && res0[i].completion_timestamp == res0[j].request_timestamp
                            + miss_latency;
                    assert(results@[j].key == results@[i].key && results@[j].request_timestamp
                        <= results@[i].request_timestamp && results@[j].completion_timestamp
                        == results@[i].completion_timestamp && results@[i].completion_timestamp
                        == results@[j].request_timestamp + miss_latency);
                }
            }
        }
    } else {
        if !requests_in_progress.contains_key(&key) {
            let comp_time = timestamp + miss_latency;
            let mut w: Vec<TimeUnit> = Vec::new();
            w.push(timestamp);
            requests_in_progress.insert(key, w);
            future_completions.push_back((key, comp_time));
            proof {
                broadcast use {
                    vstd::multiset::group_multiset_axioms,
                    vstd::seq_lib::group_to_multiset_ensures,
                };

                assert forall|i: int| 0 <= i < q0.len() implies (#[trigger] q0[i]).0 != key by {
                    assert(m0.dom().contains(q0[i].0));
                }
                lemma_pending_congruence(q0, requests_in_progress@, m0);
                lemma_pending_push(q0, requests_in_progress@, (key, comp_time));
                assert(key_pairs(key, requests_in_progress@[key]@) =~= Seq::empty().push(
                    (key, timestamp),
                ));
                assert forall|k2: u64|
                    #[trigger] requests_in_progress@.dom().contains(k2) implies exists|i: int|
                    0 <= i < future_completions@.len() && (#[trigger] future_completions@[i]).0
                        == k2 by {
                    if k2 == key {
                        assert(future_completions@[q0.len() as int].0 == key);
                    } else {
                        let i = choose|i: int| 0 <= i < q0.len() && (#[trigger] q0[i]).0 == k2;
                        assert(future_completions@[i].0 == k2);
                    }
                }
                assert(pending_pairs(future_completions@, requests_in_progress@) =~= pending_pairs(
                    q0,
                    m0,
                ).push((key, timestamp)));
                let a = result_pairs(res0);
                let b = pending_pairs(q0, m0);
                let x = (key, timestamp);
                assert(result_pairs(results@) =~= a);
                vstd::seq_lib::lemma_multiset_commutative(a, b.push(x));
                vstd::seq_lib::lemma_multiset_commutative(a, b);
                assert(b.push(x).to_multiset() == b.to_multiset().insert(x));
                assert(a.to_multiset().add(b.to_multiset().insert(x)) =~= (a.to_multiset().add(
                    b.to_multiset(),
                )).insert(x));
                assert((result_pairs(results@) + pending_pairs(
                    future_completions@,
                    requests_in_progress@,
                )).to_multiset() =~= (a + b).to_multiset().insert(x));
                if sorted {
                    assert forall|k2: u64|
                        #[trigger] cache.residency().contains(k2) && !initial.contains(
                        k2,
                    ) implies exists|j: int|
                        0 <= j < results@.len() && (#[trigger] results@[j]).key == k2
                            && results@[j].completion_timestamp <= timestamp by {
                        let j = choose|j: int|
                            0 <= j < res0.len() && (#[trigger] res0[j]).key == k2
                                && res0[j].completion_timestamp <= now0;
                    }
                }
            }
        } else {
            let mut w = requests_in_progress.remove(&key).unwrap();
            proof {
                assert(m0[key]@.len() >= 1);
            }
            w.push(timestamp);
            requests_in_progress.insert(key, w);
            proof {
                broadcast use {
                    vstd::multiset::group_multiset_axioms,
                    vstd::seq_lib::group_to_multiset_ensures,
                };

                assert(requests_in_progress@ =~= m0.insert(key, w));
                assert(requests_in_progress@.dom() =~= m0.dom());
                lemma_pending_append_waiter(q0, m0, key, w, timestamp);
                vstd::seq_lib::lemma_multiset_commutative(result_pairs(res0), pending_pairs(q0, m0));
                vstd::seq_lib::lemma_multiset_commutative(
                    result_pairs(results@),
                    pending_pairs(future_completions@, requests_in_progress@),
                );
                assert(result_pairs(results@) =~= result_pairs(res0));
                assert((result_pairs(results@) + pending_pairs(
                    future_completions@,
                    requests_in_progress@,
                )).to_multiset() =~= (result_pairs(res0) + pending_pairs(q0, m0)).to_multiset().insert(
                    (key, timestamp),
                ));
                if sorted {
                    assert forall|k2: u64|
                        #[trigger] cache.residency().contains(k2) && !initial.contains(
                        k2,
                    ) implies exists|j: int|
                        0 <= j < results@.len() && (#[trigger] results@[j]).key == k2
                            && results@[j].completion_timestamp <= timestamp by {
                        let j = choose|j: int|
                            0 <= j < res0.len() && (#[trigger] res0[j]).key == k2
                                && res0[j].completion_timestamp <= now0;
                    }
                }
            }
        }
    }
}



/// The batch of results that the completion of `key` at time `t` emits: one
/// per waiting arrival.
pub open spec fn completion_batch(key: RequestId, ws: Seq<TimeUnit>, t: TimeUnit) -> Seq<
    RequestResult,
> {
    Seq::new(
        ws.len(),
        |i: int| RequestResult { key: key, request_timestamp: ws[i], completion_timestamp: t },
    )
}

/// Re-establishes the sorted-trace clauses of the loop invariant after the
/// completion of `key` at `timestamp` appended one result per waiter.
#[verifier::rlimit(100)]
proof fn lemma_completion_sorted<C: Cache<()>>(
    cpost: C,
    resid0: Set<RequestId>,
    initial: Set<RequestId>,
    lat: TimeUnit,
    key: RequestId,
    timestamp: TimeUnit,
    now0: TimeUnit,
    ws: Seq<TimeUnit>,
    res0: Seq<RequestResult>,
    res1: Seq<RequestResult>,
)
    requires
        res1 == res0 + completion_batch(key, ws, timestamp),
        ws.len() >= 1,
        timestamp == ws[0] + lat,
        now0 <= timestamp,
        forall|p: int| 0 <= p < ws.len() ==> (#[trigger] ws[p]) <= timestamp,
        forall|p: int, p2: int| 0 <= p <= p2 < ws.len() ==> (#[trigger] ws[p]) <= (
        #[trigger] ws[p2]),
        forall|r: int|
            0 <= r < res0.len() && (#[trigger] res0[r]).key == key ==> res0[r].completion_timestamp
                <= ws[0],
        forall|i: int|
            0 <= i < res0.len() ==> (#[trigger] res0[i]).request_timestamp
                <= res0[i].completion_timestamp && res0[i].completion_timestamp
                <= res0[i].request_timestamp + lat && res0[i].completion_timestamp <= now0,
        forall|r1: int, r2: int|
            0 <= r1 < res0.len() && 0 <= r2 < res0.len() && (#[trigger] res0[r1]).key == (
            #[trigger] res0[r2]).key && res0[r1].request_timestamp < res0[r2].request_timestamp
                ==> res0[r1].completion_timestamp <= res0[r2].completion_timestamp,
        forall|k: u64|
            #[trigger] resid0.contains(k) ==> initial.contains(k) || exists|j: int|
                0 <= j < res0.len() && (#[trigger] res0[j]).key == k
                    && res0[j].completion_timestamp <= now0,
        cpost.residency().subset_of(resid0.insert(key)),
        lat >= 1 ==> forall|i: int|
            0 <= i < res0.len() && (#[trigger] res0[i]).completion_timestamp
                == res0[i].request_timestamp ==> initial.contains(res0[i].key) || exists|j: int|
                0 <= j < res0.len() && j != i && (#[trigger] res0[j]).key == res0[i].key
                    && res0[j].completion_timestamp <= res0[i].request_timestamp,
        forall|i: int|
            0 <= i < res0.len() ==> (#[trigger] res0[i]).completion_timestamp
                == res0[i].request_timestamp || exists|j: int|
                0 <= j < res0.len() && (#[trigger] res0[j]).key == res0[i].key
                    && res0[j].request_timestamp <= res0[i].request_timestamp
                    && res0[j].completion_timestamp == res0[i].completion_timestamp
                    && res0[i].completion_timestamp == res0[j].request_timestamp + lat,
    ensures
        forall|i: int|
            0 <= i < res1.len() ==> (#[trigger] res1[i]).request_timestamp
                <= res1[i].completion_timestamp && res1[i].completion_timestamp
                <= res1[i].request_timestamp + lat && res1[i].completion_timestamp <= timestamp,
        forall|r1: int, r2: int|
            0 <= r1 < res1.len() && 0 <= r2 < res1.len() && (#[trigger] res1[r1]).key == (
            #[trigger] res1[r2]).key && res1[r1].request_timestamp < res1[r2].request_timestamp
                ==> res1[r1].completion_timestamp <= res1[r2].completion_timestamp,
        forall|k: u64|
            #[trigger] cpost.residency().contains(k) ==> initial.contains(k) || exists|j: int|
                0 <= j < res1.len() && (#[trigger] res1[j]).key == k
                    && res1[j].completion_timestamp <= timestamp,
        lat >= 1 ==> forall|i: int|
            0 <= i < res1.len() && (#[trigger] res1[i]).completion_timestamp
                == res1[i].request_timestamp ==> initial.contains(res1[i].key) || exists|j: int|
                0 <= j < res1.len() && j != i && (#[trigger] res1[j]).key == res1[i].key
                    && res1[j].completion_timestamp <= res1[i].request_timestamp,
        forall|i: int|
            0 <= i < res1.len() ==> (#[trigger] res1[i]).completion_timestamp
                == res1[i].request_timestamp || exists|j: int|
                0 <= j < res1.len() && (#[trigger] res1[j]).key == res1[i].key
                    && res1[j].request_timestamp <= res1[i].request_timestamp
                    && res1[j].completion_timestamp == res1[i].completion_timestamp
                    && res1[i].completion_timestamp == res1[j].request_timestamp + lat,
{
    let batch = completion_batch(key, ws, timestamp);
    let ri = res0.len() as int;
    assert(timestamp == ws[0] + lat);
    assert(now0 <= timestamp);
    assert(batch.len() == ws.len() && ws.len() >= 1);
    assert(forall|j: int| 0 <= j < res0.len() ==> res1[j] == res0[j]);
    assert forall|pp: int| 0 <= pp < batch.len() implies res1[ri + pp] == batch[pp] by {}
    assert(res1[ri].key == key && res1[ri].request_timestamp == ws[0]
        && res1[ri].completion_timestamp == timestamp);
    assert forall|k2: u64|
        #[trigger] cpost.residency().contains(k2) && !initial.contains(
        k2,
    ) implies exists|j: int|
        0 <= j < res1.len() && (#[trigger] res1[j]).key == k2
            && res1[j].completion_timestamp <= timestamp by {
        if k2 == key {
            assert(res1[ri].key == key && res1[ri].completion_timestamp
                <= timestamp);
        } else {
            assert(resid0.contains(k2));
            let j = choose|j: int|
                0 <= j < res0.len() && (#[trigger] res0[j]).key == k2
                    && res0[j].completion_timestamp <= now0;
            assert(res1[j].key == k2 && res1[j].completion_timestamp <= timestamp);
        }
    }
    if lat >= 1 {
        assert forall|i: int|
            0 <= i < res1.len() && (#[trigger] res1[i]).completion_timestamp
                == res1[i].request_timestamp && !initial.contains(
                res1[i].key,
            ) implies exists|j: int|
            0 <= j < res1.len() && j != i && (#[trigger] res1[j]).key
                == res1[i].key && res1[j].completion_timestamp
                <= res1[i].request_timestamp by {
            if i < res0.len() {
                let j = choose|j: int|
                    0 <= j < res0.len() && j != i && (#[trigger] res0[j]).key
                        == res0[i].key && res0[j].completion_timestamp
                        <= res0[i].request_timestamp;
                assert(res1[j].key == res1[i].key
                    && res1[j].completion_timestamp <= res1[i].request_timestamp);
            } else {
                let pp = i - ri;
                assert(res1[i] == batch[pp]);
                assert(res1[i].request_timestamp == ws[pp]);
                assert(ws[pp] == timestamp);
                assert(ws[0] < timestamp);
                assert(pp != 0);
                assert(ri != i);
                assert(res1[ri].key == res1[i].key
                    && res1[ri].completion_timestamp
                    <= res1[i].request_timestamp);
            }
        }
    }
    assert forall|i: int|
        0 <= i < res1.len() && (#[trigger] res1[i]).completion_timestamp
            != res1[i].request_timestamp implies exists|j: int|
        0 <= j < res1.len() && (#[trigger] res1[j]).key == res1[i].key
            && res1[j].request_timestamp <= res1[i].request_timestamp
            && res1[j].completion_timestamp == res1[i].completion_timestamp
            && res1[i].completion_timestamp == res1[j].request_timestamp
            + lat by {
        if i < res0.len() {
            let j = choose|j: int|
                0 <= j < res0.len() && (#[trigger] res0[j]).key == res0[i].key
                    && res0[j].request_timestamp <= res0[i].request_timestamp
                    && res0[j].completion_timestamp == res0[i].completion_timestamp
                    && res0[i].completion_timestamp == res0[j].request_timestamp
                    + lat;
            assert(res1[j].key == res1[i].key && res1[j].request_timestamp
                <= res1[i].request_timestamp && res1[j].completion_timestamp
                == res1[i].completion_timestamp && res1[i].completion_timestamp
                == res1[j].request_timestamp + lat);
        } else {
            let pp = i - ri;
            assert(res1[i] == batch[pp]);
            assert(ws[0] <= ws[pp]);
            assert(res1[ri].key == res1[i].key && res1[ri].request_timestamp
                <= res1[i].request_timestamp && res1[ri].completion_timestamp
                == res1[i].completion_timestamp && res1[i].completion_timestamp
                == res1[ri].request_timestamp + lat);
        }
    }

}

/// Process the completion of the fetch for `key` at `timestamp` (its queue
/// entry already removed from `future_completions`): the key, never resident
/// while its fetch was in flight, is admitted to the cache, and every
/// coalesced arrival completes now.
#[verifier::rlimit(100)]
fn handle_completion<C: Cache<()>>(
    cache: &mut C,
    requests_in_progress: &mut HashMapWithView<u64, Vec<TimeUnit>>,
    future_completions: &VecDeque<(RequestId, TimeUnit)>,
    results: &mut Vec<RequestResult>,
    key: RequestId,
    timestamp: TimeUnit,
    miss_latency: TimeUnit,
    Ghost(evs): Ghost<Seq<RequestEvent<RequestId>>>,
    Ghost(initial): Ghost<Set<RequestId>>,
    Ghost(idx0): Ghost<int>,
    Ghost(now0): Ghost<TimeUnit>,
)
    requires
        sim_inv(
            *old(cache),
            evs,
            initial,
            miss_latency,
            idx0,
            seq![(key, timestamp)] + future_completions@,
            old(requests_in_progress)@,
            old(results)@,
            now0,
        ),
        events_sorted(evs) && idx0 < evs.len() ==> timestamp <= evs[idx0].timestamp,
    ensures
        sim_inv(
            *final(cache),
            evs,
            initial,
            miss_latency,
            idx0,
            future_completions@,
            final(requests_in_progress)@,
            final(results)@,
            timestamp,
        ),
{
    let ghost sorted = events_sorted(evs);
    let ghost q0 = seq![(key, timestamp)] + future_completions@;
    let ghost m0 = requests_in_progress@;
    let ghost res0 = results@;
    let ghost resid0 = cache.residency();
    proof {
        assert(q0[0] == (key, timestamp));
        assert(q0.drop_first() =~= future_completions@);
        assert(!cache.residency().contains(key));
        assert(requests_in_progress@.dom().contains(key));
    }
    let pending_requests = requests_in_progress.remove(&key).unwrap();
    cache.write(key, (), timestamp);
    proof {
        assert forall|i: int|
            0 <= i < future_completions@.len() implies m0[(#[trigger] future_completions@[i]).0]@
            == requests_in_progress@[future_completions@[i].0]@ by {
            assert(future_completions@[i] == q0[i + 1]);
            assert(q0[i + 1].0 != key);
        }
        lemma_pending_congruence(future_completions@, m0, requests_in_progress@);
        assert(pending_pairs(q0, m0) == key_pairs(key, pending_requests@) + pending_pairs(
            future_completions@,
            requests_in_progress@,
        ));
        assert forall|k2: u64|
            #[trigger] requests_in_progress@.dom().contains(k2) implies exists|i: int|
            0 <= i < future_completions@.len() && (#[trigger] future_completions@[i]).0 == k2 by {
            let j = choose|j: int| 0 <= j < q0.len() && (#[trigger] q0[j]).0 == k2;
            assert(j >= 1);
            assert(future_completions@[j - 1] == q0[j]);
        }
    }
    let ghost qrest = future_completions@;
    let ghost mrest = requests_in_progress@;
    let mut p: usize = 0;
    while p < pending_requests.len()
        invariant
            p <= pending_requests@.len(),
            results@ =~= res0 + Seq::new(
                p as nat,
                |i: int|
                    RequestResult {
                        key: key,
                        request_timestamp: pending_requests@[i],
                        completion_timestamp: timestamp,
                    },
            ),
        decreases pending_requests@.len() - p,
    {
        let wt = pending_requests[p];
        results.push(RequestResult { key, request_timestamp: wt, completion_timestamp: timestamp });
        proof {
            assert(results@ =~= res0 + Seq::new(
                (p + 1) as nat,
                |i: int|
                    RequestResult {
                        key: key,
                        request_timestamp: pending_requests@[i],
                        completion_timestamp: timestamp,
                    },
            ));
        }
        p += 1;
    }
    proof {
        let batch = Seq::new(
            pending_requests@.len(),
            |i: int|
                RequestResult {
                    key: key,
                    request_timestamp: pending_requests@[i],
                    completion_timestamp: timestamp,
                },
        );
        assert(results@ == res0 + batch);
        assert(result_pairs(results@) =~= result_pairs(res0) + key_pairs(key, pending_requests@));
        assert(result_pairs(results@) + pending_pairs(qrest, mrest) =~= result_pairs(res0) + (
        key_pairs(key, pending_requests@) + pending_pairs(qrest, mrest)));
        if sorted {
            assert(batch == completion_batch(key, pending_requests@, timestamp));
            lemma_completion_sorted(
                *cache,
                resid0,
                initial,
                miss_latency,
                key,
                timestamp,
                now0,
                pending_requests@,
                res0,
                results@,
            );
            let ws = pending_requests@;
            assert forall|i: int| 0 <= i < qrest.len() implies timestamp <= (
            #[trigger] qrest[i]).1 by {
                assert(qrest[i] == q0[i + 1]);
                assert(q0[0].1 <= q0[i + 1].1);
            }
            assert forall|i: int, j: int|
                0 <= i <= j < qrest.len() implies (#[trigger] qrest[i]).1 <= (
            #[trigger] qrest[j]).1 by {
                assert(qrest[i] == q0[i + 1] && qrest[j] == q0[j + 1]);
            }
            assert forall|i: int| 0 <= i < qrest.len() implies {
                let k = (#[trigger] qrest[i]).0;
                let c = qrest[i].1;
                let wsk = mrest[k]@;
                &&& c == wsk[0] + miss_latency
                &&& forall|p: int| 0 <= p < wsk.len() ==> (#[trigger] wsk[p]) <= c
                &&& forall|p: int| 0 <= p < wsk.len() ==> (#[trigger] wsk[p]) <= timestamp
                &&& forall|p: int, p2: int| 0 <= p <= p2 < wsk.len() ==> (#[trigger] wsk[p]) <= (
                #[trigger] wsk[p2])
            } by {
                assert(qrest[i] == q0[i + 1]);
                assert(q0[i + 1].0 != key);
                assert(mrest[qrest[i].0]@ == m0[q0[i + 1].0]@);
                assert(now0 <= timestamp);
            }
            assert forall|r: int, i: int|
                0 <= r < results@.len() && 0 <= i < qrest.len() && (#[trigger] results@[r]).key
                    == (#[trigger] qrest[i]).0 implies results@[r].completion_timestamp
                <= mrest[qrest[i].0]@[0] by {
                assert(qrest[i] == q0[i + 1]);
                assert(q0[i + 1].0 != key);
                assert(r < res0.len());
                assert(res0[r] == results@[r]);
                assert(m0[q0[i + 1].0]@ == mrest[qrest[i].0]@);
            }
        }
    }
}

/// Run the delay-aware simulation of `requests` against `cache`, with a
/// fixed fetch cost of `miss_latency` nanoseconds, and return one
/// `RequestResult` per request. A request whose key is resident completes at
/// its own arrival time; a request whose key has a fetch in flight coalesces
/// onto it; any other request starts a fetch that completes one miss latency
/// later, at which point the key is admitted to the cache and every
/// coalesced arrival completes. A key is never both resident and in flight.
pub fn run_simulation<C: Cache<()>>(
    cache: &mut C,
    requests: Vec<RequestEvent<RequestId>>,
    miss_latency: TimeUnit,
) -> (results: Vec<RequestResult>)
    requires
        old(cache).wf(),
        forall|i: int|
            0 <= i < requests@.len() ==> (#[trigger] requests@[i]).timestamp + miss_latency
                <= u64::MAX,
    ensures
        final(cache).wf(),
        simulation_postcondition(requests@, old(cache).residency(), miss_latency, results@),
{
    let ghost evs = requests@;
    let ghost initial = old(cache).residency();
    let mut requests_in_progress: HashMapWithView<u64, Vec<TimeUnit>> = HashMapWithView::new();
    let mut future_completions: VecDeque<(RequestId, TimeUnit)> = VecDeque::new();
    let mut results: Vec<RequestResult> = Vec::new();
    let mut last_request_timestamp: TimeUnit = 0;
    let mut next_idx: usize = 0;
    let ghost mut now: TimeUnit = 0;
    proof {
        broadcast use vstd::seq_lib::group_to_multiset_ensures;

        assert(result_pairs(results@) =~= Seq::<(RequestId, TimeUnit)>::empty());
        assert(pending_pairs(future_completions@, requests_in_progress@) == Seq::<
            (RequestId, TimeUnit),
        >::empty());
        assert(result_pairs(results@) + pending_pairs(future_completions@, requests_in_progress@)
            =~= Seq::<(RequestId, TimeUnit)>::empty());
        assert(effective_arrivals(evs).take(0) =~= Seq::<(RequestId, TimeUnit)>::empty());
    }
    loop
        invariant
            requests@ == evs,
            initial == old(cache).residency(),
            next_idx <= evs.len(),
            forall|i: int|
                0 <= i < evs.len() ==> (#[trigger] evs[i]).timestamp + miss_latency <= u64::MAX,
            last_request_timestamp == if next_idx == 0 {
                0
            } else {
                evs[next_idx - 1].timestamp
            },
            sim_inv(
                *cache,
                evs,
                initial,
                miss_latency,
                next_idx as int,
                future_completions@,
                requests_in_progress@,
                results@,
                now,
            ),
        ensures
            next_idx == evs.len(),
            future_completions@.len() == 0,
        decreases 2 * (evs.len() - next_idx) + future_completions@.len(),
    {
        let ghost q0 = future_completions@;
        let ghost idx0 = next_idx as int;
        let ghost now0 = now;
        let event = next_event(
            &requests,
            &mut next_idx,
            &mut future_completions,
            &mut last_request_timestamp,
        );
        match event {
            Event::End => {
                break ;
            },
            Event::Request(key, timestamp) => {
                proof {
                    assert(timestamp == evs[idx0].timestamp || (idx0 >= 1 && timestamp == evs[idx0
                        - 1].timestamp));
                }
                handle_arrival(
                    cache,
                    &mut requests_in_progress,
                    &mut future_completions,
                    &mut results,
                    key,
                    timestamp,
                    miss_latency,
                    Ghost(evs),
                    Ghost(initial),
                    Ghost(idx0),
                    Ghost(now0),
                );
                proof {
                    now = timestamp;
                }
            },
            Event::Completion(key, timestamp) => {
                proof {
                    assert(q0 =~= seq![(key, timestamp)] + future_completions@);
                }
                handle_completion(
                    cache,
                    &mut requests_in_progress,
                    &future_completions,
                    &mut results,
                    key,
                    timestamp,
                    miss_latency,
                    Ghost(evs),
                    Ghost(initial),
                    Ghost(idx0),
                    Ghost(now0),
                );
                proof {
                    now = timestamp;
                }
            },
        }
    }
    proof {
        broadcast use vstd::seq_lib::group_to_multiset_ensures;

        assert(pending_pairs(future_completions@, requests_in_progress@) == Seq::<
            (RequestId, TimeUnit),
        >::empty());
        assert(result_pairs(results@) + pending_pairs(future_completions@, requests_in_progress@)
            =~= result_pairs(results@));
        assert(effective_arrivals(evs).take(next_idx as int) =~= effective_arrivals(evs));
        assert(result_pairs(results@).to_multiset().len() == effective_arrivals(
            evs,
        ).to_multiset().len());
        assert(results@.len() == evs.len());
    }
    results
}


/// The `(request timestamp, latency)` pair of each result.
pub open spec fn latency_pairs(res: Seq<RequestResult>) -> Seq<(TimeUnit, TimeUnit)> {
    Seq::new(
        res.len(),
        |i: int|
            (
                res[i].request_timestamp,
                (res[i].completion_timestamp - res[i].request_timestamp) as TimeUnit,
            ),
    )
}

/// The sum of the latencies of all results.
pub open spec fn total_latency_of(res: Seq<RequestResult>) -> int
    decreases res.len(),
{
    if res.len() == 0 {
        0
    } else {
        total_latency_of(res.drop_last()) + res.last().completion_timestamp
            - res.last().request_timestamp
    }
}

/// Per-request latency aggregates of one simulation run.
pub struct Statistics {
    /// The sum of `completion - request` over all results, in nanoseconds.
    pub total_latency: u128,
    /// Each result's `(request timestamp, latency)`, sorted by request
    /// timestamp.
    pub latencies_by_timestamp_sorted: Vec<(TimeUnit, TimeUnit)>,
}

proof fn lemma_update_multiset(s: Seq<(TimeUnit, TimeUnit)>, i: int, x: (TimeUnit, TimeUnit))
    requires
        0 <= i < s.len(),
    ensures
        s.update(i, x).to_multiset() == s.to_multiset().remove(s[i]).insert(x),
{
    broadcast use {
        vstd::multiset::group_multiset_axioms,
        vstd::seq_lib::group_to_multiset_ensures,
    };

    let s2 = s.update(i, x);
    assert(s2.remove(i) =~= s.remove(i));
    assert(s2.remove(i).to_multiset() == s2.to_multiset().remove(s2[i]));
    assert(s.remove(i).to_multiset() == s.to_multiset().remove(s[i]));
    assert(s.to_multiset().contains(s[i]));
    assert(s2.to_multiset().contains(x));
    assert(s2.to_multiset() =~= s.to_multiset().remove(s[i]).insert(x));
}

proof fn lemma_swap_multiset(s: Seq<(TimeUnit, TimeUnit)>, i: int, j: int)
    requires
        0 <= i < s.len(),
        0 <= j < s.len(),
    ensures
        s.update(i, s[j]).update(j, s[i]).to_multiset() == s.to_multiset(),
{
    broadcast use {
        vstd::multiset::group_multiset_axioms,
        vstd::seq_lib::group_to_multiset_ensures,
    };

    if i == j {
        assert(s.update(i, s[j]).update(j, s[i]) =~= s);
    } else {
        lemma_update_multiset(s, i, s[j]);
        lemma_update_multiset(s.update(i, s[j]), j, s[i]);
        assert(s.update(i, s[j])[j] == s[j]);
        assert(s.contains(s[i]) && s.contains(s[j]));
        assert(s.to_multiset().count(s[i]) > 0 && s.to_multiset().count(s[j]) > 0);
        let m0 = s.to_multiset();
        let m1 = m0.remove(s[i]).insert(s[j]);
        let m2 = m1.remove(s[j]).insert(s[i]);
        assert(s.update(i, s[j]).update(j, s[i]).to_multiset() == m2);
        assert forall|x: (TimeUnit, TimeUnit)| m2.count(x) == m0.count(x) by {
            if x == s[i] {
            } else if x == s[j] {
            }
        }
        assert(m2 =~= m0);
    }
}

/// Sort `(timestamp, latency)` pairs by timestamp, keeping exactly the same
/// pairs.
fn sort_by_timestamp(v: &mut Vec<(TimeUnit, TimeUnit)>)
    ensures
        final(v)@.len() == old(v)@.len(),
        final(v)@.to_multiset() == old(v)@.to_multiset(),
        forall|a: int, b: int|
            0 <= a <= b < final(v)@.len() ==> (#[trigger] final(v)@[a]).0 <= (
            #[trigger] final(v)@[b]).0,
{
    let n = v.len();
    let mut i: usize = 0;
    while i < n
        invariant
            i <= n,
            v@.len() == n,
            v@.to_multiset() == old(v)@.to_multiset(),
            forall|a: int, b: int|
                0 <= a <= b < i ==> (#[trigger] v@[a]).0 <= (#[trigger] v@[b]).0,
            forall|a: int, b: int|
                0 <= a < i && i <= b < n ==> (#[trigger] v@[a]).0 <= (#[trigger] v@[b]).0,
        decreases n - i,
    {
        let mut m: usize = i;
        let mut j: usize = i + 1;
        while j < n
            invariant
                i <= m < j <= n,
                v@.len() == n,
                forall|b: int| i <= b < j ==> (#[trigger] v@[b]).0 >= v@[m as int].0,
            decreases n - j,
        {
            if v[j].0 < v[m].0 {
                m = j;
            }
            j += 1;
        }
        let ghost v0 = v@;
        let a = v[i];
        let b = v[m];
        v[i] = b;
        v[m] = a;
        proof {
            assert(v@ =~= v0.update(i as int, v0[m as int]).update(m as int, v0[i as int]));
            lemma_swap_multiset(v0, i as int, m as int);
        }
        i += 1;
    }
}

/// Fold a result list into its latency statistics: the total latency, and
/// the `(request timestamp, latency)` pairs sorted by request timestamp.
pub fn compute_statistics(result: &Vec<RequestResult>) -> (r: Statistics)
    requires
        forall|i: int|
            0 <= i < result@.len() ==> (#[trigger] result@[i]).request_timestamp
                <= result@[i].completion_timestamp,
    ensures
        r.total_latency as int == total_latency_of(result@),
        r.latencies_by_timestamp_sorted@.len() == result@.len(),
        r.latencies_by_timestamp_sorted@.to_multiset() == latency_pairs(result@).to_multiset(),
        forall|a: int, b: int|
            0 <= a <= b < r.latencies_by_timestamp_sorted@.len() ==> (
            #[trigger] r.latencies_by_timestamp_sorted@[a]).0 <= (
            #[trigger] r.latencies_by_timestamp_sorted@[b]).0,
{
    let mut pairs: Vec<(TimeUnit, TimeUnit)> = Vec::new();
    let mut total: u128 = 0;
    let mut i: usize = 0;
    while i < result.len()
        invariant
            i <= result@.len(),
            forall|j: int|
                0 <= j < result@.len() ==> (#[trigger] result@[j]).request_timestamp
                    <= result@[j].completion_timestamp,
            pairs@ =~= latency_pairs(result@.take(i as int)),
            total as int == total_latency_of(result@.take(i as int)),
            total as int <= i * (u64::MAX as int),
        decreases result@.len() - i,
    {
        let r = result[i];
        pairs.push((r.request_timestamp, r.completion_timestamp - r.request_timestamp));
        proof {
            assert(result@.take(i + 1).drop_last() =~= result@.take(i as int));
            assert(result@.take(i + 1).last() == result@[i as int]);
            assert(pairs@ =~= latency_pairs(result@.take(i + 1)));
            assert((i + 1) * (u64::MAX as int) == i * (u64::MAX as int) + u64::MAX);
        }
        total = total + (r.completion_timestamp - r.request_timestamp) as u128;
        i += 1;
    }
    proof {
        assert(result@.take(result@.len() as int) =~= result@);
    }
    sort_by_timestamp(&mut pairs);
    Statistics { total_latency: total, latencies_by_timestamp_sorted: pairs }
}

/// On a sorted trace of pairwise distinct keys fed to an initially empty
/// cache, no request can hit or coalesce: every result completes exactly one
/// miss latency after its arrival.
pub proof fn lemma_distinct_keys_all_miss(
    evs: Seq<RequestEvent<RequestId>>,
    lat: TimeUnit,
    res: Seq<RequestResult>,
)
    requires
        simulation_postcondition(evs, Set::<RequestId>::empty(), lat, res),
        events_sorted(evs),
        lat >= 1,
        forall|i: int, j: int|
            0 <= i < j < res.len() ==> (#[trigger] res[i]).key != (#[trigger] res[j]).key,
    ensures
        forall|i: int|
            0 <= i < res.len() ==> (#[trigger] res[i]).completion_timestamp
                == res[i].request_timestamp + lat,
{
    assert forall|i: int|
        0 <= i < res.len() implies (#[trigger] res[i]).completion_timestamp
        == res[i].request_timestamp + lat by {
        if res[i].completion_timestamp == res[i].request_timestamp {
            let j = choose|j: int|
                0 <= j < res.len() && j != i && (#[trigger] res[j]).key == res[i].key
                    && res[j].completion_timestamp <= res[i].request_timestamp;
            assert(false);
        } else {
            let j = choose|j: int|
                0 <= j < res.len() && (#[trigger] res[j]).key == res[i].key
                    && res[j].request_timestamp <= res[i].request_timestamp
                    && res[j].completion_timestamp == res[i].completion_timestamp
                    && res[i].completion_timestamp == res[j].request_timestamp + lat;
            assert(j == i);
        }
    }
}

} // verus!



