//! The decision kernel of the networked CDN node. The runtime around it owns
//! the sockets, the channels and the clock; under one lock it hands each
//! event to `cdn_step`, which keeps the cache and the in-flight table and
//! says what to do: serve a resident key at once, send the first miss of a
//! key to the origin, coalesce a repeated miss onto the outstanding fetch,
//! and on a response admit the key and complete every waiting arrival.
use vstd::prelude::*;

use crate::RequestId;
use crate::TimeUnit;
use crate::cache::Cache;
use crate::simulator::RequestResult;
use vstd::hash_map::HashMapWithView;

verus! {

broadcast use vstd::std_specs::hash::group_hash_axioms;

/// One thing that happens at the CDN node: a client request arrives, or the
/// origin's response for a key is received, each at a local timestamp.
#[derive(Debug, Eq, PartialEq, Clone, Copy, Structural)]
pub enum CdnEvent {
    Arrival(RequestId, TimeUnit),
    Response(RequestId, TimeUnit),
}

/// What the runtime must do next: serve the request instantly, send the
/// key's first miss to the origin, nothing (the arrival joined an
/// outstanding fetch), or record the completed results of a drained fetch.
#[derive(Debug, Eq, PartialEq, Clone)]
pub enum CdnAction {
    Hit(RequestResult),
    SendToOrigin(RequestId),
    Coalesced,
    Complete(Vec<RequestResult>),
}

/// The kernel's invariant over the shared state: the cache is well-formed,
/// every in-flight key has at least one waiting arrival, and every in-flight
/// key may be written once its response arrives.
pub open spec fn cdn_wf<C: Cache<()>>(
    cache: C,
    in_flight: Map<u64, Vec<TimeUnit>>,
) -> bool {
    &&& cache.wf()
    &&& forall|k: u64| #[trigger] in_flight.dom().contains(k) ==> in_flight[k]@.len() >= 1
    &&& forall|k: u64| #[trigger] in_flight.dom().contains(k) ==> cache.may_write(k)
}

/// An empty in-flight table for the runtime to start from.
pub fn new_in_flight_table() -> (r: HashMapWithView<u64, Vec<TimeUnit>>)
    ensures
        r@ == Map::<u64, Vec<TimeUnit>>::empty(),
{
    HashMapWithView::new()
}

/// Process one event against the shared `{cache, in_flight}` state.
///
/// An arrival of a resident key completes instantly; an arrival of an absent
/// key joins its key's waiter list, and the first such arrival sends the key
/// to the origin. A response admits the key and completes every waiter at
/// the response time. A response for a key with no outstanding fetch is the
/// runtime's error and is excluded here.
pub fn cdn_step<C: Cache<()>>(
    cache: &mut C,
    in_flight: &mut HashMapWithView<u64, Vec<TimeUnit>>,
    ev: CdnEvent,
) -> (a: CdnAction)
    requires
        cdn_wf(*old(cache), old(in_flight)@),
        ev matches CdnEvent::Response(k, t) ==> old(in_flight)@.dom().contains(k),
    ensures
        cdn_wf(*final(cache), final(in_flight)@),
        match ev {
            CdnEvent::Arrival(k, t) => {
                &&& final(cache).residency() == old(cache).residency()
                &&& if old(cache).residency().contains(k) {
                    a == CdnAction::Hit(
                        RequestResult { key: k, request_timestamp: t, completion_timestamp: t },
                    ) && final(in_flight)@ == old(in_flight)@
                } else {
                    &&& final(in_flight)@.dom() =~= old(in_flight)@.dom().insert(k)
                    &&& final(in_flight)@[k]@ == if old(in_flight)@.dom().contains(k) {
                        old(in_flight)@[k]@.push(t)
                    } else {
                        seq![t]
                    }
                    &&& forall|k2: u64|
                        #[trigger] old(in_flight)@.dom().contains(k2) && k2 != k
                            ==> final(in_flight)@[k2] == old(in_flight)@[k2]
                    &&& a == if old(in_flight)@.dom().contains(k) {
                        CdnAction::Coalesced
                    } else {
                        CdnAction::SendToOrigin(k)
                    }
                }
            },
            CdnEvent::Response(k, t) => {
                &&& final(cache).residency().contains(k)
                &&& final(cache).residency().subset_of(old(cache).residency().insert(k))
                &&& final(in_flight)@ == old(in_flight)@.remove(k)
                &&& (a matches CdnAction::Complete(res) && res@.len() == old(in_flight)@[k]@.len()
                    && forall|p: int|
                    0 <= p < res@.len() ==> (#[trigger] res@[p]) == (RequestResult {
                        key: k,
                        request_timestamp: old(in_flight)@[k]@[p],
                        completion_timestamp: t,
                    }))
            },
        },
{
    match ev {
        CdnEvent::Arrival(k, t) => {
            let hit = cache.get(&k, t).is_some();
            if hit {
                CdnAction::Hit(
                    RequestResult { key: k, request_timestamp: t, completion_timestamp: t },
                )
            } else if in_flight.contains_key(&k) {
                let mut w = in_flight.remove(&k).unwrap();
                w.push(t);
                in_flight.insert(k, w);
                proof {
                    assert(final(in_flight)@.dom() =~= old(in_flight)@.dom().insert(k));
                }
                CdnAction::Coalesced
            } else {
                let mut w: Vec<TimeUnit> = Vec::new();
                w.push(t);
                in_flight.insert(k, w);
                proof {
                    assert(w@ =~= seq![t]);
                    assert(final(in_flight)@.dom() =~= old(in_flight)@.dom().insert(k));
                }
                CdnAction::SendToOrigin(k)
            }
        },
        CdnEvent::Response(k, t) => {
            let waiters = in_flight.remove(&k).unwrap();
            cache.write(k, (), t);
            let mut res: Vec<RequestResult> = Vec::new();
            let mut p: usize = 0;
            while p < waiters.len()
                invariant
                    p <= waiters@.len(),
                    res@.len() == p,
                    forall|q: int|
                        0 <= q < p ==> (#[trigger] res@[q]) == (RequestResult {
                            key: k,
                            request_timestamp: waiters@[q],
                            completion_timestamp: t,
                        }),
                decreases waiters@.len() - p,
            {
                let w = waiters[p];
                res.push(RequestResult { key: k, request_timestamp: w, completion_timestamp: t });
                p += 1;
            }
            CdnAction::Complete(res)
        },
    }
}

} // verus!
