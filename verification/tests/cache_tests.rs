use delayed_hits::RequestEvent;
use delayed_hits::cache::Cache;
use delayed_hits::cache::construct_k_way_cache;
use delayed_hits::cache::get_cache_idx;
use delayed_hits::cache::key_hash;
use delayed_hits::lru::LRU;
use delayed_hits::lru_mad::LRUMinAD;
use delayed_hits::simulator::RequestResult;
use delayed_hits::simulator::compute_statistics;
use delayed_hits::simulator::run_simulation;

#[test]
fn test_lru() {
    let mut lru = LRU::new(2);
    lru.write(1, (), 0);
    lru.write(2, (), 0);
    assert_eq!(lru.contains(&1), true);
    assert_eq!(lru.contains(&2), true);
    lru.write(3, (), 0);
    assert_eq!(lru.contains(&1), false);
    assert_eq!(lru.contains(&2), true);
    assert_eq!(lru.contains(&3), true);
    lru.write(2, (), 0);
    lru.write(4, (), 0);
    assert_eq!(lru.contains(&2), true);
    assert_eq!(lru.contains(&3), false);
    assert_eq!(lru.contains(&4), true);
}

#[test]
fn test_lru_cache_simulator() {
    let mut cache = LRU::new(2);
    let delay = 5;
    const A: u64 = 0;
    const B: u64 = 1;
    const C: u64 = 2;
    let requests: Vec<RequestEvent<u64>> = vec![
        (B, 0),
        (A, 1),
        (A, 4),
        (A, 5),
        (B, 7),
        (C, 8),
        (A, 9),
        (B, 14),
        (C, 15),
        (A, 19),
        (C, 20),
    ]
    .into_iter()
    .map(|(key, timestamp)| RequestEvent { key, timestamp })
    .collect();
    let mut results = run_simulation(&mut cache, requests, delay);
    results.sort_by_key(|r| r.request_timestamp);
    assert_eq!(
        results,
        [
            (B, 0, 5),
            (A, 1, 6),
            (A, 4, 6),
            (A, 5, 6),
            (B, 7, 7),
            (C, 8, 13),
            (A, 9, 9),
            (B, 14, 19),
            (C, 15, 15),
            (A, 19, 19),
            (C, 20, 25)
        ]
        .into_iter()
        .map(|(key, request_timestamp, completion_timestamp)| RequestResult {
            key,
            request_timestamp,
            completion_timestamp
        })
        .collect::<Vec<_>>()
    );
}

#[test]
fn coalescing_shares_one_fetch() {
    let mut cache = LRU::new(1);
    let requests: Vec<RequestEvent<u64>> = [(7u64, 0u64), (7, 3), (7, 7), (7, 11), (7, 22)]
        .iter()
        .map(|&(key, timestamp)| RequestEvent { key, timestamp })
        .collect();
    let mut results = run_simulation(&mut cache, requests, 10);
    results.sort_by_key(|r| (r.request_timestamp, r.completion_timestamp));
    let got: Vec<(u64, u64)> = results
        .iter()
        .map(|r| (r.request_timestamp, r.completion_timestamp))
        .collect();
    // arrivals at 0, 3 and 7 share the fetch completing at 10; once the key
    // is admitted, the later arrivals are plain hits
    assert_eq!(got, vec![(0, 10), (3, 10), (7, 10), (11, 11), (22, 22)]);
}

#[test]
fn distinct_keys_all_miss() {
    let mut cache = LRU::new(4);
    let requests: Vec<RequestEvent<u64>> = (0u64..8)
        .map(|i| RequestEvent { key: i, timestamp: i * 1000 })
        .collect();
    let results = run_simulation(&mut cache, requests, 5);
    assert_eq!(results.len(), 8);
    for r in &results {
        assert_eq!(r.completion_timestamp, r.request_timestamp + 5);
    }
}

#[test]
fn lru_mad_keeps_the_hot_object() {
    // Capacity 1: the frequently re-missed object accumulates delay credit
    // and keeps its place against a rarely seen one.
    let mut mad: LRUMinAD<()> = LRUMinAD::new(1, 10);
    let hot = 1u64;
    let cold = 2u64;
    for t in [0u64, 3, 6, 9] {
        let _ = mad.get(&hot, t);
    }
    mad.write(hot, (), 10);
    assert!(mad.contains(&hot));
    let _ = mad.get(&cold, 11);
    mad.write(cold, (), 21);
    // cold evicted hot (the store holds one key), but on the next round the
    // hot object's higher score keeps it resident once readmitted
    assert!(mad.contains(&cold));
    let _ = mad.get(&hot, 22);
    mad.write(hot, (), 32);
    assert!(mad.contains(&hot));
    assert!(!mad.contains(&cold));
}

#[test]
fn lru_mad_beats_lru_on_coalescing_trace() {
    // A trace with heavy coalescing on one key: the delay-aware policy's
    // total latency is no worse than plain recency eviction.
    let mk = |v: &[(u64, u64)]| -> Vec<RequestEvent<u64>> {
        v.iter()
            .map(|&(key, timestamp)| RequestEvent { key, timestamp })
            .collect()
    };
    let trace = vec![
        (1u64, 0u64),
        (2, 1),
        (1, 2),
        (3, 3),
        (1, 4),
        (2, 5),
        (1, 6),
        (3, 7),
        (1, 8),
        (2, 9),
        (1, 10),
        (3, 11),
        (1, 12),
        (2, 13),
        (1, 14),
    ];
    let mut lru = LRU::new(2);
    let lru_results = run_simulation(&mut lru, mk(&trace), 6);
    let mut mad: LRUMinAD<()> = LRUMinAD::new(2, 6);
    let mad_results = run_simulation(&mut mad, mk(&trace), 6);
    let lru_stats = compute_statistics(&lru_results);
    let mad_stats = compute_statistics(&mad_results);
    assert!(mad_stats.total_latency <= lru_stats.total_latency);
}

#[test]
fn sharding_routes_consistently() {
    let cache = construct_k_way_cache(4, |_i| LRU::new(1));
    let mut cache = cache;
    for key in 0u64..16 {
        let idx1 = get_cache_idx(4, &key);
        let idx2 = get_cache_idx(4, &key);
        assert_eq!(idx1, idx2);
        assert!(idx1 < 4);
        assert_eq!(idx1, (key_hash(key) as usize) % 4);
    }
    // shard isolation: writes through the dispatcher never exceed per-shard
    // capacity, and a key stays found right after its write
    for key in 0u64..16 {
        let _ = cache.get(&key, key);
        cache.write(key, (), key);
        assert!(cache.contains(&key));
    }
}

#[test]
fn hash_is_not_the_identity() {
    assert!(key_hash(0) != 0 || key_hash(1) != 1);
}

#[test]
fn statistics_sort_and_total() {
    let results = vec![
        RequestResult { key: 1, request_timestamp: 9, completion_timestamp: 14 },
        RequestResult { key: 2, request_timestamp: 3, completion_timestamp: 3 },
        RequestResult { key: 3, request_timestamp: 5, completion_timestamp: 15 },
    ];
    let stats = compute_statistics(&results);
    assert_eq!(stats.total_latency, 15);
    assert_eq!(
        stats.latencies_by_timestamp_sorted,
        vec![(3, 0), (5, 10), (9, 5)]
    );
}
