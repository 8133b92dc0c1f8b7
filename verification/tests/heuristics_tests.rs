use delayed_hits::RequestEvent;
use delayed_hits::cache::Cache;
use delayed_hits::cdn::CdnAction;
use delayed_hits::cdn::CdnEvent;
use delayed_hits::cdn::cdn_step;
use delayed_hits::cdn::new_in_flight_table;
use delayed_hits::heuristics::IrtStatistics;
use delayed_hits::heuristics::get_irt;
use delayed_hits::heuristics::maximum_active_objects;
use delayed_hits::lru::LRU;
use delayed_hits::parse::RawRequestWithTimestamp;
use delayed_hits::parse::TraceDuration;
use delayed_hits::parse::parse_time_unit;
use delayed_hits::parse::remap_requests;
use delayed_hits::simulator::RequestResult;

#[test]
fn test_maximum_active_objects() {
    let events = [
        (1, 1),
        (2, 2),
        (3, 3),
        (1, 4),
        (2, 5),
        (3, 6),
        (1, 7),
        (2, 8),
        (3, 9),
        (4, 10),
        (5, 11),
        (4, 12),
    ]
    .iter()
    .map(|(key, timestamp)| RequestEvent { key: *key, timestamp: *timestamp })
    .collect::<Vec<_>>();

    assert_eq!(maximum_active_objects(&events), 3);
}

#[test]
fn irt_buckets_total_and_count() {
    let events: Vec<RequestEvent<u64>> = [(1u64, 5u64), (2, 6), (3, 8), (1, 108), (2, 5108)]
        .iter()
        .map(|&(key, timestamp)| RequestEvent { key, timestamp })
        .collect();
    let irt = get_irt(&events);
    // gaps: 1, 2, 100, 5000
    assert_eq!(irt.count, 4);
    assert_eq!(irt.total, 5103);
    assert_eq!(irt.buckets, vec![2, 0, 1, 1, 0, 0, 0, 0, 0, 0]);
    let mut one = IrtStatistics::new();
    one.add(9_999_999_999);
    assert_eq!(one.buckets[9], 1);
}

#[test]
fn cdn_kernel_decides_like_the_simulator() {
    let mut cache = LRU::new(1);
    let mut in_flight = new_in_flight_table();
    let a = cdn_step(&mut cache, &mut in_flight, CdnEvent::Arrival(7, 0));
    assert_eq!(a, CdnAction::SendToOrigin(7));
    let a = cdn_step(&mut cache, &mut in_flight, CdnEvent::Arrival(7, 3));
    assert_eq!(a, CdnAction::Coalesced);
    let a = cdn_step(&mut cache, &mut in_flight, CdnEvent::Response(7, 10));
    assert_eq!(
        a,
        CdnAction::Complete(vec![
            RequestResult { key: 7, request_timestamp: 0, completion_timestamp: 10 },
            RequestResult { key: 7, request_timestamp: 3, completion_timestamp: 10 },
        ])
    );
    assert!(cache.contains(&7));
    let a = cdn_step(&mut cache, &mut in_flight, CdnEvent::Arrival(7, 12));
    assert_eq!(
        a,
        CdnAction::Hit(RequestResult { key: 7, request_timestamp: 12, completion_timestamp: 12 })
    );
}

#[test]
fn test_post_process_requests() {
    let requests: Vec<RawRequestWithTimestamp<u128>> = [
        (10u128, 1u64),
        (20, 2),
        (10, 3),
        (30, 4),
        (20, 6),
        (40, 5),
        (10, 7),
    ]
    .iter()
    .map(|&(k, t)| RawRequestWithTimestamp {
        request: k,
        timestamp: TraceDuration { secs: t, nanos: 0 },
    })
    .collect();

    let processed = remap_requests(&requests);
    let expected: Vec<RequestEvent<u64>> = [(0, 0), (1, 1), (0, 2), (2, 3), (1, 5), (0, 6)]
        .iter()
        .map(|&(k, t)| RequestEvent { key: k, timestamp: t * 1_000_000_000 })
        .collect();
    assert_eq!(processed, expected);
}

#[test]
fn time_units_scale_to_nanoseconds() {
    assert_eq!(parse_time_unit("300ns"), Some(300));
    assert_eq!(parse_time_unit("2us"), Some(2_000));
    assert_eq!(parse_time_unit("5ms"), Some(5_000_000));
    assert_eq!(parse_time_unit("1s"), Some(1_000_000_000));
    assert_eq!(parse_time_unit("42"), Some(42));
    assert_eq!(parse_time_unit("s"), None);
    assert_eq!(parse_time_unit("4x"), None);
    assert_eq!(parse_time_unit("99999999999999999999s"), None);
}
