use eth1::block_cache::{block_height_at, BlockCache, Eth1Data, Eth1DataLookup, FetchError};

fn data(n: u8) -> Eth1Data {
    Eth1Data {
        deposit_root: [n; 32],
        deposit_count: n as u64,
        block_hash: [n.wrapping_add(100); 32],
    }
}

#[test]
fn height_saturates_at_genesis() {
    assert_eq!(block_height_at(10, 3), 7);
    assert_eq!(block_height_at(10, 10), 0);
    assert_eq!(block_height_at(3, 10), 0);
    assert_eq!(BlockCache::update_start(100, 4), 96);
}

#[test]
fn update_then_lookups_within_distance_are_cached() {
    let mut cache = BlockCache::new();
    let head = 100;
    let fetched: Vec<Result<Eth1Data, FetchError>> = (96..=100).map(|h| Ok(data(h as u8))).collect();
    assert_eq!(cache.update_cache(head, 4, &fetched), Ok(()));
    assert_eq!(cache.last_block(), 100);
    for k in 0..=4u64 {
        assert_eq!(
            cache.get_eth1_data(head, k),
            Eth1DataLookup::Cached(data((100 - k) as u8))
        );
    }
    assert_eq!(cache.get_eth1_data(head, 5), Eth1DataLookup::Fetch { height: 95 });
}

#[test]
fn uncached_lookup_fetches_once_then_hits() {
    let mut cache = BlockCache::new();
    let lookup = cache.get_eth1_data(50, 8);
    assert_eq!(lookup, Eth1DataLookup::Fetch { height: 42 });
    assert_eq!(cache.complete_fetch(42, Ok(data(42))), Ok(data(42)));
    assert_eq!(cache.get_eth1_data(50, 8), Eth1DataLookup::Cached(data(42)));
    assert_eq!(cache.get_eth1_data(51, 9), Eth1DataLookup::Cached(data(42)));
}

#[test]
fn failed_fetch_is_reported_and_not_cached() {
    let mut cache = BlockCache::new();
    assert_eq!(
        cache.complete_fetch(7, Err(FetchError::MissingBlock)),
        Err(FetchError::MissingBlock)
    );
    assert_eq!(cache.get_eth1_data(7, 0), Eth1DataLookup::Fetch { height: 7 });
    assert_eq!(
        cache.complete_fetch(7, Err(FetchError::RemoteUnavailable)),
        Err(FetchError::RemoteUnavailable)
    );
    assert_eq!(
        cache.complete_fetch(7, Err(FetchError::MalformedResponse)),
        Err(FetchError::MalformedResponse)
    );
}

#[test]
fn update_with_a_failure_commits_nothing() {
    let mut cache = BlockCache::new();
    let fetched = vec![
        Ok(data(1)),
        Err(FetchError::MalformedResponse),
        Ok(data(3)),
        Err(FetchError::RemoteUnavailable),
    ];
    assert_eq!(cache.update_cache(4, 3, &fetched), Err(FetchError::MalformedResponse));
    assert_eq!(cache.last_block(), 0);
    for h in 1..=4u64 {
        assert_eq!(cache.get_eth1_data(h, 0), Eth1DataLookup::Fetch { height: h });
    }
}

#[test]
fn cached_heights_are_written_once() {
    let mut cache = BlockCache::new();
    assert_eq!(cache.complete_fetch(9, Ok(data(1))), Ok(data(1)));
    assert_eq!(cache.complete_fetch(9, Ok(data(2))), Ok(data(1)));
    let fetched = vec![Ok(data(3)), Ok(data(4))];
    assert_eq!(cache.update_cache(10, 1, &fetched), Ok(()));
    assert_eq!(cache.get_eth1_data(10, 1), Eth1DataLookup::Cached(data(1)));
    assert_eq!(cache.get_eth1_data(10, 0), Eth1DataLookup::Cached(data(4)));
}

#[test]
fn update_near_genesis_starts_at_zero() {
    let mut cache = BlockCache::new();
    let fetched = vec![Ok(data(0)), Ok(data(1)), Ok(data(2))];
    assert_eq!(cache.update_cache(2, 10, &fetched), Ok(()));
    assert_eq!(cache.get_eth1_data(2, 10), Eth1DataLookup::Cached(data(0)));
    assert_eq!(cache.get_eth1_data(2, 1), Eth1DataLookup::Cached(data(1)));
}

#[test]
fn watermark_is_the_head_of_the_last_update() {
    let mut cache = BlockCache::new();
    assert_eq!(cache.update_cache(20, 0, &vec![Ok(data(20))]), Ok(()));
    assert_eq!(cache.last_block(), 20);
    assert_eq!(cache.update_cache(15, 0, &vec![Ok(data(15))]), Ok(()));
    assert_eq!(cache.last_block(), 15);
    assert_eq!(cache.update_cache(16, 0, &vec![Err(FetchError::MissingBlock)]), Err(FetchError::MissingBlock));
    assert_eq!(cache.last_block(), 15);
}

#[test]
fn prune_drops_heights_beyond_the_retained_distance() {
    let mut cache = BlockCache::new();
    let fetched: Vec<Result<Eth1Data, FetchError>> = (90..=100).map(|h| Ok(data(h as u8))).collect();
    assert_eq!(cache.update_cache(100, 10, &fetched), Ok(()));
    assert_eq!(cache.complete_fetch(3, Ok(data(3))), Ok(data(3)));
    cache.prune(100, 5);
    assert_eq!(cache.last_block(), 100);
    for k in 0..=5u64 {
        assert_eq!(cache.get_eth1_data(100, k), Eth1DataLookup::Cached(data((100 - k) as u8)));
    }
    for k in 6..=10u64 {
        assert_eq!(cache.get_eth1_data(100, k), Eth1DataLookup::Fetch { height: 100 - k });
    }
    assert_eq!(cache.get_eth1_data(100, 97), Eth1DataLookup::Fetch { height: 3 });
    cache.prune(100, 200);
    assert_eq!(cache.get_eth1_data(100, 0), Eth1DataLookup::Cached(data(100)));
    cache.prune(101, 0);
    assert_eq!(cache.get_eth1_data(100, 0), Eth1DataLookup::Fetch { height: 100 });
}

#[test]
fn range_results_keep_only_successes_in_order() {
    let results = vec![
        Ok(data(1)),
        Err(FetchError::RemoteUnavailable),
        Ok(data(3)),
        Err(FetchError::MissingBlock),
        Ok(data(5)),
    ];
    assert_eq!(
        BlockCache::get_eth1_data_in_range(&results),
        vec![data(1), data(3), data(5)]
    );
    assert!(BlockCache::get_eth1_data_in_range(&Vec::new()).is_empty());
}
