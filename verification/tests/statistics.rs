use event_monitor::{
    summarize, variance_parts, Aggregator, BatchItem, EventKey, EventRecord, StatsError,
    StructKey,
};

fn key(name: &str) -> EventKey {
    EventKey::Struct(StructKey {
        module: "m".to_string(),
        name: name.to_string(),
        type_params: vec![],
    })
}

fn events(pkg: u8, n: usize) -> Vec<BatchItem> {
    let mut batch = Vec::new();
    for _ in 0..n {
        batch.push(BatchItem {
            index: 0,
            ident: vec![],
            record: EventRecord { address: vec![pkg], package_id: vec![pkg], type_: key("E") },
        });
    }
    batch
}

#[test]
fn mean_thirty_stddev_twenty() {
    // 10 events attribute to package A; 20 then 30 to package B, so the
    // final counts are {A: 10, B: 50}
    let mut agg = Aggregator::new();
    agg.ingest(&events(1, 10));
    agg.ingest(&events(2, 20));
    agg.ingest(&events(2, 30));
    assert_eq!(agg.packages.len(), 2);
    assert_eq!(agg.packages[0].count, 10);
    assert_eq!(agg.packages[1].count, 50);
    let s = summarize(&agg.packages).unwrap();
    assert_eq!(s.package_count, 2);
    assert_eq!(s.total_events, 60);
    assert_eq!(s.sum_squares, 100 + 2500);
    let mean = s.total_events as f64 / s.package_count as f64;
    assert_eq!(mean, 30.0);
    let (num, den) = variance_parts(&s);
    assert_eq!(num, 2 * 2600 - 3600);
    assert_eq!(den, 4);
    let stddev = (num as f64 / den as f64).sqrt();
    assert_eq!(stddev, 20.0);
}

#[test]
fn empty_package_table_is_reported_not_divided() {
    let packages = Vec::new();
    assert_eq!(summarize(&packages), Err(StatsError::EmptyPackageSet));
}

#[test]
fn single_package_has_zero_variance() {
    let mut agg = Aggregator::new();
    agg.ingest(&events(3, 7));
    let s = summarize(&agg.packages).unwrap();
    assert_eq!(s.package_count, 1);
    assert_eq!(s.total_events, 7);
    assert_eq!(s.sum_squares, 49);
    let (num, den) = variance_parts(&s);
    assert_eq!(num, 0);
    assert_eq!(den, 1);
}

#[test]
fn equal_counts_have_zero_variance() {
    let mut agg = Aggregator::new();
    agg.ingest(&events(1, 4));
    agg.ingest(&events(2, 4));
    agg.ingest(&events(3, 4));
    let s = summarize(&agg.packages).unwrap();
    let (num, _den) = variance_parts(&s);
    assert_eq!(num, 0);
}
