use event_monitor::{
    summarize, Aggregator, BatchItem, EventKey, EventRecord, StatsError, StructKey,
};

fn key(module: &str, name: &str) -> EventKey {
    EventKey::Struct(StructKey {
        module: module.to_string(),
        name: name.to_string(),
        type_params: vec![],
    })
}

fn item(addr: u8, pkg: u8, k: EventKey) -> BatchItem {
    BatchItem {
        index: 0,
        ident: vec![],
        record: EventRecord { address: vec![addr], package_id: vec![pkg], type_: k },
    }
}

#[test]
fn counts_by_address_type_and_package() {
    let mut agg = Aggregator::new();
    let batch = vec![
        item(1, 7, key("m", "A")),
        item(1, 7, key("m", "B")),
        item(2, 8, key("m", "A")),
        item(1, 7, key("m", "A")),
    ];
    agg.ingest(&batch);
    assert_eq!(agg.ingested, 4);
    assert_eq!(agg.buckets.len(), 2);
    // first-occurrence order of buckets
    assert_eq!(agg.buckets[0].address, vec![1]);
    assert_eq!(agg.buckets[0].total, 3);
    assert_eq!(agg.buckets[1].address, vec![2]);
    assert_eq!(agg.buckets[1].total, 1);
    // nested counts, first-occurrence order
    assert_eq!(agg.buckets[0].by_key.len(), 2);
    assert_eq!(agg.buckets[0].by_key[0].key, key("m", "A"));
    assert_eq!(agg.buckets[0].by_key[0].count, 2);
    assert_eq!(agg.buckets[0].by_key[1].key, key("m", "B"));
    assert_eq!(agg.buckets[0].by_key[1].count, 1);
    // packages
    assert_eq!(agg.packages.len(), 2);
    assert_eq!(agg.packages[0].package, vec![7]);
    assert_eq!(agg.packages[0].count, 3);
    assert_eq!(agg.packages[1].package, vec![8]);
    assert_eq!(agg.packages[1].count, 1);
}

#[test]
fn conservation_across_batches() {
    let mut agg = Aggregator::new();
    agg.ingest(&vec![item(1, 1, key("m", "A")), item(2, 1, key("m", "B"))]);
    agg.ingest(&vec![item(3, 2, key("m", "C"))]);
    agg.ingest(&vec![]);
    agg.ingest(&vec![item(1, 3, key("m", "A")), item(1, 1, key("m", "A"))]);
    let total: u64 = agg.buckets.iter().map(|b| b.total).sum();
    let by_pkg: u64 = agg.packages.iter().map(|p| p.count).sum();
    assert_eq!(agg.ingested, 5);
    assert_eq!(total, 5);
    assert_eq!(by_pkg, 5);
    for b in &agg.buckets {
        let nested: u64 = b.by_key.iter().map(|kc| kc.count).sum();
        assert_eq!(nested, b.total);
    }
}

#[test]
fn empty_input_gives_zero_buckets_and_empty_package_set() {
    let mut agg = Aggregator::new();
    agg.ingest(&vec![]);
    assert_eq!(agg.buckets.len(), 0);
    assert_eq!(agg.packages.len(), 0);
    assert_eq!(agg.ingested, 0);
    let r = summarize(&agg.packages);
    assert_eq!(r, Err(StatsError::EmptyPackageSet));
}

#[test]
fn batch_index_and_ident_do_not_matter() {
    let mut a = Aggregator::new();
    let mut b = Aggregator::new();
    a.ingest(&vec![BatchItem {
        index: 9,
        ident: vec![1, 2, 3],
        record: EventRecord { address: vec![1], package_id: vec![1], type_: key("m", "A") },
    }]);
    b.ingest(&vec![BatchItem {
        index: 0,
        ident: vec![],
        record: EventRecord { address: vec![1], package_id: vec![1], type_: key("m", "A") },
    }]);
    assert_eq!(a.buckets, b.buckets);
    assert_eq!(a.packages, b.packages);
}
