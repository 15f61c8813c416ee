use event_monitor::{
    finalize, suppression_cutoff, tag_to_short_string, Aggregator, BatchItem, EventKey,
    EventRecord, StructKey,
};

fn key(module: &str, name: &str) -> EventKey {
    EventKey::Struct(StructKey {
        module: module.to_string(),
        name: name.to_string(),
        type_params: vec![],
    })
}

fn item(addr: u8, pkg: u8, k: EventKey) -> BatchItem {
    BatchItem {
        index: 0,
        ident: vec![],
        record: EventRecord { address: vec![addr], package_id: vec![pkg], type_: k },
    }
}

fn fill(agg: &mut Aggregator, addr: u8, n: usize, name: &str) {
    let mut batch = Vec::new();
    for _ in 0..n {
        batch.push(item(addr, addr, key("m", name)));
    }
    agg.ingest(&batch);
}

#[test]
fn cutoff_for_thousand_events_at_half_percent_is_five() {
    // 1000 events, suppress 0.5% (500 thousandths of a percent)
    assert_eq!(suppression_cutoff(1000, 500), 5);
}

#[test]
fn cutoff_edge_values() {
    assert_eq!(suppression_cutoff(0, 500), 0);
    assert_eq!(suppression_cutoff(1000, 0), 0);
    // 4.995 rounds up
    assert_eq!(suppression_cutoff(999, 500), 5);
    // exactly .5 rounds away from zero
    assert_eq!(suppression_cutoff(100, 500), 1);
    // just under .5 rounds down
    assert_eq!(suppression_cutoff(99, 500), 0);
}

#[test]
fn buckets_below_cutoff_are_dropped_and_at_cutoff_kept() {
    let mut agg = Aggregator::new();
    fill(&mut agg, 1, 991, "A");
    fill(&mut agg, 2, 5, "B");
    fill(&mut agg, 3, 4, "C");
    assert_eq!(agg.ingested, 1000);
    let out = finalize(&agg, 500);
    // cutoff is 5: the bucket with 4 events disappears, the one with exactly
    // 5 survives
    assert_eq!(out.len(), 2);
    assert_eq!(out[0].address, vec![1]);
    assert_eq!(out[0].total, 991);
    assert_eq!(out[1].address, vec![2]);
    assert_eq!(out[1].total, 5);
}

#[test]
fn zero_suppression_keeps_everything() {
    let mut agg = Aggregator::new();
    fill(&mut agg, 1, 3, "A");
    fill(&mut agg, 2, 1, "B");
    let out = finalize(&agg, 0);
    assert_eq!(out.len(), 2);
}

#[test]
fn buckets_sorted_by_total_descending() {
    let mut agg = Aggregator::new();
    fill(&mut agg, 1, 2, "A");
    fill(&mut agg, 2, 7, "B");
    fill(&mut agg, 3, 4, "C");
    let out = finalize(&agg, 0);
    assert_eq!(out.len(), 3);
    assert_eq!(out[0].total, 7);
    assert_eq!(out[1].total, 4);
    assert_eq!(out[2].total, 2);
}

#[test]
fn equal_totals_break_ties_by_address_bytes() {
    let mut agg = Aggregator::new();
    // ingest in descending address order; the ranking must not keep it
    fill(&mut agg, 9, 3, "A");
    fill(&mut agg, 2, 3, "B");
    fill(&mut agg, 5, 3, "C");
    let out = finalize(&agg, 0);
    assert_eq!(out[0].address, vec![2]);
    assert_eq!(out[1].address, vec![5]);
    assert_eq!(out[2].address, vec![9]);
}

#[test]
fn nested_counts_sorted_by_count_then_rendering() {
    let mut agg = Aggregator::new();
    let batch = vec![
        item(1, 1, key("m", "Zed")),
        item(1, 1, key("m", "Alpha")),
        item(1, 1, key("m", "Alpha")),
        item(1, 1, key("m", "Beta")),
    ];
    agg.ingest(&batch);
    let out = finalize(&agg, 0);
    assert_eq!(out.len(), 1);
    let names: Vec<String> =
        out[0].by_key.iter().map(|kc| tag_to_short_string(&kc.key)).collect();
    // Alpha has two events and ranks first; Beta and Zed tie on count and
    // fall back to their renderings
    assert_eq!(names, vec!["m::Alpha", "m::Beta", "m::Zed"]);
    assert_eq!(out[0].by_key[0].count, 2);
    assert_eq!(out[0].by_key[1].count, 1);
    assert_eq!(out[0].by_key[2].count, 1);
}

#[test]
fn finalize_twice_gives_identical_output() {
    let mut agg = Aggregator::new();
    fill(&mut agg, 1, 6, "A");
    fill(&mut agg, 2, 2, "B");
    fill(&mut agg, 3, 2, "C");
    let first = finalize(&agg, 500);
    let second = finalize(&agg, 500);
    assert_eq!(first, second);
}

#[test]
fn two_runs_over_the_same_batches_agree() {
    let batches = vec![
        vec![item(4, 1, key("m", "A")), item(2, 2, key("m", "B"))],
        vec![item(4, 1, key("m", "A")), item(9, 3, key("n", "C"))],
        vec![item(2, 2, key("m", "B")), item(2, 2, key("m", "D"))],
    ];
    let mut a = Aggregator::new();
    let mut b = Aggregator::new();
    for batch in &batches {
        let copy: Vec<BatchItem> = batch
            .iter()
            .map(|it| BatchItem {
                index: it.index,
                ident: it.ident.clone(),
                record: EventRecord {
                    address: it.record.address.clone(),
                    package_id: it.record.package_id.clone(),
                    type_: it.record.type_.clone(),
                },
            })
            .collect();
        a.ingest(batch);
        b.ingest(&copy);
    }
    let ra = finalize(&a, 500);
    let rb = finalize(&b, 500);
    assert_eq!(ra, rb);
    let names_a: Vec<String> = ra
        .iter()
        .flat_map(|e| e.by_key.iter().map(|kc| tag_to_short_string(&kc.key)))
        .collect();
    let names_b: Vec<String> = rb
        .iter()
        .flat_map(|e| e.by_key.iter().map(|kc| tag_to_short_string(&kc.key)))
        .collect();
    assert_eq!(names_a, names_b);
}

#[test]
fn full_suppression_keeps_only_buckets_at_the_total() {
    let mut agg = Aggregator::new();
    fill(&mut agg, 1, 3, "A");
    fill(&mut agg, 2, 1, "B");
    // suppress = 100%: the cutoff equals the total, so no bucket reaches it
    let out = finalize(&agg, 100_000);
    assert_eq!(out.len(), 0);
    // with a single bucket the cutoff equals its own total and it survives
    let mut solo = Aggregator::new();
    fill(&mut solo, 1, 4, "A");
    let kept = finalize(&solo, 100_000);
    assert_eq!(kept.len(), 1);
    assert_eq!(kept[0].total, 4);
}
