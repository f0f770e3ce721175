use ip_counter::counter::CounterEntry;
use ip_counter::counter::CounterStore;
use ip_counter::intercept::intercept;
use ip_counter::intercept::observe;
use ip_counter::report::report_of;
use ip_counter::report::sort_by_count_desc;
use ip_counter::report::u64_to_string;

fn record_n(store: &mut CounterStore, ip: &str, n: usize) {
    for _ in 0..n {
        store.record(ip.to_string());
    }
}

#[test]
fn sum_of_counts_equals_number_of_requests() {
    let mut store = CounterStore::new();
    record_n(&mut store, "10.0.0.1", 3);
    record_n(&mut store, "10.0.0.2", 2);
    record_n(&mut store, "10.0.0.3", 1);
    let snap = store.snapshot();
    let total: u64 = snap.iter().map(|e| e.count).sum();
    assert_eq!(total, 6);
    assert_eq!(store.total_recorded(), 6);
}

#[test]
fn each_ip_counted_exactly() {
    let mut store = CounterStore::new();
    record_n(&mut store, "10.0.0.1", 3);
    record_n(&mut store, "10.0.0.2", 2);
    record_n(&mut store, "10.0.0.1", 2);
    let snap = store.snapshot();
    assert_eq!(snap.len(), 2);
    let one = snap.iter().find(|e| e.ip == "10.0.0.1").unwrap();
    let two = snap.iter().find(|e| e.ip == "10.0.0.2").unwrap();
    assert_eq!(one.count, 5);
    assert_eq!(two.count, 2);
}

#[test]
fn unresolved_ip_recorded_nowhere() {
    let mut store = CounterStore::new();
    record_n(&mut store, "10.0.0.1", 2);
    let before = report_of(store.snapshot());
    let total_before = store.total_recorded();
    observe(&mut store, None);
    observe(&mut store, None);
    let after = report_of(store.snapshot());
    assert_eq!(before, after);
    assert_eq!(store.total_recorded(), total_before);
}

#[test]
fn interceptor_returns_response_unchanged() {
    let handler = |x: u64| x.wrapping_mul(2) + 1;
    let request: u64 = 21;
    let without = handler(request);

    let mut store = CounterStore::new();
    let with = intercept(&mut store, Some("10.0.0.1".to_string()), request, handler);
    assert_eq!(with, without);

    let with_none = intercept(&mut store, None, request, handler);
    assert_eq!(with_none, without);
}

#[test]
fn interceptor_records_resolved_ip_once() {
    let mut store = CounterStore::new();
    let _ = intercept(&mut store, Some("10.0.0.9".to_string()), "req".to_string(), |r: String| r.len());
    let snap = store.snapshot();
    assert_eq!(snap.len(), 1);
    assert_eq!(snap[0].ip, "10.0.0.9");
    assert_eq!(snap[0].count, 1);

    let _ = intercept(&mut store, None, "req".to_string(), |r: String| r.len());
    let snap2 = store.snapshot();
    assert_eq!(snap2.len(), 1);
    assert_eq!(snap2[0].count, 1);
}

#[test]
fn report_lines_non_increasing_ties_as_multiset() {
    let mut store = CounterStore::new();
    record_n(&mut store, "10.0.0.5", 5);
    record_n(&mut store, "10.0.0.2", 2);
    record_n(&mut store, "10.0.0.3", 2);
    let report = report_of(store.snapshot());
    let lines: Vec<&str> = report.lines().collect();
    assert_eq!(lines[0], "IPs:");
    assert_eq!(lines.len(), 4);
    assert_eq!(lines[1], "\t10.0.0.5: 5");
    let mut tie_lines = vec![lines[2], lines[3]];
    tie_lines.sort();
    assert_eq!(tie_lines, vec!["\t10.0.0.2: 2", "\t10.0.0.3: 2"]);
    let counts: Vec<u64> = lines[1..]
        .iter()
        .map(|l| l.rsplit(": ").next().unwrap().parse().unwrap())
        .collect();
    assert!(counts.windows(2).all(|w| w[0] >= w[1]));
}

#[test]
fn two_cycles_over_unchanged_table_render_identically() {
    let mut store = CounterStore::new();
    record_n(&mut store, "10.0.0.1", 4);
    record_n(&mut store, "10.0.0.2", 4);
    record_n(&mut store, "10.0.0.3", 1);
    let first = report_of(store.snapshot());
    let second = report_of(store.snapshot());
    assert_eq!(first, second);
}

#[test]
fn three_from_one_ip_one_from_another() {
    let mut store = CounterStore::new();
    record_n(&mut store, "10.0.0.1", 3);
    record_n(&mut store, "10.0.0.2", 1);
    let report = report_of(store.snapshot());
    assert_eq!(report, "IPs:\n\t10.0.0.1: 3\n\t10.0.0.2: 1\n");
    let pos_one = report.find("10.0.0.1: 3").unwrap();
    let pos_two = report.find("10.0.0.2: 1").unwrap();
    assert!(pos_one < pos_two);
}

#[test]
fn thousand_requests_counted_exactly() {
    let mut store = CounterStore::new();
    record_n(&mut store, "10.0.0.1", 1000);
    let snap = store.snapshot();
    assert_eq!(snap.len(), 1);
    assert_eq!(snap[0].count, 1000);
    assert_eq!(report_of(snap), "IPs:\n\t10.0.0.1: 1000\n");
}

#[test]
fn empty_table_renders_header_only() {
    let store = CounterStore::new();
    assert_eq!(report_of(store.snapshot()), "IPs:\n");
}

#[test]
fn apply_events_batch_counts_in_order() {
    let mut store = CounterStore::new();
    store.apply_events(vec![
        "10.0.0.2".to_string(),
        "10.0.0.1".to_string(),
        "10.0.0.2".to_string(),
    ]);
    assert_eq!(store.total_recorded(), 3);
    let report = report_of(store.snapshot());
    assert_eq!(report, "IPs:\n\t10.0.0.2: 2\n\t10.0.0.1: 1\n");
}

#[test]
fn sort_is_stable_for_equal_counts() {
    let entries = vec![
        CounterEntry { ip: "a".to_string(), count: 2 },
        CounterEntry { ip: "b".to_string(), count: 5 },
        CounterEntry { ip: "c".to_string(), count: 2 },
    ];
    let sorted = sort_by_count_desc(entries);
    let order: Vec<(&str, u64)> = sorted.iter().map(|e| (e.ip.as_str(), e.count)).collect();
    assert_eq!(order, vec![("b", 5), ("a", 2), ("c", 2)]);
}

#[test]
fn decimal_rendering_exact() {
    assert_eq!(u64_to_string(0), "0");
    assert_eq!(u64_to_string(7), "7");
    assert_eq!(u64_to_string(10), "10");
    assert_eq!(u64_to_string(105), "105");
    assert_eq!(u64_to_string(1000), "1000");
    assert_eq!(u64_to_string(u64::MAX), "18446744073709551615");
}
