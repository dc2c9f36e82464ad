use sokomind::log::collector::LogCollector;

#[derive(Debug)]
struct Entry {
    timestamp_ms: f64,
    message: String,
}

fn test_entry(msg: &str) -> Entry {
    Entry { timestamp_ms: 0.0, message: msg.into() }
}

#[test]
fn ring_buffer_eviction() {
    let mut collector = LogCollector::new(3);
    collector.push(test_entry("a"));
    collector.push(test_entry("b"));
    collector.push(test_entry("c"));
    collector.push(test_entry("d"));
    assert_eq!(collector.len(), 3);
    assert_eq!(collector.total_dropped(), 1);
    let entries = collector.drain();
    assert_eq!(entries[0].message, "b");
    assert_eq!(entries[2].message, "d");
    assert_eq!(entries[0].timestamp_ms, 0.0);
}

#[test]
fn drain_empties() {
    let mut collector = LogCollector::new(10);
    collector.push(test_entry("x"));
    let entries = collector.drain();
    assert_eq!(entries.len(), 1);
    assert!(collector.is_empty());
}

#[test]
fn collector_zero_capacity_keeps_latest() {
    let mut collector: LogCollector<u32> = LogCollector::new(0);
    collector.push(1);
    collector.push(2);
    assert_eq!(collector.len(), 1);
    assert_eq!(collector.total_dropped(), 2);
    assert_eq!(collector.drain(), vec![2]);
}

#[test]
fn collector_drain_keeps_drop_count() {
    let mut collector: LogCollector<u32> = LogCollector::new(2);
    for i in 0..5 {
        collector.push(i);
    }
    assert_eq!(collector.drain(), vec![3, 4]);
    assert_eq!(collector.total_dropped(), 3);
    assert!(collector.is_empty());
}
