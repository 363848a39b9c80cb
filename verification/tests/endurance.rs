use coruscant_subscriber::dependency::DependencyLayer;
use coruscant_subscriber::processor::INITIAL_STATE;
use coruscant_subscriber::processor::SUCCESS_STATE;
use coruscant_subscriber::processor::TOTAL_SUBRECORD;
use coruscant_subscriber::record::ROOT_SPAN;
use coruscant_subscriber::table::Table;

#[test]
fn registry_outlives_many_spans_that_come_and_go() {
    let mut layer = DependencyLayer::construct();
    let spans: u64 = 20_000;
    for id in 10..10 + spans {
        let report = layer.on_new_span(id, "work", None, None);
        assert!(!report.duplicate_id);
        assert!(layer.is_open(id));
        assert!(!layer.is_open(id + spans));
        assert!(layer.on_event(true, Some(id + spans), None).unknown_span);
        layer.on_follows_from(id, id + spans, None);
        let report = layer.on_close(id, None);
        assert!(!report.unknown_span);
        assert!(!layer.is_open(id));
        assert!(layer.on_close(id, None).unknown_span);
    }
    let summary = layer.processor().summarize();
    let markov = summary.make_span_markov();
    let root = markov.get(ROOT_SPAN).unwrap();
    assert_eq!(root.get(INITIAL_STATE).unwrap().get("work"), Some(&(1, 1)));
    let repeats = spans as usize - 1;
    assert_eq!(root.get("work").unwrap().get("work"), Some(&(repeats, repeats)));
    let work = markov.get("work").unwrap();
    let closes = spans as usize;
    assert_eq!(work.get(INITIAL_STATE).unwrap().get(SUCCESS_STATE), Some(&(closes, closes)));
    let bernoulli = summary.make_fail_bernoulli();
    assert_eq!(bernoulli.get("work").unwrap().get(TOTAL_SUBRECORD), Some(&(0, closes)));
}

#[test]
fn registry_holds_many_open_spans() {
    let mut layer = DependencyLayer::construct();
    for id in 1..=3_000u64 {
        layer.on_new_span(id, "open", None, None);
    }
    for id in 1..=3_000u64 {
        assert!(layer.is_open(id));
    }
    assert!(!layer.is_open(3_001));
    for id in (1..=3_000u64).rev() {
        assert!(!layer.on_close(id, Some(id - 1)).unknown_span);
    }
    for id in 1..=3_000u64 {
        assert!(!layer.is_open(id));
    }
}

#[test]
fn table_finds_every_one_of_many_keys() {
    let mut table: Table<usize> = Table::new();
    for i in 0..5_000usize {
        assert_eq!(table.find(&format!("key{}", i)), None);
        table.push_new(format!("key{}", i), i * 2);
    }
    assert_eq!(table.len(), 5_000);
    for i in 0..5_000usize {
        let at = table.find(&format!("key{}", i)).unwrap();
        assert_eq!(at, i);
        assert_eq!(*table.value_at(at), i * 2);
    }
    assert_eq!(table.find("key5000"), None);
}
