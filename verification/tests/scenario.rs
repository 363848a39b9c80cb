use coruscant_subscriber::dependency::DependencyLayer;
use coruscant_subscriber::processor::FAILURE_STATE;
use coruscant_subscriber::processor::INITIAL_STATE;
use coruscant_subscriber::processor::SUCCESS_STATE;
use coruscant_subscriber::processor::TOTAL_SUBRECORD;
use coruscant_subscriber::record::ROOT_SPAN;

#[test]
fn root_with_one_good_and_one_failing_child() {
    let mut layer = DependencyLayer::construct();
    layer.on_new_span(10, "A", None, None);
    layer.on_new_span(11, "B", None, Some(10));
    layer.on_close(11, Some(10));
    layer.on_new_span(12, "C", None, Some(10));
    layer.on_event(true, None, Some(12));
    layer.on_close(12, Some(10));
    layer.on_close(10, None);

    let summary = layer.processor().summarize();
    let markov = summary.make_span_markov();
    let under_a = markov.get("A").unwrap();
    assert_eq!(under_a.len(), 3);
    let from_initial = under_a.get(INITIAL_STATE).unwrap();
    assert_eq!(from_initial.len(), 1);
    assert_eq!(from_initial.get("B"), Some(&(1, 1)));
    let from_b = under_a.get("B").unwrap();
    assert_eq!(from_b.len(), 1);
    assert_eq!(from_b.get("C"), Some(&(1, 1)));
    let from_c = under_a.get("C").unwrap();
    assert_eq!(from_c.get(SUCCESS_STATE), Some(&(1, 1)));
    assert_eq!(from_c.get(FAILURE_STATE), None);

    let under_root = markov.get(ROOT_SPAN).unwrap();
    assert_eq!(under_root.get(INITIAL_STATE).unwrap().get("A"), Some(&(1, 1)));

    let under_b = markov.get("B").unwrap();
    assert_eq!(under_b.get(INITIAL_STATE).unwrap().get(SUCCESS_STATE), Some(&(1, 1)));
    let under_c = markov.get("C").unwrap();
    assert_eq!(under_c.get(INITIAL_STATE).unwrap().get(FAILURE_STATE), Some(&(1, 1)));

    let bernoulli = summary.make_fail_bernoulli();
    assert_eq!(bernoulli.get("B").unwrap().get(TOTAL_SUBRECORD), Some(&(0, 1)));
    assert_eq!(bernoulli.get("B").unwrap().get(""), Some(&(0, 1)));
    assert_eq!(bernoulli.get("C").unwrap().get(TOTAL_SUBRECORD), Some(&(1, 1)));
    assert_eq!(bernoulli.get("C").unwrap().get(""), Some(&(1, 1)));
    assert_eq!(bernoulli.get("A").unwrap().get("C"), Some(&(0, 1)));
    assert_eq!(bernoulli.get("A").unwrap().get(TOTAL_SUBRECORD), Some(&(0, 1)));
    assert_eq!(bernoulli.get("A").unwrap().get(""), None);
    assert!(!layer.is_open(10));
}
