use coruscant_subscriber::dependency::Anomalies;
use coruscant_subscriber::dependency::DependencyLayer;
use coruscant_subscriber::processor::DependencyProcessor;
use coruscant_subscriber::processor::FAILURE_STATE;
use coruscant_subscriber::processor::INITIAL_STATE;
use coruscant_subscriber::processor::SUCCESS_STATE;
use coruscant_subscriber::processor::TOTAL_SUBRECORD;
use coruscant_subscriber::record::SpanRecord;
use coruscant_subscriber::record::ROOT_SPAN;
use std::time::Duration;
use std::time::Instant;

const CLEAN: Anomalies = Anomalies { parent_missing: false, duplicate_id: false, unknown_span: false };

fn share(layer: &DependencyLayer, context: &str, state: &str, next: &str) -> Option<(usize, usize)> {
    let markov = layer.processor().summarize().make_span_markov();
    markov.get(context)?.get(state)?.get(next).copied()
}

fn rate(layer: &DependencyLayer, name: &str, signature: &str) -> Option<(usize, usize)> {
    let bernoulli = layer.processor().summarize().make_fail_bernoulli();
    bernoulli.get(name)?.get(signature).copied()
}

fn count_entries(layer: &DependencyLayer) -> (usize, usize) {
    let summary = layer.processor().summarize();
    let markov = summary.make_span_markov();
    let mut transitions = 0;
    for i in 0..markov.len() {
        let states = markov.value_at(i);
        for j in 0..states.len() {
            let nexts = states.value_at(j);
            for k in 0..nexts.len() {
                transitions += nexts.value_at(k).0;
            }
        }
    }
    let bernoulli = summary.make_fail_bernoulli();
    let mut observations = 0;
    for i in 0..bernoulli.len() {
        let rates = bernoulli.value_at(i);
        for j in 0..rates.len() {
            observations += rates.value_at(j).1;
        }
    }
    (transitions, observations)
}

#[test]
fn fresh_layer_has_seen_nothing() {
    let layer = DependencyLayer::construct();
    assert_eq!(layer.root().name, ROOT_SPAN);
    assert_eq!(layer.root().id, 1);
    assert!(layer.root().latest.is_none());
    assert!(!layer.is_open(1));
    assert_eq!(count_entries(&layer), (0, 0));
}

#[test]
fn chain_of_siblings_has_certain_transitions() {
    let mut layer = DependencyLayer::construct();
    assert_eq!(layer.on_new_span(100, "parent", None, None), CLEAN);
    let names = ["s1", "s2", "s3", "s4"];
    for (i, name) in names.iter().enumerate() {
        let id = 200 + i as u64;
        assert_eq!(layer.on_new_span(id, name, None, Some(100)), CLEAN);
        assert!(layer.is_open(id));
        assert_eq!(layer.on_close(id, Some(100)), CLEAN);
        assert!(!layer.is_open(id));
    }
    assert_eq!(layer.on_close(100, None), CLEAN);
    assert_eq!(share(&layer, "parent", INITIAL_STATE, "s1"), Some((1, 1)));
    assert_eq!(share(&layer, "parent", "s1", "s2"), Some((1, 1)));
    assert_eq!(share(&layer, "parent", "s2", "s3"), Some((1, 1)));
    assert_eq!(share(&layer, "parent", "s3", "s4"), Some((1, 1)));
    assert_eq!(share(&layer, "parent", "s4", SUCCESS_STATE), Some((1, 1)));
    assert_eq!(share(&layer, "parent", "s4", FAILURE_STATE), None);
    let markov = layer.processor().summarize().make_span_markov();
    assert_eq!(markov.get("parent").unwrap().len(), 5);
    for i in 0..5 {
        assert_eq!(markov.get("parent").unwrap().value_at(i).len(), 1);
    }
}

#[test]
fn chain_under_a_failing_parent_ends_in_failure() {
    let mut layer = DependencyLayer::construct();
    layer.on_new_span(100, "parent", None, None);
    layer.on_event(true, None, Some(100));
    layer.on_new_span(201, "only", None, Some(100));
    layer.on_close(201, Some(100));
    layer.on_close(100, None);
    assert_eq!(share(&layer, "parent", INITIAL_STATE, "only"), Some((1, 1)));
    assert_eq!(share(&layer, "parent", "only", FAILURE_STATE), Some((1, 1)));
    assert_eq!(rate(&layer, "parent", TOTAL_SUBRECORD), Some((1, 1)));
    assert_eq!(rate(&layer, "parent", ""), Some((1, 1)));
    assert!(layer.root().failing_subspans.contains("parent"));
    assert_eq!(layer.root().failing_subspans.len(), 1);
}

#[test]
fn close_without_error_is_a_success_and_leaves_the_parent_alone() {
    let mut layer = DependencyLayer::construct();
    layer.on_new_span(1, "top", None, None);
    layer.on_close(1, None);
    assert_eq!(share(&layer, "top", INITIAL_STATE, SUCCESS_STATE), Some((1, 1)));
    assert_eq!(rate(&layer, "top", TOTAL_SUBRECORD), Some((0, 1)));
    assert_eq!(rate(&layer, "top", ""), Some((0, 1)));
    assert!(!layer.root().failing_subspans.contains("top"));
    assert_eq!(layer.root().failing_subspans.len(), 0);
    assert_eq!(layer.root().latest.as_ref().unwrap().name, "top");
}

#[test]
fn error_fired_many_times_names_the_span_once() {
    let mut layer = DependencyLayer::construct();
    layer.on_new_span(1, "top", None, None);
    assert_eq!(layer.on_event(true, None, Some(1)), CLEAN);
    assert_eq!(layer.on_event(true, Some(1), None), CLEAN);
    assert_eq!(layer.on_event(true, Some(1), Some(99)), CLEAN);
    layer.on_close(1, None);
    assert_eq!(layer.root().failing_subspans.len(), 1);
    assert_eq!(layer.root().failing_subspans.name_at(0), "top");
    assert_eq!(share(&layer, "top", INITIAL_STATE, FAILURE_STATE), Some((1, 1)));
    assert_eq!(rate(&layer, "top", TOTAL_SUBRECORD), Some((1, 1)));

    layer.on_new_span(2, "top", None, None);
    layer.on_event(true, None, Some(2));
    layer.on_close(2, None);
    assert_eq!(layer.root().failing_subspans.len(), 1);
    assert_eq!(rate(&layer, "top", TOTAL_SUBRECORD), Some((2, 2)));
}

#[test]
fn failing_children_make_the_signature_of_the_parent() {
    let mut layer = DependencyLayer::construct();
    layer.on_new_span(1, "parent", None, None);
    for (id, name) in [(2, "zeta"), (3, "alpha"), (4, "zeta")] {
        layer.on_new_span(id, name, None, Some(1));
        layer.on_event(true, None, Some(id));
        layer.on_close(id, Some(1));
    }
    layer.on_new_span(5, "good", None, Some(1));
    layer.on_close(5, Some(1));
    layer.on_close(1, None);
    assert_eq!(rate(&layer, "parent", "alpha, zeta"), Some((0, 1)));
    assert_eq!(rate(&layer, "parent", TOTAL_SUBRECORD), Some((0, 1)));
    assert_eq!(rate(&layer, "parent", ""), None);
    assert_eq!(rate(&layer, "zeta", TOTAL_SUBRECORD), Some((2, 2)));
    assert_eq!(rate(&layer, "good", TOTAL_SUBRECORD), Some((0, 1)));
    assert_eq!(layer.root().failing_subspans.len(), 0);
}

#[test]
fn event_below_error_level_changes_nothing() {
    let mut layer = DependencyLayer::construct();
    layer.on_new_span(1, "top", None, None);
    assert_eq!(layer.on_event(false, Some(1), Some(1)), CLEAN);
    assert_eq!(layer.on_event(false, Some(77), None), CLEAN);
    layer.on_close(1, None);
    assert_eq!(rate(&layer, "top", TOTAL_SUBRECORD), Some((0, 1)));
}

#[test]
fn error_with_no_span_to_charge_is_dropped() {
    let mut layer = DependencyLayer::construct();
    layer.on_new_span(1, "top", None, None);
    assert_eq!(layer.on_event(true, None, None), CLEAN);
    layer.on_close(1, None);
    assert_eq!(rate(&layer, "top", TOTAL_SUBRECORD), Some((0, 1)));
}

#[test]
fn error_on_unknown_span_is_reported() {
    let mut layer = DependencyLayer::construct();
    layer.on_new_span(1, "top", None, None);
    let report = layer.on_event(true, Some(42), Some(1));
    assert_eq!(report, Anomalies { parent_missing: false, duplicate_id: false, unknown_span: true });
    let report = layer.on_event(true, None, Some(43));
    assert!(report.unknown_span);
    layer.on_close(1, None);
    assert_eq!(rate(&layer, "top", TOTAL_SUBRECORD), Some((0, 1)));
}

#[test]
fn explicit_parent_goes_before_the_current_span() {
    let mut layer = DependencyLayer::construct();
    layer.on_new_span(1, "a", None, None);
    layer.on_new_span(2, "b", None, None);
    assert_eq!(layer.on_new_span(3, "c", Some(1), Some(2)), CLEAN);
    assert_eq!(share(&layer, "a", INITIAL_STATE, "c"), Some((1, 1)));
    assert_eq!(share(&layer, "b", INITIAL_STATE, "c"), None);
    assert_eq!(share(&layer, ROOT_SPAN, INITIAL_STATE, "a"), Some((1, 1)));
    assert_eq!(share(&layer, ROOT_SPAN, "a", "b"), Some((1, 1)));
}

#[test]
fn span_under_a_missing_parent_is_tracked_without_relation() {
    let mut layer = DependencyLayer::construct();
    let report = layer.on_new_span(3, "orphan", Some(9), None);
    assert_eq!(report, Anomalies { parent_missing: true, duplicate_id: false, unknown_span: false });
    assert!(layer.is_open(3));
    assert_eq!(count_entries(&layer), (0, 0));
    assert!(layer.root().latest.is_none());
    let report = layer.on_new_span(4, "orphan", None, Some(9));
    assert!(report.parent_missing);
    assert_eq!(count_entries(&layer), (0, 0));
}

#[test]
fn duplicate_id_overwrites_the_record() {
    let mut layer = DependencyLayer::construct();
    layer.on_new_span(1, "first", None, None);
    layer.on_event(true, None, Some(1));
    let report = layer.on_new_span(1, "second", None, None);
    assert_eq!(report, Anomalies { parent_missing: false, duplicate_id: true, unknown_span: false });
    assert_eq!(layer.on_close(1, None), CLEAN);
    assert_eq!(share(&layer, "second", INITIAL_STATE, SUCCESS_STATE), Some((1, 1)));
    assert_eq!(share(&layer, "first", INITIAL_STATE, FAILURE_STATE), None);
    assert_eq!(share(&layer, ROOT_SPAN, "first", "second"), Some((1, 1)));
    let report = layer.on_close(1, None);
    assert!(report.unknown_span);
}

#[test]
fn close_of_unknown_span_is_reported_and_ignored() {
    let mut layer = DependencyLayer::construct();
    let report = layer.on_close(5, None);
    assert_eq!(report, Anomalies { parent_missing: false, duplicate_id: false, unknown_span: true });
    let report = layer.on_close(5, Some(6));
    assert_eq!(report, Anomalies { parent_missing: false, duplicate_id: false, unknown_span: true });
    assert_eq!(count_entries(&layer), (0, 0));
}

#[test]
fn close_under_a_missing_parent_still_observes_the_outcome() {
    let mut layer = DependencyLayer::construct();
    layer.on_new_span(1, "top", None, None);
    layer.on_event(true, None, Some(1));
    let report = layer.on_close(1, Some(8));
    assert_eq!(report, Anomalies { parent_missing: true, duplicate_id: false, unknown_span: false });
    assert_eq!(share(&layer, "top", INITIAL_STATE, FAILURE_STATE), Some((1, 1)));
    assert_eq!(rate(&layer, "top", TOTAL_SUBRECORD), Some((1, 1)));
    assert_eq!(layer.root().failing_subspans.len(), 0);
    layer.on_new_span(2, "self", None, None);
    let report = layer.on_close(2, Some(2));
    assert!(report.parent_missing);
    assert_eq!(rate(&layer, "self", TOTAL_SUBRECORD), Some((0, 1)));
}

#[test]
fn follows_from_records_a_transition_in_the_current_context() {
    let mut layer = DependencyLayer::construct();
    layer.on_new_span(1, "ctx", None, None);
    layer.on_new_span(2, "before", None, Some(1));
    layer.on_new_span(3, "after", None, Some(1));
    layer.on_follows_from(3, 2, Some(1));
    assert_eq!(share(&layer, "ctx", "before", "after"), Some((2, 2)));
    layer.on_follows_from(3, 2, None);
    assert_eq!(share(&layer, ROOT_SPAN, "before", "after"), Some((1, 1)));
    layer.on_follows_from(2, 3, Some(55));
    assert_eq!(share(&layer, ROOT_SPAN, "after", "before"), Some((1, 1)));
    layer.on_follows_from(2, 2, Some(1));
    assert_eq!(share(&layer, "ctx", "before", "before"), Some((1, 3)));
}

#[test]
fn follows_from_of_a_closed_span_changes_nothing() {
    let mut layer = DependencyLayer::construct();
    layer.on_new_span(1, "ctx", None, None);
    layer.on_new_span(2, "gone", None, Some(1));
    layer.on_new_span(3, "here", None, Some(1));
    layer.on_close(2, Some(1));
    let before = count_entries(&layer);
    layer.on_follows_from(3, 2, Some(1));
    layer.on_follows_from(2, 3, Some(1));
    layer.on_follows_from(2, 2, None);
    layer.on_follows_from(40, 41, None);
    assert_eq!(count_entries(&layer), before);
    assert_eq!(share(&layer, "ctx", "gone", "here"), Some((1, 1)));
    assert_eq!(share(&layer, "ctx", "here", "gone"), None);
    assert_eq!(share(&layer, ROOT_SPAN, "here", "gone"), None);
    assert!(layer.is_open(3));
    assert!(!layer.is_open(2));
}

#[test]
fn chain_at_the_top_level_shows_in_the_root_context() {
    let mut layer = DependencyLayer::construct();
    let names = ["t1", "t2", "t3"];
    for (i, name) in names.iter().enumerate() {
        let id = 50 + i as u64;
        assert_eq!(layer.on_new_span(id, name, None, None), CLEAN);
        assert_eq!(layer.on_close(id, None), CLEAN);
    }
    assert_eq!(share(&layer, ROOT_SPAN, INITIAL_STATE, "t1"), Some((1, 1)));
    assert_eq!(share(&layer, ROOT_SPAN, "t1", "t2"), Some((1, 1)));
    assert_eq!(share(&layer, ROOT_SPAN, "t2", "t3"), Some((1, 1)));
    let markov = layer.processor().summarize().make_span_markov();
    assert!(markov.get(ROOT_SPAN).unwrap().get("t3").is_none());
    assert_eq!(markov.get(ROOT_SPAN).unwrap().len(), 3);
    assert_eq!(layer.root().latest.as_ref().unwrap().name, "t3");
}

#[test]
fn shares_of_every_state_add_up_to_its_visits() {
    let mut layer = DependencyLayer::construct();
    let names = ["a", "b", "a", "c", "b", "a", "a", "d"];
    layer.on_new_span(1, "ctx", None, None);
    for (i, name) in names.iter().enumerate() {
        let id = 100 + i as u64;
        layer.on_new_span(id, name, None, Some(1));
        if i % 3 == 0 {
            layer.on_event(true, None, Some(id));
        }
        layer.on_close(id, Some(1));
    }
    layer.on_close(1, None);
    let markov = layer.processor().summarize().make_span_markov();
    let mut states_seen = 0;
    for i in 0..markov.len() {
        let states = markov.value_at(i);
        for j in 0..states.len() {
            let nexts = states.value_at(j);
            let visits = nexts.value_at(0).1;
            let mut sum = 0;
            for k in 0..nexts.len() {
                let (count, of) = *nexts.value_at(k);
                assert_eq!(of, visits);
                assert!(0 < count && count <= visits);
                sum += count;
            }
            assert_eq!(sum, visits);
            states_seen += 1;
        }
    }
    assert!(states_seen >= 6);
    assert_eq!(share(&layer, "ctx", "a", "b"), Some((1, 4)));
    assert_eq!(share(&layer, "ctx", "a", "a"), Some((1, 4)));
    assert_eq!(share(&layer, "ctx", "a", "c"), Some((1, 4)));
    assert_eq!(share(&layer, "ctx", "a", "d"), Some((1, 4)));
    assert_eq!(share(&layer, "a", INITIAL_STATE, FAILURE_STATE), Some((2, 4)));
    assert_eq!(rate(&layer, "a", TOTAL_SUBRECORD), Some((2, 4)));
    assert_eq!(rate(&layer, "ctx", "a, c"), Some((0, 1)));
}

#[test]
fn latest_is_a_copy_of_the_record_of_the_child() {
    let start = Instant::now();
    let mut layer = DependencyLayer::construct_at(start);
    assert_eq!(layer.root().creation_time, start);
    let first = start + Duration::from_millis(3);
    let second = start + Duration::from_millis(7);
    assert_eq!(layer.on_new_span_at(21, "first", first, None, None), CLEAN);
    {
        let latest = layer.root().latest.as_ref().unwrap();
        assert_eq!(latest.id, 21);
        assert_eq!(latest.name, "first");
        assert_eq!(latest.creation_time, first);
        assert!(!latest.failing);
        assert!(latest.latest.is_none());
        assert_eq!(latest.failing_subspans.len(), 0);
    }
    layer.on_event(true, None, Some(21));
    assert!(!layer.root().latest.as_ref().unwrap().failing);
    assert_eq!(layer.on_new_span_at(22, "second", second, None, None), CLEAN);
    let latest = layer.root().latest.as_ref().unwrap();
    assert_eq!(latest.id, 22);
    assert_eq!(latest.creation_time, second);
    assert_eq!(share(&layer, ROOT_SPAN, "first", "second"), Some((1, 1)));
}

#[test]
fn span_opened_now_keeps_a_reading_of_the_clock() {
    let before = Instant::now();
    let mut layer = DependencyLayer::construct();
    layer.on_new_span(5, "now", None, None);
    let after = Instant::now();
    assert!(before <= layer.root().creation_time);
    let latest = layer.root().latest.as_ref().unwrap();
    assert!(layer.root().creation_time <= latest.creation_time);
    assert!(latest.creation_time <= after);
    assert_eq!(latest.id, 5);
}

#[test]
fn stacking_and_closing_under_a_record_change_that_record() {
    let mut processor = DependencyProcessor::new();
    let mut parent = SpanRecord::new(1, "parent");
    let mut child = SpanRecord::new(2, "child");
    DependencyLayer::stacked_span(&mut processor, &child, &mut parent);
    assert_eq!(parent.latest.as_ref().unwrap().id, 2);
    assert_eq!(parent.latest.as_ref().unwrap().creation_time, child.creation_time);
    DependencyLayer::record_close_under(&mut processor, &child, &mut parent);
    assert_eq!(parent.failing_subspans.len(), 0);
    child.failing = true;
    DependencyLayer::record_close_under(&mut processor, &child, &mut parent);
    DependencyLayer::record_close_under(&mut processor, &child, &mut parent);
    assert_eq!(parent.failing_subspans.len(), 1);
    assert!(parent.failing_subspans.contains("child"));
    let summary = processor.summarize();
    let markov = summary.make_span_markov();
    assert_eq!(markov.get("parent").unwrap().get(INITIAL_STATE).unwrap().get("child"), Some(&(1, 1)));
    let of_child = markov.get("child").unwrap().get(INITIAL_STATE).unwrap();
    assert_eq!(of_child.get(SUCCESS_STATE), Some(&(1, 3)));
    assert_eq!(of_child.get(FAILURE_STATE), Some(&(2, 3)));
    assert_eq!(summary.make_fail_bernoulli().get("child").unwrap().get(TOTAL_SUBRECORD), Some(&(2, 3)));
}
