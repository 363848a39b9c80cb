use coruscant_subscriber::processor::DependencyProcessor;
use coruscant_subscriber::processor::FAILURE_STATE;
use coruscant_subscriber::processor::INITIAL_STATE;
use coruscant_subscriber::processor::SUCCESS_STATE;
use coruscant_subscriber::processor::TOTAL_SUBRECORD;
use coruscant_subscriber::record::NameSet;
use coruscant_subscriber::record::SpanRecord;
use coruscant_subscriber::record::ROOT_SPAN;
use std::time::Duration;
use std::time::Instant;

#[test]
fn new_record_is_open_without_children_or_failure() {
    let record = SpanRecord::new(7, "load");
    assert_eq!(record.id, 7);
    assert_eq!(record.name, "load");
    assert!(record.latest.is_none());
    assert!(!record.failing);
    assert_eq!(record.failing_subspans.len(), 0);
    assert!(record.elapsed() < Duration::from_secs(3600));
}

#[test]
fn sentinels_are_the_documented_words() {
    assert_eq!(ROOT_SPAN, "__ROOT_SPAN__");
    assert_eq!(INITIAL_STATE, "__INITIAL_STATE__");
    assert_eq!(SUCCESS_STATE, "__SUCCESS_STATE__");
    assert_eq!(FAILURE_STATE, "__FAILURE_STATE__");
    assert_eq!(TOTAL_SUBRECORD, "__TOTAL__");
}

#[test]
fn record_clone_is_a_snapshot() {
    let mut record = SpanRecord::new(7, "load");
    record.latest = Some(Box::new(SpanRecord::new(8, "parse")));
    record.failing_subspans.insert("parse".to_string());
    let copy = record.clone();
    record.failing = true;
    record.failing_subspans.insert("lex".to_string());
    record.latest = None;
    assert_eq!(copy.id, 7);
    assert_eq!(copy.name, "load");
    assert!(!copy.failing);
    assert_eq!(copy.latest.as_ref().unwrap().name, "parse");
    assert_eq!(copy.latest.as_ref().unwrap().id, 8);
    assert_eq!(copy.failing_subspans.len(), 1);
    assert!(copy.failing_subspans.contains("parse"));
    assert!(!copy.failing_subspans.contains("lex"));
}

#[test]
fn name_set_holds_each_name_once_in_order() {
    let mut names = NameSet::new();
    assert_eq!(names.join(", "), "");
    names.insert("d".to_string());
    names.insert("b".to_string());
    names.insert("d".to_string());
    names.insert("c".to_string());
    names.insert("b".to_string());
    assert_eq!(names.len(), 3);
    assert_eq!(names.name_at(0), "b");
    assert_eq!(names.name_at(1), "c");
    assert_eq!(names.name_at(2), "d");
    assert!(names.contains("c"));
    assert!(!names.contains("a"));
    assert_eq!(names.join(", "), "b, c, d");
    let copy = names.clone();
    names.insert("a".to_string());
    assert_eq!(copy.join(", "), "b, c, d");
    assert_eq!(names.join(", "), "a, b, c, d");
}

#[test]
fn processor_records_the_first_span_from_the_initial_state() {
    let mut processor = DependencyProcessor::new();
    let parent = SpanRecord::new(1, "parent");
    let first = SpanRecord::new(2, "first");
    let second = SpanRecord::new(3, "second");
    processor.record_span(&first, &parent);
    processor.record_span_follows(&second, &first, &parent);
    processor.record_span_follows(&first, &first, &parent);
    processor.record_transition("parent", "first", "second");
    let markov = processor.summarize().make_span_markov();
    assert_eq!(markov.len(), 1);
    let table = markov.get("parent").unwrap();
    assert_eq!(table.get(INITIAL_STATE).unwrap().get("first"), Some(&(1, 1)));
    assert_eq!(table.get("first").unwrap().get("second"), Some(&(2, 3)));
    assert_eq!(table.get("first").unwrap().get("first"), Some(&(1, 3)));
    assert_eq!(processor.summarize().make_fail_bernoulli().len(), 0);
}

#[test]
fn processor_observes_an_outcome_under_signature_and_total() {
    let mut processor = DependencyProcessor::default();
    let mut span = SpanRecord::new(1, "span");
    let child = SpanRecord::new(2, "child");
    processor.record_span_succeeds(&span);
    processor.record_span_fails(&span);
    span.failing_subspans.insert("y".to_string());
    span.failing_subspans.insert("x".to_string());
    processor.record_span_fails_from(&child, &span);
    processor.record_span_fails_from(&child, &span);
    processor.record_span_succeeds_from(&child, &span);
    let summary = processor.summarize();
    let bernoulli = summary.make_fail_bernoulli();
    let rates = bernoulli.get("span").unwrap();
    assert_eq!(rates.len(), 3);
    assert_eq!(rates.key_at(0), "");
    assert_eq!(rates.key_at(1), TOTAL_SUBRECORD);
    assert_eq!(rates.key_at(2), "x, y");
    assert_eq!(rates.get(""), Some(&(1, 2)));
    assert_eq!(rates.get("x, y"), Some(&(2, 3)));
    assert_eq!(rates.get(TOTAL_SUBRECORD), Some(&(3, 5)));
    let markov = summary.make_span_markov();
    let table = markov.get("span").unwrap();
    assert_eq!(table.get(INITIAL_STATE).unwrap().get(SUCCESS_STATE), Some(&(1, 2)));
    assert_eq!(table.get(INITIAL_STATE).unwrap().get(FAILURE_STATE), Some(&(1, 2)));
    assert_eq!(table.get("child").unwrap().get(FAILURE_STATE), Some(&(2, 3)));
    assert_eq!(table.get("child").unwrap().get(SUCCESS_STATE), Some(&(1, 3)));
}

#[test]
fn summary_taken_twice_is_the_same_document() {
    let mut processor = DependencyProcessor::new();
    let mut span = SpanRecord::new(1, "span");
    let child = SpanRecord::new(2, "child");
    processor.record_span(&child, &span);
    processor.record_span_succeeds(&child);
    span.failing_subspans.insert("child".to_string());
    processor.record_span_fails_from(&child, &span);
    let first = processor.summarize();
    let second = processor.summarize();
    let a = first.make_span_markov();
    let b = second.make_span_markov();
    assert_eq!(a.len(), b.len());
    for i in 0..a.len() {
        assert_eq!(a.key_at(i), b.key_at(i));
        let (a1, b1) = (a.value_at(i), b.value_at(i));
        assert_eq!(a1.len(), b1.len());
        for j in 0..a1.len() {
            assert_eq!(a1.key_at(j), b1.key_at(j));
            let (a2, b2) = (a1.value_at(j), b1.value_at(j));
            assert_eq!(a2.len(), b2.len());
            for k in 0..a2.len() {
                assert_eq!(a2.key_at(k), b2.key_at(k));
                assert_eq!(a2.value_at(k), b2.value_at(k));
            }
        }
    }
    let c = first.make_fail_bernoulli();
    let d = second.make_fail_bernoulli();
    assert_eq!(c.len(), d.len());
    for i in 0..c.len() {
        assert_eq!(c.key_at(i), d.key_at(i));
        let (c1, d1) = (c.value_at(i), d.value_at(i));
        assert_eq!(c1.len(), d1.len());
        for j in 0..c1.len() {
            assert_eq!(c1.key_at(j), d1.key_at(j));
            assert_eq!(c1.value_at(j), d1.value_at(j));
        }
    }
}

#[test]
fn record_keeps_the_clock_reading_it_was_made_at() {
    let reading = Instant::now();
    let record = SpanRecord::at(9, "read", reading);
    assert_eq!(record.creation_time, reading);
    assert_eq!(record.id, 9);
    assert_eq!(record.name, "read");
    assert!(record.latest.is_none());
    assert!(!record.failing);
    assert_eq!(record.failing_subspans.len(), 0);

    let before = Instant::now();
    let made_now = SpanRecord::new(10, "write");
    let after = Instant::now();
    assert!(before <= made_now.creation_time);
    assert!(made_now.creation_time <= after);
}

#[test]
fn record_clone_keeps_the_creation_time() {
    let reading = Instant::now();
    let child_reading = reading + Duration::from_millis(5);
    let mut record = SpanRecord::at(1, "outer", reading);
    record.latest = Some(Box::new(SpanRecord::at(2, "inner", child_reading)));
    let copy = record.clone();
    assert_eq!(copy.creation_time, reading);
    assert_eq!(copy.latest.as_ref().unwrap().creation_time, child_reading);
    assert_eq!(copy.latest.as_ref().unwrap().id, 2);
}

#[test]
fn name_set_joins_with_a_separator_of_three_characters() {
    let mut names = NameSet::new();
    names.insert("b".to_string());
    names.insert("a".to_string());
    assert_eq!(names.join(" + "), "a + b");
    assert_eq!(names.join("\u{1f600}\u{1f600}\u{1f600}"), "a\u{1f600}\u{1f600}\u{1f600}b");
}
