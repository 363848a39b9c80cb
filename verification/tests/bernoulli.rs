use coruscant_subscriber::bernoulli::BernEstimator;
use coruscant_subscriber::bernoulli::CategoryBernEstimator;
use coruscant_subscriber::bernoulli::ManyCategoryBernEstimator;

#[test]
fn counter_shows_occurrences_among_observations() {
    let mut counter = BernEstimator::default();
    assert_eq!(counter.summarize(), (0, 0));
    counter.observe_absent();
    assert_eq!(counter.summarize(), (0, 1));
    counter.observe_present();
    counter.observe_present();
    assert_eq!(counter.summarize(), (2, 3));
    counter.observe_absent();
    assert_eq!(counter.summarize(), (2, 4));
}

#[test]
fn category_rate_is_k_of_n() {
    let mut estimator = CategoryBernEstimator::new();
    for i in 0..7 {
        if i % 3 == 0 {
            estimator.observe_present("load".to_string());
        } else {
            estimator.observe_absent("load".to_string());
        }
    }
    estimator.observe_present("store".to_string());
    let summary = estimator.summarize();
    assert_eq!(summary.len(), 2);
    assert_eq!(summary.get("load"), Some(&(3, 7)));
    assert_eq!(summary.get("store"), Some(&(1, 1)));
}

#[test]
fn category_never_observed_is_not_summarized() {
    let mut estimator = CategoryBernEstimator::new();
    estimator.observe_absent("seen".to_string());
    let summary = estimator.summarize();
    assert_eq!(summary.len(), 1);
    assert_eq!(summary.get("unseen"), None);
    assert_eq!(summary.get("seen"), Some(&(0, 1)));
    let nothing = CategoryBernEstimator::default().summarize();
    assert_eq!(nothing.len(), 0);
}

#[test]
fn category_summary_is_ordered_by_key() {
    let mut estimator = CategoryBernEstimator::new();
    estimator.observe_absent("m".to_string());
    estimator.observe_absent("z".to_string());
    estimator.observe_present("a".to_string());
    estimator.observe_present("m".to_string());
    let summary = estimator.summarize();
    assert_eq!(summary.len(), 3);
    assert_eq!(summary.key_at(0), "a");
    assert_eq!(summary.key_at(1), "m");
    assert_eq!(summary.key_at(2), "z");
    assert_eq!(*summary.value_at(0), (1, 1));
    assert_eq!(*summary.value_at(1), (1, 2));
    assert_eq!(*summary.value_at(2), (0, 1));
}

#[test]
fn category_clone_counts_on_its_own() {
    let mut estimator = CategoryBernEstimator::new();
    estimator.observe_present("a".to_string());
    let copy = estimator.clone();
    estimator.observe_absent("a".to_string());
    estimator.observe_absent("b".to_string());
    let of_copy = copy.summarize();
    assert_eq!(of_copy.len(), 1);
    assert_eq!(of_copy.get("a"), Some(&(1, 1)));
    let of_original = estimator.summarize();
    assert_eq!(of_original.get("a"), Some(&(1, 2)));
    assert_eq!(of_original.get("b"), Some(&(0, 1)));
}

#[test]
fn two_levels_count_each_inner_category_apart() {
    let mut estimator = ManyCategoryBernEstimator::new();
    estimator.observe_present("span".to_string(), "x".to_string());
    estimator.observe_absent("span".to_string(), "x".to_string());
    estimator.observe_absent("span".to_string(), "y".to_string());
    estimator.observe_present("other".to_string(), "x".to_string());
    let copy = estimator.clone();
    estimator.observe_present("other".to_string(), "x".to_string());
    let summary = copy.summarize();
    assert_eq!(summary.len(), 2);
    assert_eq!(summary.key_at(0), "other");
    assert_eq!(summary.key_at(1), "span");
    let span = summary.get("span").unwrap();
    assert_eq!(span.len(), 2);
    assert_eq!(span.get("x"), Some(&(1, 2)));
    assert_eq!(span.get("y"), Some(&(0, 1)));
    assert_eq!(summary.get("other").unwrap().get("x"), Some(&(1, 1)));
    assert!(summary.get("none").is_none());
    let later = estimator.summarize();
    assert_eq!(later.get("other").unwrap().get("x"), Some(&(2, 2)));
    let nothing = ManyCategoryBernEstimator::default().summarize();
    assert_eq!(nothing.len(), 0);
}
