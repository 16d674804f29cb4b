use ellmo::compare::{compare_results, EvalOutcome, SingleEvalScore};

fn score(hash: &str, value: i64) -> SingleEvalScore {
    SingleEvalScore { eval_hash: hash.as_bytes().to_vec(), score: value }
}

#[test]
fn pairing_ignores_one_sided_hashes() {
    let previous = vec![score("a", 1000)];
    let current = vec![score("b", 1000)];
    let (outcome, meaningful) = compare_results(&previous, &current);
    assert_eq!(outcome, EvalOutcome::Unknown);
    assert!(meaningful.is_empty());
}

#[test]
fn individual_significance_dominates() {
    let previous = vec![score("a", 1000), score("b", 1000)];
    let current = vec![score("a", 1500), score("b", 1500)];
    let (outcome, meaningful) = compare_results(&previous, &current);
    assert_eq!(outcome, EvalOutcome::Improvement);
    assert_eq!(meaningful.len(), 2);
    assert_eq!(meaningful[0].outcome, EvalOutcome::Improvement);
    assert_eq!(meaningful[1].outcome, EvalOutcome::Improvement);
}

#[test]
fn tie_at_significant_count_yields_unknown() {
    let previous = vec![score("a", 1000), score("b", 1000)];
    let current = vec![score("a", 1500), score("b", 500)];
    let (outcome, meaningful) = compare_results(&previous, &current);
    assert_eq!(outcome, EvalOutcome::Unknown);
    assert_eq!(meaningful.len(), 2);
    assert_eq!(meaningful[0].outcome, EvalOutcome::Improvement);
    assert_eq!(meaningful[1].outcome, EvalOutcome::Regression);
}

#[test]
fn consistency_path_improvement() {
    let mut previous = Vec::new();
    let mut current = Vec::new();
    let ids = ["a", "b", "c", "d", "e", "f", "g", "h", "i", "j"];
    for id in ids.iter() {
        previous.push(score(id, 1000));
        current.push(score(id, 1050));
    }
    let (outcome, meaningful) = compare_results(&previous, &current);
    assert_eq!(outcome, EvalOutcome::Improvement);
    assert!(meaningful.is_empty());
}

#[test]
fn consistency_path_regression() {
    let mut previous = Vec::new();
    let mut current = Vec::new();
    let ids = ["a", "b", "c", "d", "e", "f", "g", "h", "i", "j"];
    for id in ids.iter() {
        previous.push(score(id, 1000));
        current.push(score(id, 950));
    }
    let (outcome, meaningful) = compare_results(&previous, &current);
    assert_eq!(outcome, EvalOutcome::Regression);
    assert!(meaningful.is_empty());
}

#[test]
fn consistency_path_mixed_yields_unknown() {
    // mean +3.2%, sixty percent moved up: beyond the mean threshold but
    // under the seventy percent consistency bar on both sides
    let mut previous = Vec::new();
    let mut current = Vec::new();
    let up = ["a", "b", "c", "d", "e", "f"];
    let down = ["g", "h", "i", "j"];
    for id in up.iter() {
        previous.push(score(id, 1000));
        current.push(score(id, 1080));
    }
    for id in down.iter() {
        previous.push(score(id, 1000));
        current.push(score(id, 960));
    }
    let (outcome, meaningful) = compare_results(&previous, &current);
    assert_eq!(outcome, EvalOutcome::Unknown);
    assert!(meaningful.is_empty());
}

#[test]
fn below_both_thresholds_is_no_change() {
    let previous = vec![score("a", 1000), score("b", 1000), score("c", 1000)];
    let current = vec![score("a", 1005), score("b", 995), score("c", 1000)];
    let (outcome, meaningful) = compare_results(&previous, &current);
    assert_eq!(outcome, EvalOutcome::NoChange);
    assert!(meaningful.is_empty());
}

#[test]
fn mean_exactly_at_threshold_is_no_change() {
    let previous = vec![score("a", 1000)];
    let current = vec![score("a", 1010)];
    let (outcome, meaningful) = compare_results(&previous, &current);
    assert_eq!(outcome, EvalOutcome::NoChange);
    assert!(meaningful.is_empty());
}

#[test]
fn individual_exactly_at_threshold_is_not_significant() {
    // a ten percent change is not strictly above the individual threshold,
    // so the consistency tier decides instead
    let previous = vec![score("a", 1000)];
    let current = vec![score("a", 1100)];
    let (outcome, meaningful) = compare_results(&previous, &current);
    assert_eq!(outcome, EvalOutcome::Improvement);
    assert!(meaningful.is_empty());
}

#[test]
fn zero_previous_counts_as_full_scale_increase() {
    let previous = vec![score("a", 0)];
    let current = vec![score("a", 300)];
    let (outcome, meaningful) = compare_results(&previous, &current);
    assert_eq!(outcome, EvalOutcome::Improvement);
    assert_eq!(meaningful.len(), 1);
    assert_eq!(meaningful[0].previous_score, 0);
    assert_eq!(meaningful[0].current_score, 300);
    assert_eq!(meaningful[0].outcome, EvalOutcome::Improvement);
}

#[test]
fn zero_previous_negative_current_still_counts_as_increase() {
    let previous = vec![score("a", 0)];
    let current = vec![score("a", -300)];
    let (outcome, meaningful) = compare_results(&previous, &current);
    assert_eq!(outcome, EvalOutcome::Improvement);
    assert_eq!(meaningful.len(), 1);
}

#[test]
fn zero_to_zero_is_no_change() {
    let previous = vec![score("a", 0)];
    let current = vec![score("a", 0)];
    let (outcome, meaningful) = compare_results(&previous, &current);
    assert_eq!(outcome, EvalOutcome::NoChange);
    assert!(meaningful.is_empty());
}

#[test]
fn negative_base_uses_absolute_denominator() {
    let previous = vec![score("a", -1000)];
    let current = vec![score("a", -500)];
    let (outcome, meaningful) = compare_results(&previous, &current);
    assert_eq!(outcome, EvalOutcome::Improvement);
    assert_eq!(meaningful.len(), 1);
}

#[test]
fn duplicated_hash_is_never_paired() {
    let previous = vec![score("a", 1000), score("a", 2000)];
    let current = vec![score("a", 1500)];
    let (outcome, meaningful) = compare_results(&previous, &current);
    assert_eq!(outcome, EvalOutcome::Unknown);
    assert!(meaningful.is_empty());
}

#[test]
fn no_scores_at_all_is_unknown() {
    let previous: Vec<SingleEvalScore> = Vec::new();
    let current: Vec<SingleEvalScore> = Vec::new();
    let (outcome, meaningful) = compare_results(&previous, &current);
    assert_eq!(outcome, EvalOutcome::Unknown);
    assert!(meaningful.is_empty());
}

#[test]
fn meaningful_entries_follow_current_order() {
    let previous = vec![score("a", 1000), score("b", 1000)];
    let current = vec![score("b", 500), score("a", 1500)];
    let (outcome, meaningful) = compare_results(&previous, &current);
    assert_eq!(outcome, EvalOutcome::Unknown);
    assert_eq!(meaningful.len(), 2);
    assert_eq!(meaningful[0].eval_hash, b"b".to_vec());
    assert_eq!(meaningful[1].eval_hash, b"a".to_vec());
}
