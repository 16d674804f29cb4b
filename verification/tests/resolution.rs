use ellmo::compare::{EvalOutcome, SingleEvalScore};
use ellmo::eval::{
    get_base_prompt_version, get_or_create_eval_version, get_or_create_prompt_version,
    get_previous_eval_result, record_eval, EvalError, VersionedPrompt,
};
use ellmo::store::VersionStore;

fn prompt(name: &str, version: &str) -> VersionedPrompt {
    VersionedPrompt { name: name.as_bytes().to_vec(), version: version.as_bytes().to_vec() }
}

fn score(hash: &str, value: i64) -> SingleEvalScore {
    SingleEvalScore { eval_hash: hash.as_bytes().to_vec(), score: value }
}

#[test]
fn prompt_version_resolution_is_idempotent() {
    let mut store = VersionStore::new();
    let p = prompt("p", "1.0.0");
    let first = get_or_create_prompt_version(&mut store, &p);
    let second = get_or_create_prompt_version(&mut store, &p);
    assert_eq!(first.id, second.id);
    assert_eq!(store.prompt_versions.len(), 1);
}

#[test]
fn eval_resolution_is_idempotent() {
    let mut store = VersionStore::new();
    let p = prompt("p", "1.0.0");
    let pv = get_or_create_prompt_version(&mut store, &p);
    let name = b"my_eval".to_vec();
    let first = get_or_create_eval_version(&mut store, &name, &pv);
    let second = get_or_create_eval_version(&mut store, &name, &pv);
    assert_eq!(first.id, second.id);
    assert_eq!(store.evals.len(), 1);
}

#[test]
fn base_version_is_lexicographic_predecessor() {
    let mut store = VersionStore::new();
    get_or_create_prompt_version(&mut store, &prompt("p", "1.0.0"));
    get_or_create_prompt_version(&mut store, &prompt("p", "1.1.0"));
    get_or_create_prompt_version(&mut store, &prompt("p", "2.0.0"));
    let base = get_base_prompt_version(&store, &prompt("p", "2.0.0"), None).unwrap().unwrap();
    assert_eq!(base.version, b"1.1.0".to_vec());
}

#[test]
fn base_version_order_is_plain_string_order() {
    // under byte ordering "10.0.0" sorts below "2.0.0", so it is the
    // predecessor of "2.0.0"
    let mut store = VersionStore::new();
    get_or_create_prompt_version(&mut store, &prompt("p", "1.0.0"));
    get_or_create_prompt_version(&mut store, &prompt("p", "10.0.0"));
    let base = get_base_prompt_version(&store, &prompt("p", "2.0.0"), None).unwrap().unwrap();
    assert_eq!(base.version, b"10.0.0".to_vec());
}

#[test]
fn explicit_base_must_exist() {
    let store = VersionStore::new();
    let missing = b"9.9.9".to_vec();
    let r = get_base_prompt_version(&store, &prompt("p", "1.0.0"), Some(&missing));
    assert_eq!(r.unwrap_err(), EvalError::BaseVersionNotFound);
}

#[test]
fn no_base_is_not_an_error() {
    let store = VersionStore::new();
    let r = get_base_prompt_version(&store, &prompt("p", "1.0.0"), None).unwrap();
    assert!(r.is_none());
}

#[test]
fn record_eval_rejects_missing_fields() {
    let mut store = VersionStore::new();
    let scores = vec![score("a", 1000)];
    let name = b"e".to_vec();
    let r = record_eval(&mut store, None, Some(&prompt("p", "1.0.0")), &scores, None);
    assert_eq!(r.unwrap_err(), EvalError::MissingEval);
    let r = record_eval(&mut store, Some(&name), None, &scores, None);
    assert_eq!(r.unwrap_err(), EvalError::MissingPrompt);
    assert_eq!(store.prompt_versions.len(), 0);
}

#[test]
fn first_run_has_nothing_to_compare() {
    let mut store = VersionStore::new();
    let name = b"e".to_vec();
    let scores = vec![score("a", 1000)];
    let resp = record_eval(&mut store, Some(&name), Some(&prompt("p", "1.0.0")), &scores, None)
        .unwrap();
    assert_eq!(resp.outcome, EvalOutcome::NoChange);
    assert!(resp.previous_eval_scores.is_empty());
    assert!(resp.meaningful_eval_scores.is_empty());
    assert_eq!(store.eval_results.len(), 1);
}

#[test]
fn second_run_is_compared_against_base() {
    let mut store = VersionStore::new();
    let name = b"e".to_vec();
    let first_scores = vec![score("a", 1000)];
    record_eval(&mut store, Some(&name), Some(&prompt("p", "1.0.0")), &first_scores, None)
        .unwrap();
    let second_scores = vec![score("a", 1500)];
    let resp = record_eval(
        &mut store,
        Some(&name),
        Some(&prompt("p", "1.1.0")),
        &second_scores,
        None,
    )
    .unwrap();
    assert_eq!(resp.outcome, EvalOutcome::Improvement);
    assert_eq!(resp.previous_eval_scores.len(), 1);
    assert_eq!(resp.previous_eval_scores[0].eval_hash, b"a".to_vec());
    assert_eq!(resp.previous_eval_scores[0].score, 1000);
    assert_eq!(resp.meaningful_eval_scores.len(), 1);
    assert_eq!(store.eval_results.len(), 2);
}

#[test]
fn explicit_base_overrides_predecessor() {
    let mut store = VersionStore::new();
    let name = b"e".to_vec();
    record_eval(
        &mut store,
        Some(&name),
        Some(&prompt("p", "1.0.0")),
        &vec![score("a", 1000)],
        None,
    )
    .unwrap();
    record_eval(
        &mut store,
        Some(&name),
        Some(&prompt("p", "1.1.0")),
        &vec![score("a", 2000)],
        None,
    )
    .unwrap();
    let base = b"1.0.0".to_vec();
    let resp = record_eval(
        &mut store,
        Some(&name),
        Some(&prompt("p", "1.2.0")),
        &vec![score("a", 1400)],
        Some(&base),
    )
    .unwrap();
    // against 1.0.0's score of 1000 this is +40 percent, an improvement;
    // against the predecessor 1.1.0 it would have been a regression
    assert_eq!(resp.outcome, EvalOutcome::Improvement);
    assert_eq!(resp.previous_eval_scores[0].score, 1000);
}

#[test]
fn corrupt_stored_scores_surface_as_internal_error() {
    let mut store = VersionStore::new();
    let p = prompt("p", "1.0.0");
    let pv = get_or_create_prompt_version(&mut store, &p);
    let name = b"e".to_vec();
    let ev = get_or_create_eval_version(&mut store, &name, &pv);
    store.insert_eval_result(ev.id, b"not scores".to_vec(), 0);
    let r = record_eval(
        &mut store,
        Some(&name),
        Some(&prompt("p", "1.1.0")),
        &vec![score("a", 1000)],
        None,
    );
    assert_eq!(r.unwrap_err(), EvalError::CorruptPreviousScores);
    // the new result was still recorded before the comparison failed
    assert_eq!(store.eval_results.len(), 2);
}

#[test]
fn latest_result_breaks_timestamp_ties_by_insertion() {
    let mut store = VersionStore::new();
    let p = prompt("p", "1.0.0");
    let pv = get_or_create_prompt_version(&mut store, &p);
    let name = b"e".to_vec();
    let ev = get_or_create_eval_version(&mut store, &name, &pv);
    store.insert_eval_result(ev.id, b"first".to_vec(), 7);
    store.insert_eval_result(ev.id, b"second".to_vec(), 7);
    let row = get_previous_eval_result(&store, &prompt("p", "1.1.0"), None).unwrap().unwrap();
    assert_eq!(row.scores, b"second".to_vec());
}

#[test]
fn resolution_survives_failed_base_lookup() {
    let mut store = VersionStore::new();
    let name = b"e".to_vec();
    let missing = b"9.9.9".to_vec();
    let r = record_eval(
        &mut store,
        Some(&name),
        Some(&prompt("p", "1.0.0")),
        &vec![score("a", 1000)],
        Some(&missing),
    );
    assert_eq!(r.unwrap_err(), EvalError::BaseVersionNotFound);
    // the resolved rows remain, and no result row was written
    assert_eq!(store.prompt_versions.len(), 1);
    assert_eq!(store.evals.len(), 1);
    assert_eq!(store.eval_results.len(), 0);
}
