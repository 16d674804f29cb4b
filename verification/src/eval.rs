//! Recording an evaluation run: resolving or creating the prompt version
//! and eval rows, finding the base run to compare against, persisting the
//! new scores, and classifying the run against the base.

use vstd::prelude::*;

use crate::clock;
use crate::compare::{
    compare_results, meaningful_correspond, spec_meaningful, spec_outcome, EvalOutcome,
    EvalRunScores, MeaningfulEvalScore,
};
use crate::json;
use crate::store::{Eval, EvalResult, PromptVersion, VersionStore};

verus! {

/// The prompt identity an incoming run names: a name and a version string.
#[derive(Debug)]
pub struct VersionedPrompt {
    pub name: Vec<u8>,
    pub version: Vec<u8>,
}

/// Why a record-eval request failed.
#[derive(Clone, Copy, Debug, PartialEq, Eq, Structural)]
pub enum EvalError {
    /// The request carried no eval.
    MissingEval,
    /// The request carried no prompt.
    MissingPrompt,
    /// An explicitly requested base version exists nowhere in the store.
    BaseVersionNotFound,
    /// The stored base run's scores could not be read back.
    CorruptPreviousScores,
}

/// What a recorded run answers: the classification, the base run's scores,
/// and the individually significant changes.
#[derive(Debug)]
pub struct RecordEvalResponse {
    pub outcome: EvalOutcome,
    pub previous_eval_scores: EvalRunScores,
    pub meaningful_eval_scores: Vec<MeaningfulEvalScore>,
}

/// Two prompt-version rows hold the same data.
pub open spec fn pv_rows_eq(a: PromptVersion, b: PromptVersion) -> bool {
    a.id == b.id && a.name@ == b.name@ && a.version@ == b.version@ && a.created_at == b.created_at
}

/// Two eval rows hold the same data.
pub open spec fn eval_rows_eq(a: Eval, b: Eval) -> bool {
    a.id == b.id && a.name@ == b.name@ && a.created_at == b.created_at && a.prompt_version_id
        == b.prompt_version_id
}

/// Two result rows hold the same data.
pub open spec fn result_rows_eq(a: EvalResult, b: EvalResult) -> bool {
    a.id == b.id && a.eval_id == b.eval_id && a.scores@ == b.scores@ && a.created_at == b.created_at
}

/// How resolving a prompt version relates the store before and after, and
/// the returned row: the first row carrying the version is reused and the
/// store is untouched; with none, exactly one new row is appended, carrying
/// the given name and version and a fresh id.
pub open spec fn resolve_pv_post(
    pre: VersionStore,
    post: VersionStore,
    name: Seq<u8>,
    version: Seq<u8>,
    row: PromptVersion,
) -> bool {
    if exists|i: int| pre.is_first_pv_with_version(i, version) {
        &&& post == pre
        &&& exists|i: int|
            #[trigger] pre.is_first_pv_with_version(i, version) && pv_rows_eq(
                row,
                pre.prompt_versions@[i],
            )
    } else {
        &&& post.prompt_versions@.len() == pre.prompt_versions@.len() + 1
        &&& post.prompt_versions@.take(pre.prompt_versions@.len() as int) == pre.prompt_versions@
        &&& pv_rows_eq(row, post.prompt_versions@.last())
        &&& row.id == pre.next_id
        &&& row.name@ == name
        &&& row.version@ == version
        &&& post.next_id == pre.next_id + 1
        &&& post.evals@ == pre.evals@
        &&& post.eval_results@ == pre.eval_results@
        &&& post.test_registrations@ == pre.test_registrations@
    }
}

/// How resolving an eval relates the store before and after, and the
/// returned row: the first eval named `name` owned by a prompt version
/// carrying `pv`'s version string is reused; with none, one new eval row
/// owned by `pv` is appended.
pub open spec fn resolve_eval_post(
    pre: VersionStore,
    post: VersionStore,
    name: Seq<u8>,
    pv: PromptVersion,
    row: Eval,
) -> bool {
    if exists|i: int| pre.is_first_eval_for(i, name, pv.version@) {
        &&& post == pre
        &&& exists|i: int|
            #[trigger] pre.is_first_eval_for(i, name, pv.version@) && eval_rows_eq(
                row,
                pre.evals@[i],
            )
    } else {
        &&& post.evals@.len() == pre.evals@.len() + 1
        &&& post.evals@.take(pre.evals@.len() as int) == pre.evals@
        &&& eval_rows_eq(row, post.evals@.last())
        &&& row.id == pre.next_id
        &&& row.name@ == name
        &&& row.prompt_version_id == pv.id
        &&& post.next_id == pre.next_id + 1
        &&& post.prompt_versions@ == pre.prompt_versions@
        &&& post.eval_results@ == pre.eval_results@
        &&& post.test_registrations@ == pre.test_registrations@
    }
}

/// Resolve the prompt version an incoming run names: reuse the first row
/// carrying its version string, else create one stamped by the clock.
pub fn get_or_create_prompt_version(store: &mut VersionStore, prompt: &VersionedPrompt) -> (r:
    PromptVersion)
    requires
        old(store).wf(),
        old(store).next_id < i32::MAX,
    ensures
        final(store).wf(),
        final(store).next_id <= old(store).next_id + 1,
        resolve_pv_post(*old(store), *final(store), prompt.name@, prompt.version@, r),
{
    match store.first_prompt_version_with_version(&prompt.version) {
        Some(i) => {
            let r = store.prompt_versions[i].duplicate();
            proof {
                assert(store.is_first_pv_with_version(i as int, prompt.version@) && pv_rows_eq(
                    r,
                    store.prompt_versions@[i as int],
                ));
            }
            r
        },
        None => {
            proof {
                if exists|i: int| store.is_first_pv_with_version(i, prompt.version@) {
                    let i = choose|i: int| store.is_first_pv_with_version(i, prompt.version@);
                    assert(store.prompt_versions@[i].version@ == prompt.version@);
                }
            }
            let created_at = clock::now_timestamp_millis();
            let idx = store.insert_prompt_version(&prompt.name, &prompt.version, created_at);
            let r = store.prompt_versions[idx].duplicate();
            proof {
                assert(final(store).prompt_versions@.take(old(store).prompt_versions@.len() as int)
                    =~= old(store).prompt_versions@);
            }
            r
        },
    }
}

/// Resolve the eval an incoming run names: reuse the first eval with the
/// given name owned by a prompt version carrying the resolved version
/// string, else create one owned by the resolved prompt version.
pub fn get_or_create_eval_version(
    store: &mut VersionStore,
    eval_name: &Vec<u8>,
    prompt_version: &PromptVersion,
) -> (r: Eval)
    requires
        old(store).wf(),
        old(store).next_id < i32::MAX,
    ensures
        final(store).wf(),
        final(store).next_id <= old(store).next_id + 1,
        resolve_eval_post(*old(store), *final(store), eval_name@, *prompt_version, r),
{
    match store.first_eval_for(eval_name, &prompt_version.version) {
        Some(i) => {
            let r = store.evals[i].duplicate();
            proof {
                assert(store.is_first_eval_for(i as int, eval_name@, prompt_version.version@)
                    && eval_rows_eq(r, store.evals@[i as int]));
            }
            r
        },
        None => {
            proof {
                if exists|i: int| store.is_first_eval_for(i, eval_name@, prompt_version.version@) {
                    let i = choose|i: int|
                        store.is_first_eval_for(i, eval_name@, prompt_version.version@);
                    assert(store.eval_matches(i, eval_name@, prompt_version.version@));
                }
            }
            let created_at = clock::now_timestamp_millis();
            let idx = store.insert_eval(eval_name, prompt_version.id, created_at);
            let r = store.evals[idx].duplicate();
            proof {
                assert(final(store).evals@.take(old(store).evals@.len() as int) =~= old(
                    store,
                ).evals@);
            }
            r
        },
    }
}

/// Which prompt-version row serves as the base of a comparison: the row an
/// explicit base version names, else the lexicographic predecessor of the
/// current version.
pub open spec fn base_sel(
    s: VersionStore,
    current: Seq<u8>,
    base: Option<Seq<u8>>,
    i: int,
) -> bool {
    match base {
        Some(bv) => s.is_first_pv_with_version(i, bv),
        None => s.is_base_below(i, current),
    }
}

/// The ghost form of the base-version argument.
pub open spec fn base_opt(base_version: Option<&Vec<u8>>) -> Option<Seq<u8>> {
    match base_version {
        Some(b) => Some(b@),
        None => None,
    }
}

/// Resolve the prompt version to compare against. An explicit base version
/// must exist: its absence is a caller error. Without one, the predecessor
/// under lexicographic version order serves, and its absence simply means
/// there is nothing to compare against.
pub fn get_base_prompt_version(
    store: &VersionStore,
    prompt: &VersionedPrompt,
    base_version: Option<&Vec<u8>>,
) -> (r: Result<Option<PromptVersion>, EvalError>)
    ensures
        match r {
            Ok(Some(row)) => exists|i: int|
                #[trigger] base_sel(*store, prompt.version@, base_opt(base_version), i)
                    && pv_rows_eq(row, store.prompt_versions@[i]),
            Ok(None) => base_version is None && store.no_base_below(prompt.version@),
            Err(e) => e == EvalError::BaseVersionNotFound && base_version is Some
                && store.no_pv_with_version(base_opt(base_version).unwrap()),
        },
{
    match base_version {
        Some(bv) => match store.first_prompt_version_with_version(bv) {
            Some(i) => {
                let row = store.prompt_versions[i].duplicate();
                proof {
                    assert(base_sel(*store, prompt.version@, base_opt(base_version), i as int)
                        && pv_rows_eq(row, store.prompt_versions@[i as int]));
                }
                Ok(Some(row))
            },
            None => Err(EvalError::BaseVersionNotFound),
        },
        None => match store.max_version_below(&prompt.version) {
            Some(i) => {
                let row = store.prompt_versions[i].duplicate();
                proof {
                    assert(base_sel(*store, prompt.version@, base_opt(base_version), i as int)
                        && pv_rows_eq(row, store.prompt_versions@[i as int]));
                }
                Ok(Some(row))
            },
            None => Ok(None),
        },
    }
}

/// Fetch the most recent result recorded under the base prompt version, if
/// a base exists and has any result.
pub fn get_previous_eval_result(
    store: &VersionStore,
    prompt: &VersionedPrompt,
    base_version: Option<&Vec<u8>>,
) -> (r: Result<Option<EvalResult>, EvalError>)
    requires
        store.wf(),
    ensures
        match r {
            Ok(Some(row)) => exists|i: int, ri: int|
                #[trigger] base_sel(*store, prompt.version@, base_opt(base_version), i)
                    && #[trigger] store.is_latest_result_for(ri, store.prompt_versions@[i].id)
                    && result_rows_eq(row, store.eval_results@[ri]),
            Ok(None) => (base_version is None && store.no_base_below(prompt.version@)) || exists|
                i: int,
            |
                #[trigger] base_sel(*store, prompt.version@, base_opt(base_version), i)
                    && store.no_result_for(store.prompt_versions@[i].id),
            Err(e) => e == EvalError::BaseVersionNotFound && base_version is Some
                && store.no_pv_with_version(base_opt(base_version).unwrap()),
        },
{
    let base = match get_base_prompt_version(store, prompt, base_version) {
        Ok(Some(row)) => row,
        Ok(None) => {
            return Ok(None);
        },
        Err(e) => {
            return Err(e);
        },
    };
    match store.latest_result_for_prompt_version(base.id) {
        Some(ri) => {
            let row = store.eval_results[ri].duplicate();
            proof {
                let i = choose|i: int|
                    #[trigger] base_sel(*store, prompt.version@, base_opt(base_version), i)
                        && pv_rows_eq(base, store.prompt_versions@[i]);
                assert(store.is_latest_result_for(ri as int, store.prompt_versions@[i].id));
            }
            Ok(Some(row))
        },
        None => {
            proof {
                let i = choose|i: int|
                    #[trigger] base_sel(*store, prompt.version@, base_opt(base_version), i)
                        && pv_rows_eq(base, store.prompt_versions@[i]);
                assert(store.no_result_for(store.prompt_versions@[i].id));
            }
            Ok(None)
        },
    }
}

/// One result row was appended for this eval, holding these serialized
/// scores; nothing else moved.
pub open spec fn result_appended(
    pre: VersionStore,
    post: VersionStore,
    eval_id: i32,
    bytes: Seq<u8>,
) -> bool {
    &&& post.eval_results@.len() == pre.eval_results@.len() + 1
    &&& post.eval_results@.take(pre.eval_results@.len() as int) == pre.eval_results@
    &&& post.eval_results@.last().eval_id == eval_id
    &&& post.eval_results@.last().scores@ == bytes
    &&& post.eval_results@.last().id == pre.next_id
    &&& post.next_id == pre.next_id + 1
    &&& post.prompt_versions@ == pre.prompt_versions@
    &&& post.evals@ == pre.evals@
    &&& post.test_registrations@ == pre.test_registrations@
}

/// Persist a run's scores under its eval, unconditionally, stamped by the
/// clock. The stored bytes are the canonical serialization of the scores.
pub fn create_new_eval_result(
    store: &mut VersionStore,
    existing_eval_version: &Eval,
    scores: &EvalRunScores,
) -> (r: EvalResult)
    requires
        old(store).wf(),
        old(store).next_id < i32::MAX,
    ensures
        final(store).wf(),
        result_appended(
            *old(store),
            *final(store),
            existing_eval_version.id,
            json::ser_scores(json::scores_rep(scores@)),
        ),
        result_rows_eq(r, final(store).eval_results@.last()),
{
    let bytes = json::serialize_scores(scores);
    let created_at = clock::now_timestamp_millis();
    let idx = store.insert_eval_result(existing_eval_version.id, bytes, created_at);
    let r = store.eval_results[idx].duplicate();
    proof {
        assert(final(store).eval_results@.take(old(store).eval_results@.len() as int) =~= old(
            store,
        ).eval_results@);
    }
    r
}

/// What recording a run guarantees once both the eval and the prompt are
/// present: the two resolutions happen in order, the base run is fetched,
/// the new scores are stored, and the response classifies the run against
/// the parsed base scores.
pub open spec fn record_eval_post(
    pre: VersionStore,
    post: VersionStore,
    eval_name: Seq<u8>,
    prompt_name: Seq<u8>,
    prompt_version: Seq<u8>,
    scores: Seq<crate::compare::SingleEvalScore>,
    base: Option<Seq<u8>>,
    r: Result<RecordEvalResponse, EvalError>,
) -> bool {
    exists|s1: VersionStore, s2: VersionStore, pv: PromptVersion, ev: Eval|
        {
            &&& #[trigger] resolve_pv_post(pre, s1, prompt_name, prompt_version, pv)
            &&& #[trigger] resolve_eval_post(s1, s2, eval_name, pv, ev)
            &&& match r {
                Err(EvalError::BaseVersionNotFound) => post == s2 && base is Some
                    && s2.no_pv_with_version(base.unwrap()),
                Err(EvalError::CorruptPreviousScores) => result_appended(
                    s2,
                    post,
                    ev.id,
                    json::ser_scores(json::scores_rep(scores)),
                ) && exists|i: int, ri: int|
                    #[trigger] base_sel(s2, prompt_version, base, i)
                        && #[trigger] s2.is_latest_result_for(ri, s2.prompt_versions@[i].id)
                        && json::p_scores(s2.eval_results@[ri].scores@) is None,
                Err(_) => false,
                Ok(resp) => result_appended(
                    s2,
                    post,
                    ev.id,
                    json::ser_scores(json::scores_rep(scores)),
                ) && {
                    ||| {
                        // nothing to compare against: a benign empty answer
                        &&& ((base is None && s2.no_base_below(prompt_version)) || exists|i: int|
                            #[trigger] base_sel(s2, prompt_version, base, i) && s2.no_result_for(
                                s2.prompt_versions@[i].id,
                            ))
                        &&& resp.outcome == EvalOutcome::NoChange
                        &&& resp.previous_eval_scores@.len() == 0
                        &&& resp.meaningful_eval_scores@.len() == 0
                    }
                    ||| {
                        // the base run's stored bytes parse to the returned
                        // previous scores, and the outcome classifies the
                        // incoming scores against them
                        &&& exists|i: int, ri: int|
                            #[trigger] base_sel(s2, prompt_version, base, i)
                                && #[trigger] s2.is_latest_result_for(
                                ri,
                                s2.prompt_versions@[i].id,
                            ) && json::p_scores(s2.eval_results@[ri].scores@) == Some(
                                json::scores_rep(resp.previous_eval_scores@),
                            )
                        &&& resp.outcome == spec_outcome(resp.previous_eval_scores@, scores)
                        &&& meaningful_correspond(
                            resp.meaningful_eval_scores@,
                            spec_meaningful(resp.previous_eval_scores@, scores),
                        )
                    }
                },
            }
        }
}

/// Record an eval run and compare it to the most recent run of its base
/// prompt version.
///
/// A missing eval or prompt is a caller error and touches nothing. The
/// prompt version and eval are resolved idempotently, creating rows only
/// when absent; those rows remain even if a later step fails, and a retry
/// observes them. The run's scores are recorded exactly once whenever the
/// base resolution succeeds, whether or not any base run exists to compare
/// against.
pub fn record_eval(
    store: &mut VersionStore,
    eval_name: Option<&Vec<u8>>,
    prompt: Option<&VersionedPrompt>,
    eval_scores: &EvalRunScores,
    base_version: Option<&Vec<u8>>,
) -> (r: Result<RecordEvalResponse, EvalError>)
    requires
        old(store).wf(),
        old(store).next_id <= i32::MAX - 3,
    ensures
        final(store).wf(),
        eval_name is None ==> r == Err::<RecordEvalResponse, EvalError>(EvalError::MissingEval)
            && *final(store) == *old(store),
        eval_name is Some && prompt is None ==> r == Err::<RecordEvalResponse, EvalError>(
            EvalError::MissingPrompt,
        ) && *final(store) == *old(store),
        eval_name is Some && prompt is Some ==> record_eval_post(
            *old(store),
            *final(store),
            eval_name.unwrap()@,
            prompt.unwrap().name@,
            prompt.unwrap().version@,
            eval_scores@,
            base_opt(base_version),
            r,
        ),
{
    let en = match eval_name {
        Some(en) => en,
        None => {
            return Err(EvalError::MissingEval);
        },
    };
    let pr = match prompt {
        Some(pr) => pr,
        None => {
            return Err(EvalError::MissingPrompt);
        },
    };
    let prompt_version = get_or_create_prompt_version(store, pr);
    let ghost s1 = *store;
    let existing_eval_version = get_or_create_eval_version(store, en, &prompt_version);
    let ghost s2 = *store;
    let previous_eval_result = match get_previous_eval_result(store, pr, base_version) {
        Ok(p) => p,
        Err(e) => {
            proof {
                assert(resolve_pv_post(*old(store), s1, pr.name@, pr.version@, prompt_version)
                    && resolve_eval_post(s1, s2, en@, prompt_version, existing_eval_version));
            }
            return Err(e);
        },
    };
    create_new_eval_result(store, &existing_eval_version, eval_scores);
    let ghost s3 = *store;
    match previous_eval_result {
        Some(previous_result) => {
            let previous_results = match json::parse_scores(&previous_result.scores) {
                Some(v) => v,
                None => {
                    proof {
                        assert(resolve_pv_post(
                            *old(store),
                            s1,
                            pr.name@,
                            pr.version@,
                            prompt_version,
                        ) && resolve_eval_post(s1, s2, en@, prompt_version, existing_eval_version));
                    }
                    return Err(EvalError::CorruptPreviousScores);
                },
            };
            let (outcome, meaningful_scores) = compare_results(&previous_results, eval_scores);
            let resp = RecordEvalResponse {
                outcome,
                previous_eval_scores: previous_results,
                meaningful_eval_scores: meaningful_scores,
            };
            proof {
                assert(resolve_pv_post(*old(store), s1, pr.name@, pr.version@, prompt_version)
                    && resolve_eval_post(s1, s2, en@, prompt_version, existing_eval_version));
            }
            Ok(resp)
        },
        None => {
            let resp = RecordEvalResponse {
                outcome: EvalOutcome::NoChange,
                previous_eval_scores: Vec::new(),
                meaningful_eval_scores: Vec::new(),
            };
            proof {
                assert(resolve_pv_post(*old(store), s1, pr.name@, pr.version@, prompt_version)
                    && resolve_eval_post(s1, s2, en@, prompt_version, existing_eval_version));
            }
            Ok(resp)
        },
    }
}

/// Scores the recorder itself stored always parse back to the run that was
/// recorded: the corrupt-scores error can only arise from rows written
/// outside the recorder.
pub proof fn lemma_recorded_scores_parse_back(v: Seq<crate::compare::SingleEvalScore>)
    ensures
        json::p_scores(json::ser_scores(json::scores_rep(v))) == Some(json::scores_rep(v)),
{
    assert(json::wf_scores_rep(json::scores_rep(v)));
    json::lemma_scores_round_trip(json::scores_rep(v));
}

/// Resolving the same version twice yields the same row id, and the second
/// resolution creates nothing: the store after it is the store before it.
pub proof fn lemma_resolution_idempotent(
    s0: VersionStore,
    s1: VersionStore,
    s2: VersionStore,
    name1: Seq<u8>,
    name2: Seq<u8>,
    version: Seq<u8>,
    r1: PromptVersion,
    r2: PromptVersion,
)
    requires
        resolve_pv_post(s0, s1, name1, version, r1),
        resolve_pv_post(s1, s2, name2, version, r2),
    ensures
        r2.id == r1.id,
        s2 == s1,
{
    if exists|i: int| s0.is_first_pv_with_version(i, version) {
        let i1 = choose|i: int|
            #[trigger] s0.is_first_pv_with_version(i, version) && pv_rows_eq(
                r1,
                s0.prompt_versions@[i],
            );
        let i2 = choose|i: int|
            #[trigger] s1.is_first_pv_with_version(i, version) && pv_rows_eq(
                r2,
                s1.prompt_versions@[i],
            );
        assert(s1 == s0);
        if i1 < i2 {
            assert(s0.prompt_versions@[i1].version@ != version);
        } else if i2 < i1 {
            assert(s0.prompt_versions@[i2].version@ != version);
        }
    } else {
        let n = s0.prompt_versions@.len() as int;
        assert(s1.prompt_versions@.len() == n + 1);
        assert(s1.prompt_versions@[n].version@ == version) by {
            assert(pv_rows_eq(r1, s1.prompt_versions@.last()));
        }
        assert(forall|j: int| 0 <= j < n ==> s1.prompt_versions@[j] == s0.prompt_versions@[j]) by {
            assert(forall|j: int|
                0 <= j < n ==> s1.prompt_versions@.take(n)[j] == #[trigger] s1.prompt_versions@[j]);
        }
        assert forall|j: int| 0 <= j < n implies #[trigger] s0.prompt_versions@[j].version@
            != version by {
            if s0.prompt_versions@[j].version@ == version {
                lemma_first_match_exists(s0, version, j);
            }
        }
        assert(s1.is_first_pv_with_version(n, version));
        let i2 = choose|i: int|
            #[trigger] s1.is_first_pv_with_version(i, version) && pv_rows_eq(
                r2,
                s1.prompt_versions@[i],
            );
        if i2 < n {
            assert(s1.prompt_versions@[i2].version@ == version);
            assert(s0.prompt_versions@[i2].version@ == version);
        }
        assert(i2 == n);
        assert(r2.id == r1.id);
    }
}

/// Any row carrying a version implies a first row carrying it.
proof fn lemma_first_match_exists(s: VersionStore, version: Seq<u8>, j: int)
    requires
        0 <= j < s.prompt_versions@.len(),
        s.prompt_versions@[j].version@ == version,
    ensures
        exists|i: int| s.is_first_pv_with_version(i, version),
    decreases j,
{
    if forall|k: int| 0 <= k < j ==> #[trigger] s.prompt_versions@[k].version@ != version {
        assert(s.is_first_pv_with_version(j, version));
    } else {
        let k = choose|k: int|
            0 <= k < j && #[trigger] s.prompt_versions@[k].version@ == version;
        lemma_first_match_exists(s, version, k);
    }
}

} // verus!
