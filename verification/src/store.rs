//! The version store: typed rows for prompt versions, evals, eval results
//! and test registrations, held in insertion order with strictly increasing
//! row ids. All four tables are append-only; queries that ask for the "most
//! recent" row order by the stored timestamp and break ties by insertion
//! order, so they are deterministic even when timestamps collide.

use vstd::prelude::*;

use crate::text::{bytes_eq, bytes_lt, clone_bytes, lex_lt};

verus! {

/// How many of the first k entries are true.
pub open spec fn count_true(s: Seq<bool>, k: int) -> int
    decreases k,
{
    if k <= 0 {
        0
    } else {
        count_true(s, k - 1) + if s[k - 1] {
            1int
        } else {
            0int
        }
    }
}

proof fn lemma_count_true_exists_false(s: Seq<bool>, k: int)
    requires
        0 <= k <= s.len(),
        count_true(s, k) < k,
    ensures
        exists|j: int| 0 <= j < k && !s[j],
    decreases k,
{
    if k > 0 {
        if !s[k - 1] {
        } else {
            lemma_count_true_exists_false(s, k - 1);
        }
    }
}

proof fn lemma_count_true_update(s: Seq<bool>, i: int, k: int)
    requires
        0 <= i < k <= s.len(),
        !s[i],
    ensures
        count_true(s.update(i, true), k) == count_true(s, k) + 1,
    decreases k,
{
    let t = s.update(i, true);
    if i == k - 1 {
        assert(forall|j: int| 0 <= j < k - 1 ==> t[j] == s[j]);
        lemma_count_true_frame(s, t, k - 1);
    } else {
        lemma_count_true_update(s, i, k - 1);
        assert(t[k - 1] == s[k - 1]);
    }
}

proof fn lemma_count_true_all_false(s: Seq<bool>, k: int)
    requires
        0 <= k <= s.len(),
        forall|j: int| 0 <= j < k ==> !(#[trigger] s[j]),
    ensures
        count_true(s, k) == 0,
    decreases k,
{
    if k > 0 {
        lemma_count_true_all_false(s, k - 1);
    }
}

proof fn lemma_count_true_frame(s: Seq<bool>, t: Seq<bool>, k: int)
    requires
        0 <= k <= s.len(),
        k <= t.len(),
        forall|j: int| 0 <= j < k ==> s[j] == t[j],
    ensures
        count_true(s, k) == count_true(t, k),
    decreases k,
{
    if k > 0 {
        lemma_count_true_frame(s, t, k - 1);
    }
}

/// One immutable snapshot of a prompt, identified by a version string.
#[derive(Debug)]
pub struct PromptVersion {
    pub id: i32,
    pub name: Vec<u8>,
    pub version: Vec<u8>,
    pub created_at: i64,
}

impl PromptVersion {
    /// A copy of the row.
    pub fn duplicate(&self) -> (r: PromptVersion)
        ensures
            r.id == self.id,
            r.name@ == self.name@,
            r.version@ == self.version@,
            r.created_at == self.created_at,
    {
        PromptVersion {
            id: self.id,
            name: clone_bytes(&self.name),
            version: clone_bytes(&self.version),
            created_at: self.created_at,
        }
    }
}

/// One named evaluation bound to exactly one prompt version.
#[derive(Debug)]
pub struct Eval {
    pub id: i32,
    pub name: Vec<u8>,
    pub created_at: i64,
    pub prompt_version_id: i32,
}

impl Eval {
    /// A copy of the row.
    pub fn duplicate(&self) -> (r: Eval)
        ensures
            r.id == self.id,
            r.name@ == self.name@,
            r.created_at == self.created_at,
            r.prompt_version_id == self.prompt_version_id,
    {
        Eval {
            id: self.id,
            name: clone_bytes(&self.name),
            created_at: self.created_at,
            prompt_version_id: self.prompt_version_id,
        }
    }
}

/// One run's stored output: the serialized score list of one eval run.
#[derive(Debug)]
pub struct EvalResult {
    pub id: i32,
    pub eval_id: i32,
    pub scores: Vec<u8>,
    pub created_at: i64,
}

impl EvalResult {
    /// A copy of the row.
    pub fn duplicate(&self) -> (r: EvalResult)
        ensures
            r.id == self.id,
            r.eval_id == self.eval_id,
            r.scores@ == self.scores@,
            r.created_at == self.created_at,
    {
        EvalResult {
            id: self.id,
            eval_id: self.eval_id,
            scores: clone_bytes(&self.scores),
            created_at: self.created_at,
        }
    }
}

/// One append-only catalog snapshot of the discoverable tests.
#[derive(Debug)]
pub struct TestRegistration {
    pub id: i32,
    pub blob_url: Vec<u8>,
    pub hash: Vec<u8>,
    pub metadata: Vec<u8>,
    pub created_at: i64,
}

/// The four tables and the id counter.
pub struct VersionStore {
    pub prompt_versions: Vec<PromptVersion>,
    pub evals: Vec<Eval>,
    pub eval_results: Vec<EvalResult>,
    pub test_registrations: Vec<TestRegistration>,
    pub next_id: i32,
}

impl VersionStore {
    /// Row ids grow with insertion order in every table and stay below the
    /// counter, so each id denotes at most one row of its table.
    pub open spec fn wf(&self) -> bool {
        &&& forall|i: int, j: int|
            0 <= i < j < self.prompt_versions@.len() ==> #[trigger] self.prompt_versions@[i].id
                < #[trigger] self.prompt_versions@[j].id
        &&& forall|i: int|
            0 <= i < self.prompt_versions@.len() ==> #[trigger] self.prompt_versions@[i].id
                < self.next_id
        &&& forall|i: int, j: int|
            0 <= i < j < self.evals@.len() ==> #[trigger] self.evals@[i].id
                < #[trigger] self.evals@[j].id
        &&& forall|i: int| 0 <= i < self.evals@.len() ==> #[trigger] self.evals@[i].id < self.next_id
        &&& forall|i: int, j: int|
            0 <= i < j < self.eval_results@.len() ==> #[trigger] self.eval_results@[i].id
                < #[trigger] self.eval_results@[j].id
        &&& forall|i: int|
            0 <= i < self.eval_results@.len() ==> #[trigger] self.eval_results@[i].id < self.next_id
        &&& forall|i: int, j: int|
            0 <= i < j < self.test_registrations@.len() ==> #[trigger] self.test_registrations@[i].id
                < #[trigger] self.test_registrations@[j].id
        &&& forall|i: int|
            0 <= i < self.test_registrations@.len() ==> #[trigger] self.test_registrations@[i].id
                < self.next_id
    }

    /// An empty store.
    pub fn new() -> (s: VersionStore)
        ensures
            s.wf(),
            s.prompt_versions@.len() == 0,
            s.evals@.len() == 0,
            s.eval_results@.len() == 0,
            s.test_registrations@.len() == 0,
            s.next_id == 1,
    {
        VersionStore {
            prompt_versions: Vec::new(),
            evals: Vec::new(),
            eval_results: Vec::new(),
            test_registrations: Vec::new(),
            next_id: 1,
        }
    }

    /// Position i holds the first prompt-version row carrying version v.
    pub open spec fn is_first_pv_with_version(self, i: int, v: Seq<u8>) -> bool {
        &&& 0 <= i < self.prompt_versions@.len()
        &&& self.prompt_versions@[i].version@ == v
        &&& forall|j: int| 0 <= j < i ==> #[trigger] self.prompt_versions@[j].version@ != v
    }

    /// No prompt-version row carries version v.
    pub open spec fn no_pv_with_version(self, v: Seq<u8>) -> bool {
        forall|j: int|
            0 <= j < self.prompt_versions@.len() ==> #[trigger] self.prompt_versions@[j].version@
                != v
    }

    /// The first prompt-version row carrying this version string, if any.
    pub fn first_prompt_version_with_version(&self, version: &Vec<u8>) -> (r: Option<usize>)
        ensures
            match r {
                Some(i) => self.is_first_pv_with_version(i as int, version@),
                None => self.no_pv_with_version(version@),
            },
    {
        let n = self.prompt_versions.len();
        let mut i: usize = 0;
        while i < n
            invariant
                i <= n,
                n == self.prompt_versions@.len(),
                forall|j: int| 0 <= j < i ==> #[trigger] self.prompt_versions@[j].version@ != version@,
            decreases n - i,
        {
            if bytes_eq(&self.prompt_versions[i].version, version) {
                return Some(i);
            }
            i += 1;
        }
        None
    }

    /// The first prompt-version row with this id, if any. Under wf the id
    /// denotes at most one row.
    pub fn first_prompt_version_with_id(&self, id: i32) -> (r: Option<usize>)
        ensures
            match r {
                Some(i) => {
                    &&& 0 <= i < self.prompt_versions@.len()
                    &&& self.prompt_versions@[i as int].id == id
                    &&& forall|j: int| 0 <= j < i ==> #[trigger] self.prompt_versions@[j].id != id
                },
                None => forall|j: int|
                    0 <= j < self.prompt_versions@.len()
                        ==> #[trigger] self.prompt_versions@[j].id != id,
            },
    {
        let n = self.prompt_versions.len();
        let mut i: usize = 0;
        while i < n
            invariant
                i <= n,
                n == self.prompt_versions@.len(),
                forall|j: int| 0 <= j < i ==> #[trigger] self.prompt_versions@[j].id != id,
            decreases n - i,
        {
            if self.prompt_versions[i].id == id {
                return Some(i);
            }
            i += 1;
        }
        None
    }

    /// Under wf, a prompt-version id denotes at most one row.
    pub proof fn lemma_pv_id_unique(self, i: int, j: int)
        requires
            self.wf(),
            0 <= i < self.prompt_versions@.len(),
            0 <= j < self.prompt_versions@.len(),
            self.prompt_versions@[i].id == self.prompt_versions@[j].id,
        ensures
            i == j,
    {
        if i < j {
            assert(self.prompt_versions@[i].id < self.prompt_versions@[j].id);
        } else if j < i {
            assert(self.prompt_versions@[j].id < self.prompt_versions@[i].id);
        }
    }

    /// Under wf, an eval id denotes at most one row.
    pub proof fn lemma_eval_id_unique(self, i: int, j: int)
        requires
            self.wf(),
            0 <= i < self.evals@.len(),
            0 <= j < self.evals@.len(),
            self.evals@[i].id == self.evals@[j].id,
        ensures
            i == j,
    {
        if i < j {
            assert(self.evals@[i].id < self.evals@[j].id);
        } else if j < i {
            assert(self.evals@[j].id < self.evals@[i].id);
        }
    }

    /// An eval row named `name` whose owning prompt version carries
    /// `version`: the join used when resolving an eval.
    pub open spec fn eval_matches(&self, i: int, name: Seq<u8>, version: Seq<u8>) -> bool {
        &&& self.evals@[i].name@ == name
        &&& exists|p: int|
            0 <= p < self.prompt_versions@.len() && (#[trigger] self.prompt_versions@[p]).id
                == self.evals@[i].prompt_version_id && self.prompt_versions@[p].version@ == version
    }

    /// Position i holds the first eval row matching the join.
    pub open spec fn is_first_eval_for(self, i: int, name: Seq<u8>, version: Seq<u8>) -> bool {
        &&& 0 <= i < self.evals@.len()
        &&& self.eval_matches(i, name, version)
        &&& forall|j: int| 0 <= j < i ==> !self.eval_matches(j, name, version)
    }

    /// No eval row matches the join.
    pub open spec fn no_eval_for(self, name: Seq<u8>, version: Seq<u8>) -> bool {
        forall|j: int| 0 <= j < self.evals@.len() ==> !self.eval_matches(j, name, version)
    }

    /// The first eval row matching the (name, owning version) join, if any.
    pub fn first_eval_for(&self, name: &Vec<u8>, version: &Vec<u8>) -> (r: Option<usize>)
        requires
            self.wf(),
        ensures
            match r {
                Some(i) => self.is_first_eval_for(i as int, name@, version@),
                None => self.no_eval_for(name@, version@),
            },
    {
        let n = self.evals.len();
        let mut i: usize = 0;
        while i < n
            invariant
                self.wf(),
                i <= n,
                n == self.evals@.len(),
                forall|j: int| 0 <= j < i ==> !self.eval_matches(j, name@, version@),
            decreases n - i,
        {
            if bytes_eq(&self.evals[i].name, name) {
                match self.first_prompt_version_with_id(self.evals[i].prompt_version_id) {
                    Some(p) => {
                        if bytes_eq(&self.prompt_versions[p].version, version) {
                            return Some(i);
                        }
                        proof {
                            if self.eval_matches(i as int, name@, version@) {
                                let q = choose|q: int|
                                    0 <= q < self.prompt_versions@.len() && (
                                    #[trigger] self.prompt_versions@[q]).id
                                        == self.evals@[i as int].prompt_version_id
                                        && self.prompt_versions@[q].version@ == version@;
                                self.lemma_pv_id_unique(p as int, q);
                            }
                            assert(!self.eval_matches(i as int, name@, version@));
                        }
                    },
                    None => {
                        proof {
                            if self.eval_matches(i as int, name@, version@) {
                                let q = choose|q: int|
                                    0 <= q < self.prompt_versions@.len() && (
                                    #[trigger] self.prompt_versions@[q]).id
                                        == self.evals@[i as int].prompt_version_id
                                        && self.prompt_versions@[q].version@ == version@;
                                assert(self.prompt_versions@[q].id
                                    != self.evals@[i as int].prompt_version_id);
                            }
                            assert(!self.eval_matches(i as int, name@, version@));
                        }
                    },
                }
            }
            i += 1;
        }
        None
    }

    /// A result row whose eval belongs to this prompt version: the join used
    /// when fetching the base run.
    pub open spec fn result_matches(&self, i: int, pv_id: i32) -> bool {
        exists|e: int|
            0 <= e < self.evals@.len() && (#[trigger] self.evals@[e]).id
                == self.eval_results@[i].eval_id && self.evals@[e].prompt_version_id == pv_id
    }

    /// The first eval row with this id, if any.
    fn first_eval_with_id(&self, id: i32) -> (r: Option<usize>)
        ensures
            match r {
                Some(i) => {
                    &&& 0 <= i < self.evals@.len()
                    &&& self.evals@[i as int].id == id
                },
                None => forall|j: int| 0 <= j < self.evals@.len() ==> #[trigger] self.evals@[j].id != id,
            },
    {
        let n = self.evals.len();
        let mut i: usize = 0;
        while i < n
            invariant
                i <= n,
                n == self.evals@.len(),
                forall|j: int| 0 <= j < i ==> #[trigger] self.evals@[j].id != id,
            decreases n - i,
        {
            if self.evals[i].id == id {
                return Some(i);
            }
            i += 1;
        }
        None
    }

    /// The most recent result row for this prompt version: the greatest
    /// stored timestamp, ties broken towards the later insertion.
    /// Position i holds the most recent result row for this prompt version.
    pub open spec fn is_latest_result_for(self, i: int, pv_id: i32) -> bool {
        &&& 0 <= i < self.eval_results@.len()
        &&& self.result_matches(i, pv_id)
        &&& forall|j: int|
            0 <= j < self.eval_results@.len() && self.result_matches(j, pv_id) ==> (
            #[trigger] self.eval_results@[j].created_at < self.eval_results@[i].created_at || (
            self.eval_results@[j].created_at == self.eval_results@[i].created_at && j <= i))
    }

    /// No result row belongs to this prompt version.
    pub open spec fn no_result_for(self, pv_id: i32) -> bool {
        forall|j: int| 0 <= j < self.eval_results@.len() ==> !self.result_matches(j, pv_id)
    }

    pub fn latest_result_for_prompt_version(&self, pv_id: i32) -> (r: Option<usize>)
        requires
            self.wf(),
        ensures
            match r {
                Some(i) => self.is_latest_result_for(i as int, pv_id),
                None => self.no_result_for(pv_id),
            },
    {
        let n = self.eval_results.len();
        let mut best: Option<usize> = None;
        let mut i: usize = 0;
        while i < n
            invariant
                self.wf(),
                i <= n,
                n == self.eval_results@.len(),
                match best {
                    Some(b) => {
                        &&& 0 <= b < i
                        &&& self.result_matches(b as int, pv_id)
                        &&& forall|j: int|
                            0 <= j < i && self.result_matches(j, pv_id) ==> (
                            #[trigger] self.eval_results@[j].created_at
                                < self.eval_results@[b as int].created_at || (
                            self.eval_results@[j].created_at
                                == self.eval_results@[b as int].created_at && j <= b))
                    },
                    None => forall|j: int| 0 <= j < i ==> !self.result_matches(j, pv_id),
                },
            decreases n - i,
        {
            let row_eval_id = self.eval_results[i].eval_id;
            let matches = match self.first_eval_with_id(row_eval_id) {
                Some(e) => {
                    let m = self.evals[e].prompt_version_id == pv_id;
                    proof {
                        if m {
                            assert(0 <= e < self.evals@.len() && self.evals@[e as int].id
                                == self.eval_results@[i as int].eval_id && self.evals@[e as int].prompt_version_id
                                == pv_id);
                            assert(self.result_matches(i as int, pv_id));
                        } else if self.result_matches(i as int, pv_id) {
                            let q = choose|q: int|
                                0 <= q < self.evals@.len() && (#[trigger] self.evals@[q]).id
                                    == self.eval_results@[i as int].eval_id
                                    && self.evals@[q].prompt_version_id == pv_id;
                            self.lemma_eval_id_unique(e as int, q);
                        }
                    }
                    m
                },
                None => {
                    proof {
                        if self.result_matches(i as int, pv_id) {
                            let q = choose|q: int|
                                0 <= q < self.evals@.len() && (#[trigger] self.evals@[q]).id
                                    == self.eval_results@[i as int].eval_id
                                    && self.evals@[q].prompt_version_id == pv_id;
                            assert(self.evals@[q].id != self.eval_results@[i as int].eval_id);
                        }
                    }
                    false
                },
            };
            proof {
                assert(matches == self.result_matches(i as int, pv_id));
            }
            if matches {
                match best {
                    Some(b) => {
                        if self.eval_results[i].created_at >= self.eval_results[b].created_at {
                            best = Some(i);
                        }
                    },
                    None => {
                        best = Some(i);
                    },
                }
            }
            i += 1;
        }
        best
    }

    /// The most recent test registration: the greatest stored timestamp,
    /// ties broken towards the later insertion.
    /// Position i holds the most recent test registration.
    pub open spec fn is_latest_registration(self, i: int) -> bool {
        &&& 0 <= i < self.test_registrations@.len()
        &&& forall|j: int|
            0 <= j < self.test_registrations@.len() ==> (
            #[trigger] self.test_registrations@[j].created_at
                < self.test_registrations@[i].created_at || (self.test_registrations@[j].created_at
                == self.test_registrations@[i].created_at && j <= i))
    }

    pub fn latest_registration(&self) -> (r: Option<usize>)
        ensures
            match r {
                Some(i) => self.is_latest_registration(i as int),
                None => self.test_registrations@.len() == 0,
            },
    {
        let n = self.test_registrations.len();
        if n == 0 {
            return None;
        }
        let mut best: usize = 0;
        let mut i: usize = 1;
        while i < n
            invariant
                1 <= i <= n,
                n == self.test_registrations@.len(),
                0 <= best < i,
                forall|j: int|
                    0 <= j < i ==> (#[trigger] self.test_registrations@[j].created_at
                        < self.test_registrations@[best as int].created_at || (
                    self.test_registrations@[j].created_at
                        == self.test_registrations@[best as int].created_at && j <= best)),
            decreases n - i,
        {
            if self.test_registrations[i].created_at >= self.test_registrations[best].created_at {
                best = i;
            }
            i += 1;
        }
        Some(best)
    }

    /// The prompt version with the lexicographically greatest version string
    /// strictly below `current`: the most recent predecessor under string
    /// ordering. Among equal version strings the earliest insertion wins.
    /// Position i holds the predecessor prompt version: the greatest version
    /// string strictly below current, earliest insertion among equals.
    pub open spec fn is_base_below(self, i: int, current: Seq<u8>) -> bool {
        &&& 0 <= i < self.prompt_versions@.len()
        &&& lex_lt(self.prompt_versions@[i].version@, current)
        &&& forall|j: int|
            0 <= j < self.prompt_versions@.len() && lex_lt(
                (#[trigger] self.prompt_versions@[j]).version@,
                current,
            ) ==> (lex_lt(self.prompt_versions@[j].version@, self.prompt_versions@[i].version@) || (
            self.prompt_versions@[j].version@ == self.prompt_versions@[i].version@ && i <= j))
    }

    /// No prompt version lies strictly below current.
    pub open spec fn no_base_below(self, current: Seq<u8>) -> bool {
        forall|j: int|
            0 <= j < self.prompt_versions@.len() ==> !lex_lt(
                (#[trigger] self.prompt_versions@[j]).version@,
                current,
            )
    }

    pub fn max_version_below(&self, current: &Vec<u8>) -> (r: Option<usize>)
        ensures
            match r {
                Some(i) => self.is_base_below(i as int, current@),
                None => self.no_base_below(current@),
            },
    {
        let n = self.prompt_versions.len();
        let mut best: Option<usize> = None;
        let mut i: usize = 0;
        while i < n
            invariant
                i <= n,
                n == self.prompt_versions@.len(),
                match best {
                    Some(b) => {
                        &&& 0 <= b < i
                        &&& lex_lt(self.prompt_versions@[b as int].version@, current@)
                        &&& forall|j: int|
                            0 <= j < i && lex_lt(
                                (#[trigger] self.prompt_versions@[j]).version@,
                                current@,
                            ) ==> (lex_lt(
                                self.prompt_versions@[j].version@,
                                self.prompt_versions@[b as int].version@,
                            ) || (self.prompt_versions@[j].version@
                                == self.prompt_versions@[b as int].version@ && b <= j))
                    },
                    None => forall|j: int|
                        0 <= j < i ==> !lex_lt(
                            (#[trigger] self.prompt_versions@[j]).version@,
                            current@,
                        ),
                },
            decreases n - i,
        {
            if bytes_lt(&self.prompt_versions[i].version, current) {
                match best {
                    Some(b) => {
                        if bytes_lt(&self.prompt_versions[b].version, &self.prompt_versions[i].version) {
                            proof {
                                let pv = self.prompt_versions@;
                                assert forall|j: int|
                                    0 <= j < i && lex_lt(
                                        (#[trigger] pv[j]).version@,
                                        current@,
                                    ) implies (lex_lt(pv[j].version@, pv[i as int].version@) || (
                                pv[j].version@ == pv[i as int].version@ && i as int <= j)) by {
                                    if lex_lt(pv[j].version@, pv[b as int].version@) {
                                        crate::text::lemma_lex_transitive(
                                            pv[j].version@,
                                            pv[b as int].version@,
                                            pv[i as int].version@,
                                        );
                                    }
                                }
                            }
                            best = Some(i);
                        } else {
                            proof {
                                crate::text::lemma_lex_connected(
                                    self.prompt_versions@[i as int].version@,
                                    self.prompt_versions@[b as int].version@,
                                );
                            }
                        }
                    },
                    None => {
                        best = Some(i);
                    },
                }
            }
            i += 1;
        }
        best
    }

    /// Position a precedes position b in a most-recent-first listing of the
    /// evals: a later timestamp, or the same timestamp and a later insertion.
    pub open spec fn listed_before(self, a: int, b: int) -> bool {
        self.evals@[b].created_at < self.evals@[a].created_at || (self.evals@[b].created_at
            == self.evals@[a].created_at && b < a)
    }

    /// The positions of all eval rows, most recent first: descending stored
    /// timestamp, later insertions first among equal timestamps. The read
    /// the eval listing endpoint serves.
    pub fn evals_by_recency(&self) -> (r: Vec<usize>)
        ensures
            r@.len() == self.evals@.len(),
            forall|a: int| 0 <= a < r@.len() ==> (#[trigger] r@[a]) < self.evals@.len(),
            forall|a: int, b: int|
                0 <= a < b < r@.len() ==> self.listed_before(r@[a] as int, r@[b] as int),
    {
        let n = self.evals.len();
        let mut used: Vec<bool> = Vec::new();
        let mut i0: usize = 0;
        while i0 < n
            invariant
                i0 <= n,
                used@.len() == i0,
                forall|k: int| 0 <= k < i0 ==> !(#[trigger] used@[k]),
            decreases n - i0,
        {
            used.push(false);
            i0 += 1;
        }
        proof {
            lemma_count_true_all_false(used@, n as int);
        }
        let mut out: Vec<usize> = Vec::new();
        let mut round: usize = 0;
        while round < n
            invariant
                round <= n,
                n == self.evals@.len(),
                used@.len() == n,
                out@.len() == round,
                count_true(used@, n as int) == round,
                forall|a: int| 0 <= a < round ==> (#[trigger] out@[a]) < n,
                forall|a: int| 0 <= a < round ==> used@[(#[trigger] out@[a]) as int],
                forall|a: int, b: int|
                    0 <= a < b < round ==> self.listed_before(out@[a] as int, out@[b] as int),
                forall|a: int, k: int|
                    0 <= a < round && 0 <= k < n && !(#[trigger] used@[k]) ==> self.listed_before(
                        (#[trigger] out@[a]) as int,
                        k,
                    ),
            decreases n - round,
        {
            let mut best: usize = n;
            let mut i: usize = 0;
            while i < n
                invariant
                    i <= n,
                    n == self.evals@.len(),
                    used@.len() == n,
                    best == n || (best < i && !used@[best as int]),
                    best == n ==> forall|j: int| 0 <= j < i ==> used@[j],
                    best < n ==> forall|j: int|
                        0 <= j < i && !used@[j] ==> (
                        #[trigger] self.evals@[j].created_at
                            < self.evals@[best as int].created_at || (self.evals@[j].created_at
                            == self.evals@[best as int].created_at && j <= best)),
                decreases n - i,
            {
                if !used[i] {
                    if best == n {
                        best = i;
                    } else if self.evals[i].created_at >= self.evals[best].created_at {
                        best = i;
                    }
                }
                i += 1;
            }
            proof {
                lemma_count_true_exists_false(used@, n as int);
                assert(best < n);
            }
            let ghost oldused = used@;
            used.set(best, true);
            proof {
                lemma_count_true_update(oldused, best as int, n as int);
            }
            out.push(best);
            round += 1;
        }
        out
    }

    /// The first result row recorded under this eval, if any: the read the
    /// results endpoint serves.
    pub fn first_result_for_eval(&self, eval_id: i32) -> (r: Option<usize>)
        ensures
            match r {
                Some(i) => {
                    &&& 0 <= i < self.eval_results@.len()
                    &&& self.eval_results@[i as int].eval_id == eval_id
                    &&& forall|j: int|
                        0 <= j < i ==> #[trigger] self.eval_results@[j].eval_id != eval_id
                },
                None => forall|j: int|
                    0 <= j < self.eval_results@.len() ==> #[trigger] self.eval_results@[j].eval_id
                        != eval_id,
            },
    {
        let n = self.eval_results.len();
        let mut i: usize = 0;
        while i < n
            invariant
                i <= n,
                n == self.eval_results@.len(),
                forall|j: int| 0 <= j < i ==> #[trigger] self.eval_results@[j].eval_id != eval_id,
            decreases n - i,
        {
            if self.eval_results[i].eval_id == eval_id {
                return Some(i);
            }
            i += 1;
        }
        None
    }

    /// Append a prompt-version row with a fresh id.
    pub fn insert_prompt_version(&mut self, name: &Vec<u8>, version: &Vec<u8>, created_at: i64) -> (r:
        usize)
        requires
            old(self).wf(),
            old(self).next_id < i32::MAX,
        ensures
            final(self).wf(),
            r == old(self).prompt_versions@.len(),
            final(self).prompt_versions@.len() == old(self).prompt_versions@.len() + 1,
            final(self).prompt_versions@ == old(self).prompt_versions@.push(
                final(self).prompt_versions@[r as int],
            ),
            final(self).prompt_versions@[r as int].id == old(self).next_id,
            final(self).prompt_versions@[r as int].name@ == name@,
            final(self).prompt_versions@[r as int].version@ == version@,
            final(self).prompt_versions@[r as int].created_at == created_at,
            final(self).evals@ == old(self).evals@,
            final(self).eval_results@ == old(self).eval_results@,
            final(self).test_registrations@ == old(self).test_registrations@,
            final(self).next_id == old(self).next_id + 1,
    {
        let r = self.prompt_versions.len();
        let row = PromptVersion {
            id: self.next_id,
            name: clone_bytes(name),
            version: clone_bytes(version),
            created_at,
        };
        self.prompt_versions.push(row);
        self.next_id = self.next_id + 1;
        r
    }

    /// Append an eval row with a fresh id, owned by a prompt version.
    pub fn insert_eval(&mut self, name: &Vec<u8>, prompt_version_id: i32, created_at: i64) -> (r:
        usize)
        requires
            old(self).wf(),
            old(self).next_id < i32::MAX,
        ensures
            final(self).wf(),
            r == old(self).evals@.len(),
            final(self).evals@.len() == old(self).evals@.len() + 1,
            final(self).evals@ == old(self).evals@.push(final(self).evals@[r as int]),
            final(self).evals@[r as int].id == old(self).next_id,
            final(self).evals@[r as int].name@ == name@,
            final(self).evals@[r as int].prompt_version_id == prompt_version_id,
            final(self).evals@[r as int].created_at == created_at,
            final(self).prompt_versions@ == old(self).prompt_versions@,
            final(self).eval_results@ == old(self).eval_results@,
            final(self).test_registrations@ == old(self).test_registrations@,
            final(self).next_id == old(self).next_id + 1,
    {
        let r = self.evals.len();
        let row = Eval {
            id: self.next_id,
            name: clone_bytes(name),
            created_at,
            prompt_version_id,
        };
        self.evals.push(row);
        self.next_id = self.next_id + 1;
        r
    }

    /// Append a result row with a fresh id, owned by an eval.
    pub fn insert_eval_result(&mut self, eval_id: i32, scores: Vec<u8>, created_at: i64) -> (r:
        usize)
        requires
            old(self).wf(),
            old(self).next_id < i32::MAX,
        ensures
            final(self).wf(),
            r == old(self).eval_results@.len(),
            final(self).eval_results@.len() == old(self).eval_results@.len() + 1,
            final(self).eval_results@ == old(self).eval_results@.push(
                final(self).eval_results@[r as int],
            ),
            final(self).eval_results@[r as int].id == old(self).next_id,
            final(self).eval_results@[r as int].eval_id == eval_id,
            final(self).eval_results@[r as int].scores@ == scores@,
            final(self).eval_results@[r as int].created_at == created_at,
            final(self).prompt_versions@ == old(self).prompt_versions@,
            final(self).evals@ == old(self).evals@,
            final(self).test_registrations@ == old(self).test_registrations@,
            final(self).next_id == old(self).next_id + 1,
    {
        let r = self.eval_results.len();
        let row = EvalResult { id: self.next_id, eval_id, scores, created_at };
        self.eval_results.push(row);
        self.next_id = self.next_id + 1;
        r
    }

    /// Append a test-registration row with a fresh id.
    pub fn insert_test_registration(
        &mut self,
        blob_url: Vec<u8>,
        hash: Vec<u8>,
        metadata: Vec<u8>,
        created_at: i64,
    ) -> (r: usize)
        requires
            old(self).wf(),
            old(self).next_id < i32::MAX,
        ensures
            final(self).wf(),
            r == old(self).test_registrations@.len(),
            final(self).test_registrations@.len() == old(self).test_registrations@.len() + 1,
            final(self).test_registrations@ == old(self).test_registrations@.push(
                final(self).test_registrations@[r as int],
            ),
            final(self).test_registrations@[r as int].id == old(self).next_id,
            final(self).test_registrations@[r as int].blob_url@ == blob_url@,
            final(self).test_registrations@[r as int].hash@ == hash@,
            final(self).test_registrations@[r as int].metadata@ == metadata@,
            final(self).test_registrations@[r as int].created_at == created_at,
            final(self).prompt_versions@ == old(self).prompt_versions@,
            final(self).evals@ == old(self).evals@,
            final(self).eval_results@ == old(self).eval_results@,
            final(self).next_id == old(self).next_id + 1,
    {
        let r = self.test_registrations.len();
        let row = TestRegistration { id: self.next_id, blob_url, hash, metadata, created_at };
        self.test_registrations.push(row);
        self.next_id = self.next_id + 1;
        r
    }
}

} // verus!
