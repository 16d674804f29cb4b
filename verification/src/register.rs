//! Test catalog registration: the shapes a catalog submission carries and
//! the novelty decision over the most recently stored snapshot.

use vstd::prelude::*;

use crate::store::{TestRegistration, VersionStore};
use crate::text::{bytes_eq, clone_bytes};

verus! {

/// One discoverable test at one version: where it lives and what it exports.
#[derive(Debug)]
pub struct Test {
    pub version: Vec<u8>,
    pub export_name: Vec<u8>,
    pub file_path: Vec<u8>,
}

/// All descriptors a catalog submission carries for one test id.
#[derive(Debug)]
pub struct TestCatalogEntry {
    pub test_id: Vec<u8>,
    pub tests: Vec<Test>,
}

/// A catalog submission: a mapping from test ids to their descriptors.
#[derive(Debug)]
pub struct RegisterTestPayload {
    pub tests: Vec<TestCatalogEntry>,
}

/// A unit of work holding script content handed to the test runner.
#[derive(Debug)]
pub struct RegisterTestJob {
    pub content: Vec<u8>,
}

/// The ghost form of one descriptor: version, export name, file path.
pub open spec fn test_rep(t: Test) -> (Seq<u8>, Seq<u8>, Seq<u8>) {
    (t.version@, t.export_name@, t.file_path@)
}

/// The ghost form of a descriptor list.
pub open spec fn tests_rep(s: Seq<Test>) -> Seq<(Seq<u8>, Seq<u8>, Seq<u8>)> {
    Seq::new(s.len(), |i: int| test_rep(s[i]))
}

/// The ghost form of a catalog: entries in submission order.
pub open spec fn catalog_rep(s: Seq<TestCatalogEntry>) -> Seq<(Seq<u8>, Seq<(Seq<u8>, Seq<u8>, Seq<u8>)>)> {
    Seq::new(s.len(), |i: int| (s[i].test_id@, tests_rep(s[i].tests@)))
}

/// Why a registration check failed.
#[derive(Clone, Copy, Debug, PartialEq, Eq, Structural)]
pub enum RegistrationError {
    /// The stored catalog could not be read back as a catalog.
    DeserializationError,
}

/// The descriptors the previous catalog holds for a test id: those of the
/// first entry carrying the id, if any.
pub open spec fn catalog_lookup(
    c: Seq<(Seq<u8>, Seq<(Seq<u8>, Seq<u8>, Seq<u8>)>)>,
    id: Seq<u8>,
) -> Option<Seq<(Seq<u8>, Seq<u8>, Seq<u8>)>>
    decreases c.len(),
{
    if c.len() == 0 {
        None
    } else if c[0].0 == id {
        Some(c[0].1)
    } else {
        catalog_lookup(c.drop_first(), id)
    }
}

/// The previous descriptors contain one equal to t in all three fields.
pub open spec fn descriptor_known(
    prev: Seq<(Seq<u8>, Seq<u8>, Seq<u8>)>,
    t: (Seq<u8>, Seq<u8>, Seq<u8>),
) -> bool {
    exists|j: int| 0 <= j < prev.len() && prev[j] == t
}

/// One incoming entry is novel against the previous catalog: its id is
/// absent, or one of its descriptors has no exact match.
pub open spec fn entry_is_novel(
    prev: Seq<(Seq<u8>, Seq<(Seq<u8>, Seq<u8>, Seq<u8>)>)>,
    e: (Seq<u8>, Seq<(Seq<u8>, Seq<u8>, Seq<u8>)>),
) -> bool {
    match catalog_lookup(prev, e.0) {
        None => true,
        Some(pvs) => exists|j: int| 0 <= j < e.1.len() && !descriptor_known(pvs, #[trigger] e.1[j]),
    }
}

/// The incoming catalog is novel against the previous one: some entry is.
/// This is set containment, not a diff: deletions are never novel.
pub open spec fn spec_is_new_catalog(
    prev: Seq<(Seq<u8>, Seq<(Seq<u8>, Seq<u8>, Seq<u8>)>)>,
    incoming: Seq<(Seq<u8>, Seq<(Seq<u8>, Seq<u8>, Seq<u8>)>)>,
) -> bool {
    exists|i: int| 0 <= i < incoming.len() && entry_is_novel(prev, #[trigger] incoming[i])
}

/// The first catalog entry carrying this id, if any.
fn catalog_find(c: &Vec<TestCatalogEntry>, id: &Vec<u8>) -> (r: Option<usize>)
    ensures
        match r {
            Some(k) => 0 <= k < c@.len() && catalog_lookup(catalog_rep(c@), id@) == Some(
                tests_rep(c@[k as int].tests@),
            ),
            None => catalog_lookup(catalog_rep(c@), id@) == None::<
                Seq<(Seq<u8>, Seq<u8>, Seq<u8>)>,
            >,
        },
{
    let ghost rep = catalog_rep(c@);
    let n = c.len();
    let mut i: usize = 0;
    proof {
        assert(rep.skip(0) =~= rep);
    }
    while i < n
        invariant
            i <= n,
            n == c@.len(),
            rep == catalog_rep(c@),
            catalog_lookup(rep, id@) == catalog_lookup(rep.skip(i as int), id@),
        decreases n - i,
    {
        proof {
            assert(rep.skip(i as int)[0] == rep[i as int]);
        }
        if bytes_eq(&c[i].test_id, id) {
            return Some(i);
        }
        proof {
            assert(rep.skip(i as int).drop_first() =~= rep.skip(i as int + 1));
        }
        i += 1;
    }
    proof {
        assert(rep.skip(n as int).len() == 0);
    }
    None
}

/// Whether some previous descriptor equals t in all three fields.
fn descriptor_known_exec(prevs: &Vec<Test>, t: &Test) -> (r: bool)
    ensures
        r == descriptor_known(tests_rep(prevs@), test_rep(*t)),
{
    let n = prevs.len();
    let mut i: usize = 0;
    while i < n
        invariant
            i <= n,
            n == prevs@.len(),
            forall|j: int| 0 <= j < i ==> tests_rep(prevs@)[j] != test_rep(*t),
        decreases n - i,
    {
        if bytes_eq(&prevs[i].version, &t.version) && bytes_eq(&prevs[i].export_name, &t.export_name)
            && bytes_eq(&prevs[i].file_path, &t.file_path) {
            proof {
                assert(tests_rep(prevs@)[i as int] == test_rep(*t));
            }
            return true;
        }
        proof {
            assert(tests_rep(prevs@)[i as int] != test_rep(*t));
        }
        i += 1;
    }
    false
}

/// Decide whether an incoming catalog must be stored as a new snapshot.
///
/// With no previous registration the answer is yes. Otherwise the stored
/// metadata is parsed back into a catalog; failure is a
/// DeserializationError. The answer is then yes exactly when some incoming
/// test id is absent from the previous catalog, or some incoming descriptor
/// differs from every stored descriptor of its id in version, export name
/// or file path. The check short-circuits and never reports deletions.
pub fn is_new_registration(
    prev_registration: Option<&TestRegistration>,
    tests: &Vec<TestCatalogEntry>,
) -> (r: Result<bool, RegistrationError>)
    ensures
        match prev_registration {
            None => r == Ok::<bool, RegistrationError>(true),
            Some(reg) => match crate::json::p_catalog(reg.metadata@) {
                Some(pc) => r == Ok::<bool, RegistrationError>(
                    spec_is_new_catalog(pc, catalog_rep(tests@)),
                ),
                None => r == Err::<bool, RegistrationError>(
                    RegistrationError::DeserializationError,
                ),
            },
        },
{
    let reg = match prev_registration {
        Some(reg) => reg,
        None => {
            return Ok(true);
        },
    };
    let prev_catalog = match crate::json::parse_catalog(&reg.metadata) {
        Some(pc) => pc,
        None => {
            return Err(RegistrationError::DeserializationError);
        },
    };
    let ghost prev_rep = catalog_rep(prev_catalog@);
    let ghost inc_rep = catalog_rep(tests@);
    let n = tests.len();
    let mut i: usize = 0;
    while i < n
        invariant
            i <= n,
            n == tests@.len(),
            prev_rep == catalog_rep(prev_catalog@),
            inc_rep == catalog_rep(tests@),
            match prev_registration {
                Some(reg) => crate::json::p_catalog(reg.metadata@) == Some(prev_rep),
                None => false,
            },
            forall|k: int| 0 <= k < i ==> !entry_is_novel(prev_rep, #[trigger] inc_rep[k]),
        decreases n - i,
    {
        let entry = &tests[i];
        match catalog_find(&prev_catalog, &entry.test_id) {
            None => {
                proof {
                    assert(inc_rep[i as int].0 == entry.test_id@);
                    assert(entry_is_novel(prev_rep, inc_rep[i as int]));
                }
                return Ok(true);
            },
            Some(k) => {
                let prevs = &prev_catalog[k].tests;
                let m = entry.tests.len();
                let mut j: usize = 0;
                while j < m
                    invariant
                        j <= m,
                        m == entry.tests@.len(),
                        entry == &tests@[i as int],
                        i < n == tests@.len(),
                        0 <= k < prev_catalog@.len(),
                        prevs == &prev_catalog@[k as int].tests,
                        prev_rep == catalog_rep(prev_catalog@),
                        inc_rep == catalog_rep(tests@),
                        match prev_registration {
                            Some(reg) => crate::json::p_catalog(reg.metadata@) == Some(prev_rep),
                            None => false,
                        },
                        catalog_lookup(prev_rep, entry.test_id@) == Some(tests_rep(prevs@)),
                        forall|t: int|
                            0 <= t < j ==> descriptor_known(
                                tests_rep(prevs@),
                                #[trigger] tests_rep(entry.tests@)[t],
                            ),
                    decreases m - j,
                {
                    if !descriptor_known_exec(prevs, &entry.tests[j]) {
                        proof {
                            assert(tests_rep(entry.tests@)[j as int] == test_rep(
                                entry.tests@[j as int],
                            ));
                            assert(inc_rep[i as int].1 == tests_rep(entry.tests@));
                            assert(entry_is_novel(prev_rep, inc_rep[i as int]));
                        }
                        return Ok(true);
                    }
                    j += 1;
                }
                proof {
                    assert(inc_rep[i as int].0 == entry.test_id@);
                    assert(inc_rep[i as int].1 == tests_rep(entry.tests@));
                    assert(!entry_is_novel(prev_rep, inc_rep[i as int]));
                }
            },
        }
        i += 1;
    }
    proof {
        assert(!spec_is_new_catalog(prev_rep, inc_rep));
    }
    Ok(false)
}

/// Handle one catalog submission against the store: check novelty against
/// the most recent snapshot and, when novel, append a new snapshot with the
/// serialized catalog, the given blob location and content hash, stamped by
/// the clock. Returns whether a new snapshot was stored.
pub fn process_registration(
    store: &mut VersionStore,
    tests: &Vec<TestCatalogEntry>,
    blob_url: &Vec<u8>,
    content_hash: &Vec<u8>,
) -> (r: Result<bool, RegistrationError>)
    requires
        old(store).wf(),
        old(store).next_id < i32::MAX,
    ensures
        final(store).wf(),
        match r {
            Ok(novel) => {
                &&& (old(store).test_registrations@.len() == 0 ==> novel)
                &&& (old(store).test_registrations@.len() > 0 ==> exists|li: int|
                    #[trigger] old(store).is_latest_registration(li) && (match crate::json::p_catalog(
                        old(store).test_registrations@[li].metadata@,
                    ) {
                        Some(pc) => novel == spec_is_new_catalog(pc, catalog_rep(tests@)),
                        None => false,
                    }))
                &&& (novel ==> {
                    &&& final(store).test_registrations@.len() == old(
                        store,
                    ).test_registrations@.len() + 1
                    &&& final(store).test_registrations@.last().metadata@
                        == crate::json::ser_catalog(catalog_rep(tests@))
                    &&& final(store).test_registrations@.last().blob_url@ == blob_url@
                    &&& final(store).test_registrations@.last().hash@ == content_hash@
                    &&& final(store).test_registrations@.take(
                        old(store).test_registrations@.len() as int,
                    ) == old(store).test_registrations@
                })
                &&& (!novel ==> *final(store) == *old(store))
                &&& final(store).prompt_versions@ == old(store).prompt_versions@
                &&& final(store).evals@ == old(store).evals@
                &&& final(store).eval_results@ == old(store).eval_results@
            },
            Err(e) => {
                &&& e == RegistrationError::DeserializationError
                &&& *final(store) == *old(store)
                &&& exists|li: int|
                    #[trigger] old(store).is_latest_registration(li) && crate::json::p_catalog(
                        old(store).test_registrations@[li].metadata@,
                    ) == None::<Seq<(Seq<u8>, Seq<(Seq<u8>, Seq<u8>, Seq<u8>)>)>>
            },
        },
{
    let prev_index = store.latest_registration();
    let novel = match prev_index {
        Some(pi) => {
            let check = {
                let prev = &store.test_registrations[pi];
                is_new_registration(Some(prev), tests)
            };
            match check {
                Ok(b) => b,
                Err(e) => {
                    return Err(e);
                },
            }
        },
        None => true,
    };
    if novel {
        let metadata = crate::json::serialize_catalog(tests);
        let created_at = crate::clock::now_timestamp_millis();
        store.insert_test_registration(
            clone_bytes(blob_url),
            clone_bytes(content_hash),
            metadata,
            created_at,
        );
    }
    Ok(novel)
}

/// Submitting a catalog identical to the one just stored is not novel: the
/// stored bytes parse back to the same catalog, in which every incoming
/// descriptor is found under its own id. Ids must be distinct, as a mapping
/// guarantees.
pub proof fn lemma_registration_idempotent(c: Seq<(Seq<u8>, Seq<(Seq<u8>, Seq<u8>, Seq<u8>)>)>)
    requires
        forall|i: int, j: int| 0 <= i < j < c.len() ==> (#[trigger] c[i]).0 != (#[trigger] c[j]).0,
    ensures
        crate::json::p_catalog(crate::json::ser_catalog(c)) == Some(c),
        !spec_is_new_catalog(c, c),
{
    crate::json::lemma_catalog_round_trip(c);
    assert forall|i: int| 0 <= i < c.len() implies !entry_is_novel(c, #[trigger] c[i]) by {
        lemma_catalog_lookup_unique(c, i);
        let pvs = c[i].1;
        assert(forall|j: int| 0 <= j < c[i].1.len() ==> descriptor_known(pvs, #[trigger] c[i].1[j]));
    }
}

/// Under distinct ids, looking up the id of entry i yields entry i's own
/// descriptors.
proof fn lemma_catalog_lookup_unique(c: Seq<(Seq<u8>, Seq<(Seq<u8>, Seq<u8>, Seq<u8>)>)>, i: int)
    requires
        forall|a: int, b: int| 0 <= a < b < c.len() ==> (#[trigger] c[a]).0 != (#[trigger] c[b]).0,
        0 <= i < c.len(),
    ensures
        catalog_lookup(c, c[i].0) == Some(c[i].1),
    decreases c.len(),
{
    if i == 0 {
    } else {
        assert(c[0].0 != c[i].0);
        let d = c.drop_first();
        assert(forall|a: int, b: int|
            0 <= a < b < d.len() ==> (#[trigger] d[a]).0 != (#[trigger] d[b]).0) by {
            assert(forall|a: int| 0 <= a < d.len() ==> d[a] == c[a + 1]);
        }
        assert(d[i - 1] == c[i]);
        lemma_catalog_lookup_unique(d, i - 1);
    }
}

/// An incoming descriptor that matches no stored descriptor of its test id
/// makes the submission novel: a new version string, or a changed export
/// name or file path, forces a new snapshot.
pub proof fn lemma_changed_descriptor_is_new(
    prev: Seq<(Seq<u8>, Seq<(Seq<u8>, Seq<u8>, Seq<u8>)>)>,
    incoming: Seq<(Seq<u8>, Seq<(Seq<u8>, Seq<u8>, Seq<u8>)>)>,
    i: int,
    j: int,
)
    requires
        0 <= i < incoming.len(),
        0 <= j < incoming[i].1.len(),
        match catalog_lookup(prev, incoming[i].0) {
            Some(pvs) => !descriptor_known(pvs, incoming[i].1[j]),
            None => true,
        },
    ensures
        spec_is_new_catalog(prev, incoming),
{
    assert(entry_is_novel(prev, incoming[i]));
}

} // verus!
