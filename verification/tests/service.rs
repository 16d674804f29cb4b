use ellmo::bignat::BigNat;
use ellmo::clock::now_timestamp_millis;
use ellmo::register::{process_registration, RegisterTestJob, Test, TestCatalogEntry};
use ellmo::store::VersionStore;
use ellmo::sync::{Recipient, SyncType};

fn catalog(version: &str) -> Vec<TestCatalogEntry> {
    vec![TestCatalogEntry {
        test_id: b"test_id".to_vec(),
        tests: vec![Test {
            version: version.as_bytes().to_vec(),
            export_name: b"export_name".to_vec(),
            file_path: b"file_path".to_vec(),
        }],
    }]
}

#[test]
fn first_submission_is_stored() {
    let mut store = VersionStore::new();
    let url = b"https://blobs.example/1".to_vec();
    let hash = b"abc123".to_vec();
    let novel = process_registration(&mut store, &catalog("1.0.0"), &url, &hash).unwrap();
    assert!(novel);
    assert_eq!(store.test_registrations.len(), 1);
    assert_eq!(store.test_registrations[0].blob_url, url);
    assert_eq!(store.test_registrations[0].hash, hash);
}

#[test]
fn identical_submission_is_not_stored_again() {
    let mut store = VersionStore::new();
    let url = b"https://blobs.example/1".to_vec();
    let hash = b"abc123".to_vec();
    assert!(process_registration(&mut store, &catalog("1.0.0"), &url, &hash).unwrap());
    assert!(!process_registration(&mut store, &catalog("1.0.0"), &url, &hash).unwrap());
    assert_eq!(store.test_registrations.len(), 1);
}

#[test]
fn changed_submission_is_stored() {
    let mut store = VersionStore::new();
    let url = b"https://blobs.example/1".to_vec();
    let hash = b"abc123".to_vec();
    assert!(process_registration(&mut store, &catalog("1.0.0"), &url, &hash).unwrap());
    assert!(process_registration(&mut store, &catalog("1.0.1"), &url, &hash).unwrap());
    assert_eq!(store.test_registrations.len(), 2);
}

#[test]
fn corrupt_stored_catalog_fails_the_check() {
    let mut store = VersionStore::new();
    store.insert_test_registration(
        b"https://example.com".to_vec(),
        Vec::new(),
        b"not a catalog".to_vec(),
        0,
    );
    let url = b"u".to_vec();
    let hash = b"h".to_vec();
    assert!(process_registration(&mut store, &catalog("1.0.0"), &url, &hash).is_err());
    assert_eq!(store.test_registrations.len(), 1);
}

#[test]
fn bignat_tracks_large_products() {
    // (2^64 - 1) * 1000 + 5 in unbounded arithmetic
    let mut a = BigNat::from_u64(u64::MAX);
    a.mul_word(1000);
    let five = BigNat::from_u64(5);
    a.add_nat(&five);
    let mut b = BigNat::from_u64(u64::MAX);
    b.mul_word(1000);
    assert!(b.le(&a));
    assert!(!a.le(&b));
    let c = a.duplicate();
    assert!(a.le(&c));
    assert!(c.le(&a));
}

#[test]
fn bignat_multiplying_by_zero_clears() {
    let mut a = BigNat::from_u64(12345);
    a.mul_word(0);
    let zero = BigNat::from_u64(0);
    assert!(a.le(&zero));
    assert!(zero.le(&a));
}

#[test]
fn evals_are_listed_most_recent_first() {
    let mut store = VersionStore::new();
    let pv = store.insert_prompt_version(&b"p".to_vec(), &b"1.0.0".to_vec(), 0);
    let pv_id = store.prompt_versions[pv].id;
    store.insert_eval(&b"old".to_vec(), pv_id, 10);
    store.insert_eval(&b"newest".to_vec(), pv_id, 30);
    store.insert_eval(&b"tied_early".to_vec(), pv_id, 20);
    store.insert_eval(&b"tied_late".to_vec(), pv_id, 20);
    let order = store.evals_by_recency();
    let names: Vec<&[u8]> = order.iter().map(|&i| store.evals[i].name.as_slice()).collect();
    assert_eq!(
        names,
        vec![
            b"newest".as_slice(),
            b"tied_late".as_slice(),
            b"tied_early".as_slice(),
            b"old".as_slice(),
        ]
    );
}

#[test]
fn first_result_for_eval_reads_back_the_first_row() {
    let mut store = VersionStore::new();
    let pv = store.insert_prompt_version(&b"p".to_vec(), &b"1.0.0".to_vec(), 0);
    let pv_id = store.prompt_versions[pv].id;
    let ev = store.insert_eval(&b"e".to_vec(), pv_id, 0);
    let eval_id = store.evals[ev].id;
    store.insert_eval_result(eval_id, b"first".to_vec(), 1);
    store.insert_eval_result(eval_id, b"second".to_vec(), 2);
    let i = store.first_result_for_eval(eval_id).unwrap();
    assert_eq!(store.eval_results[i].scores, b"first".to_vec());
    assert!(store.first_result_for_eval(eval_id + 100).is_none());
}

#[test]
fn clock_reports_a_modern_timestamp() {
    assert!(now_timestamp_millis() > 1_000_000_000_000);
}

#[test]
fn message_shapes_carry_their_fields() {
    assert_eq!(SyncType::Create, SyncType::Create);
    assert_ne!(SyncType::Update, SyncType::Delete);
    assert_eq!(Recipient::User(7), Recipient::User(7));
    assert_ne!(Recipient::User(7), Recipient::Organization(7));
    let job = RegisterTestJob { content: b"export const t = 1;".to_vec() };
    assert_eq!(job.content, b"export const t = 1;".to_vec());
}
