use ellmo::json::serialize_catalog;
use ellmo::register::{is_new_registration, Test, TestCatalogEntry};
use ellmo::store::TestRegistration;

fn create_test(version: &str, export_name: &str, file_path: &str) -> Test {
    Test {
        version: version.as_bytes().to_vec(),
        export_name: export_name.as_bytes().to_vec(),
        file_path: file_path.as_bytes().to_vec(),
    }
}

fn entry(test_id: &str, tests: Vec<Test>) -> TestCatalogEntry {
    TestCatalogEntry { test_id: test_id.as_bytes().to_vec(), tests }
}

fn create_test_registration(meta: Vec<TestCatalogEntry>) -> TestRegistration {
    TestRegistration {
        id: 1,
        blob_url: b"https://example.com".to_vec(),
        hash: Vec::new(),
        metadata: serialize_catalog(&meta),
        created_at: 0,
    }
}

#[test]
fn test_no_previous_registration() {
    let tests: Vec<TestCatalogEntry> = Vec::new();
    assert!(is_new_registration(None, &tests).unwrap());
}

#[test]
fn test_identical_registration() {
    let prev_metadata = vec![entry(
        "test_id",
        vec![create_test("1.0.0", "export_name", "file_path")],
    )];
    let tests = vec![entry(
        "test_id",
        vec![create_test("1.0.0", "export_name", "file_path")],
    )];
    let prev_registration = create_test_registration(prev_metadata);
    assert!(!is_new_registration(Some(&prev_registration), &tests).unwrap());
}

#[test]
fn test_new_test_id() {
    let prev_metadata: Vec<TestCatalogEntry> = Vec::new();
    let tests = vec![entry(
        "new_test_id",
        vec![create_test("1.0.0", "export_name", "file_path")],
    )];
    let prev_registration = create_test_registration(prev_metadata);
    assert!(is_new_registration(Some(&prev_registration), &tests).unwrap());
}

#[test]
fn test_new_version() {
    let prev_metadata = vec![entry(
        "test_id",
        vec![create_test("1.0.0", "export_name", "file_path")],
    )];
    let tests = vec![entry(
        "test_id",
        vec![
            create_test("1.0.0", "export_name", "file_path"),
            create_test("1.0.1", "export_name", "file_path"),
        ],
    )];
    let prev_registration = create_test_registration(prev_metadata);
    assert!(is_new_registration(Some(&prev_registration), &tests).unwrap());
}

#[test]
fn test_changed_export_name() {
    let prev_metadata = vec![entry(
        "test_id",
        vec![create_test("1.0.0", "old_export_name", "file_path")],
    )];
    let tests = vec![entry(
        "test_id",
        vec![create_test("1.0.0", "new_export_name", "file_path")],
    )];
    let prev_registration = create_test_registration(prev_metadata);
    assert!(is_new_registration(Some(&prev_registration), &tests).unwrap());
}

#[test]
fn test_changed_file_path() {
    let prev_metadata = vec![entry(
        "test_id",
        vec![create_test("1.0.0", "export_name", "old_file_path")],
    )];
    let tests = vec![entry(
        "test_id",
        vec![create_test("1.0.0", "export_name", "new_file_path")],
    )];
    let prev_registration = create_test_registration(prev_metadata);
    assert!(is_new_registration(Some(&prev_registration), &tests).unwrap());
}

#[test]
fn test_invalid_metadata() {
    let prev_registration = TestRegistration {
        id: 1,
        blob_url: b"https://example.com".to_vec(),
        hash: Vec::new(),
        metadata: b"{\"invalid\":\"data\"}".to_vec(),
        created_at: 0,
    };
    let tests: Vec<TestCatalogEntry> = Vec::new();
    assert!(is_new_registration(Some(&prev_registration), &tests).is_err());
}

#[test]
fn registration_deletion_is_not_novel() {
    let prev_metadata = vec![
        entry("a", vec![create_test("1.0.0", "e", "f")]),
        entry("b", vec![create_test("1.0.0", "e", "f")]),
    ];
    let tests = vec![entry("a", vec![create_test("1.0.0", "e", "f")])];
    let prev_registration = create_test_registration(prev_metadata);
    assert!(!is_new_registration(Some(&prev_registration), &tests).unwrap());
}

#[test]
fn registration_empty_descriptor_list_for_new_id_is_novel() {
    let prev_metadata = vec![entry("a", vec![create_test("1.0.0", "e", "f")])];
    let tests = vec![entry("b", Vec::new())];
    let prev_registration = create_test_registration(prev_metadata);
    assert!(is_new_registration(Some(&prev_registration), &tests).unwrap());
}
