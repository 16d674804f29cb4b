use ellmo::compare::SingleEvalScore;
use ellmo::json::{parse_catalog, parse_scores, serialize_catalog, serialize_scores};
use ellmo::register::{Test, TestCatalogEntry};

fn score(hash: &str, value: i64) -> SingleEvalScore {
    SingleEvalScore { eval_hash: hash.as_bytes().to_vec(), score: value }
}

#[test]
fn scores_serialize_to_canonical_bytes() {
    let scores = vec![score("a", 1500)];
    let bytes = serialize_scores(&scores);
    assert_eq!(bytes, b"[{\"eval_hash\":\"a\",\"score\":1500}]".to_vec());
}

#[test]
fn negative_scores_serialize_with_sign() {
    let scores = vec![score("a", -5)];
    let bytes = serialize_scores(&scores);
    assert_eq!(bytes, b"[{\"eval_hash\":\"a\",\"score\":-5}]".to_vec());
}

#[test]
fn scores_round_trip() {
    let scores = vec![score("a", 1000), score("b", -42), score("c", 0)];
    let bytes = serialize_scores(&scores);
    let back = parse_scores(&bytes).unwrap();
    assert_eq!(back.len(), 3);
    assert_eq!(back[0].eval_hash, b"a".to_vec());
    assert_eq!(back[0].score, 1000);
    assert_eq!(back[1].eval_hash, b"b".to_vec());
    assert_eq!(back[1].score, -42);
    assert_eq!(back[2].eval_hash, b"c".to_vec());
    assert_eq!(back[2].score, 0);
}

#[test]
fn empty_scores_round_trip() {
    let scores: Vec<SingleEvalScore> = Vec::new();
    let bytes = serialize_scores(&scores);
    assert_eq!(bytes, b"[]".to_vec());
    let back = parse_scores(&bytes).unwrap();
    assert!(back.is_empty());
}

#[test]
fn score_hashes_with_quotes_and_backslashes_round_trip() {
    let hash: Vec<u8> = b"a\"b\\c".to_vec();
    let scores = vec![SingleEvalScore { eval_hash: hash.clone(), score: 9 }];
    let bytes = serialize_scores(&scores);
    let back = parse_scores(&bytes).unwrap();
    assert_eq!(back[0].eval_hash, hash);
}

#[test]
fn extreme_scores_round_trip() {
    let scores = vec![score("lo", i64::MIN), score("hi", i64::MAX)];
    let bytes = serialize_scores(&scores);
    let back = parse_scores(&bytes).unwrap();
    assert_eq!(back[0].score, i64::MIN);
    assert_eq!(back[1].score, i64::MAX);
}

#[test]
fn malformed_scores_are_rejected() {
    assert!(parse_scores(&b"[".to_vec()).is_none());
    assert!(parse_scores(&b"".to_vec()).is_none());
    assert!(parse_scores(&b"[]x".to_vec()).is_none());
    assert!(parse_scores(&b"{\"eval_hash\":\"a\"}".to_vec()).is_none());
    assert!(parse_scores(&b"[{\"eval_hash\":\"a\",\"score\":1.5}]".to_vec()).is_none());
}

#[test]
fn catalog_serializes_to_canonical_bytes() {
    let catalog = vec![TestCatalogEntry {
        test_id: b"test_id".to_vec(),
        tests: vec![Test {
            version: b"1.0.0".to_vec(),
            export_name: b"e".to_vec(),
            file_path: b"f".to_vec(),
        }],
    }];
    let bytes = serialize_catalog(&catalog);
    assert_eq!(
        bytes,
        b"{\"test_id\":[{\"version\":\"1.0.0\",\"export_name\":\"e\",\"file_path\":\"f\"}]}"
            .to_vec()
    );
}

#[test]
fn catalog_round_trip() {
    let catalog = vec![
        TestCatalogEntry {
            test_id: b"one".to_vec(),
            tests: vec![
                Test {
                    version: b"1.0.0".to_vec(),
                    export_name: b"alpha".to_vec(),
                    file_path: b"src/a.ts".to_vec(),
                },
                Test {
                    version: b"1.0.1".to_vec(),
                    export_name: b"beta".to_vec(),
                    file_path: b"src/b.ts".to_vec(),
                },
            ],
        },
        TestCatalogEntry { test_id: b"two".to_vec(), tests: Vec::new() },
    ];
    let bytes = serialize_catalog(&catalog);
    let back = parse_catalog(&bytes).unwrap();
    assert_eq!(back.len(), 2);
    assert_eq!(back[0].test_id, b"one".to_vec());
    assert_eq!(back[0].tests.len(), 2);
    assert_eq!(back[0].tests[1].export_name, b"beta".to_vec());
    assert_eq!(back[1].test_id, b"two".to_vec());
    assert!(back[1].tests.is_empty());
}

#[test]
fn empty_catalog_round_trip() {
    let catalog: Vec<TestCatalogEntry> = Vec::new();
    let bytes = serialize_catalog(&catalog);
    assert_eq!(bytes, b"{}".to_vec());
    let back = parse_catalog(&bytes).unwrap();
    assert!(back.is_empty());
}

#[test]
fn malformed_catalogs_are_rejected() {
    assert!(parse_catalog(&b"{".to_vec()).is_none());
    assert!(parse_catalog(&b"[]".to_vec()).is_none());
    assert!(parse_catalog(&b"{\"a\":1}".to_vec()).is_none());
    assert!(parse_catalog(&b"{\"a\":[{}]}".to_vec()).is_none());
    assert!(parse_catalog(&b"{}trailing".to_vec()).is_none());
}
