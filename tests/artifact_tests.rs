use raro_kernel::artifacts::ArtifactStore;

#[test]
fn artifact_reads_back_identical_within_ttl() {
    let mut store = ArtifactStore::new();
    let json = "{\"result\":\"café\",\"files_generated\":[\"a.csv\"]}".as_bytes().to_vec();
    store.store_artifact("r1", "agent", json.clone(), 1000);
    assert_eq!(store.fetch_artifact("r1", "agent", 1000), Some(json.clone()));
    assert_eq!(store.fetch_artifact("r1", "agent", 4599), Some(json.clone()));
    assert_eq!(store.fetch_artifact("r1", "agent", 4600), None);
    assert_eq!(store.fetch_artifact("r1", "other", 1000), None);
    assert_eq!(store.get("run:r1:agent:agent:output", 1001), Some(json));
}

#[test]
fn put_replaces_and_keeps_other_keys() {
    let mut store = ArtifactStore::new();
    store.put("a".to_string(), vec![1, 2], 0, 10);
    store.put("b".to_string(), vec![3], 0, 10);
    store.put("a".to_string(), vec![9], 5, 10);
    assert_eq!(store.get("a", 14), Some(vec![9]));
    assert_eq!(store.get("a", 15), None);
    assert_eq!(store.get("b", 9), Some(vec![3]));
    store.put("c".to_string(), vec![7], u64::MAX - 1, 100);
    assert_eq!(store.get("c", u64::MAX - 1), Some(vec![7]));
}
