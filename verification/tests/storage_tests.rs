use catchhook::models::StoredRequest;
use catchhook::storage::{Storage, StoreError};
use tempfile::TempDir;

fn create_test_storage() -> (Storage, TempDir) {
    let temp_dir = TempDir::new().unwrap();
    let storage = Storage::new(temp_dir.path().to_str().unwrap(), 100).unwrap();
    (storage, temp_dir)
}

fn create_test_request(id: u64) -> StoredRequest {
    StoredRequest {
        id,
        ts_ms: 1234567890 + id as i64,
        method: "POST".to_string(),
        path: format!("/webhook/{}", id),
        headers: vec![("content-type".to_string(), "application/json".to_string())],
        body: format!("{{\"test\": {}}}", id).into_bytes(),
    }
}

#[test]
fn test_storage_creation() {
    let (storage, _temp_dir) = create_test_storage();
    assert_eq!(storage.next_id(), 0);
}

#[test]
fn test_insert_and_retrieve() {
    let (mut storage, _temp_dir) = create_test_storage();
    let request = create_test_request(1);

    storage.insert(&request).unwrap();

    let latest = storage.latest(10).unwrap();
    assert_eq!(latest.len(), 1);
    assert_eq!(latest[0].id, 1);
    assert_eq!(latest[0].method, "POST");
    assert_eq!(latest[0].path, "/webhook/1");
}

#[test]
fn test_multiple_inserts() {
    let (mut storage, _temp_dir) = create_test_storage();

    for i in 1..=5 {
        let request = create_test_request(i);
        storage.insert(&request).unwrap();
    }

    let latest = storage.latest(10).unwrap();
    assert_eq!(latest.len(), 5);

    assert_eq!(latest[0].id, 5);
    assert_eq!(latest[4].id, 1);
}

#[test]
fn test_pruning_when_exceeding_max_reqs() {
    let temp_dir = TempDir::new().unwrap();
    let mut storage = Storage::new(temp_dir.path().to_str().unwrap(), 3).unwrap();

    for i in 1..=5 {
        let request = create_test_request(i);
        storage.insert(&request).unwrap();
    }

    let latest = storage.latest(10).unwrap();
    assert!(latest.len() <= 3);

    let ids: Vec<u64> = latest.iter().map(|r| r.id).collect();
    assert!(ids.contains(&5));
    assert!(ids.contains(&4));
    assert!(ids.contains(&3));
}

#[test]
fn test_empty_storage() {
    let (storage, _temp_dir) = create_test_storage();
    let latest = storage.latest(10).unwrap();
    assert_eq!(latest.len(), 0);
}

#[test]
fn test_limit_functionality() {
    let (mut storage, _temp_dir) = create_test_storage();

    for i in 1..=10 {
        let request = create_test_request(i);
        storage.insert(&request).unwrap();
    }

    let latest = storage.latest(5).unwrap();
    assert_eq!(latest.len(), 5);

    let ids: Vec<u64> = latest.iter().map(|r| r.id).collect();
    assert_eq!(ids, vec![10, 9, 8, 7, 6]);
}

#[test]
fn test_storage_integration() {
    let temp_dir = TempDir::new().unwrap();
    let mut storage = Storage::new(temp_dir.path().to_str().unwrap(), 5).unwrap();

    assert_eq!(storage.latest(10).unwrap().len(), 0);

    let request = StoredRequest {
        id: 1,
        ts_ms: 1234567890,
        method: "POST".to_string(),
        path: "/webhook".to_string(),
        headers: vec![("content-type".to_string(), "application/json".to_string())],
        body: b"test data".to_vec(),
    };

    storage.insert(&request).unwrap();

    let latest = storage.latest(10).unwrap();
    assert_eq!(latest.len(), 1);
    assert_eq!(latest[0].id, 1);
    assert_eq!(latest[0].method, "POST");
}

#[test]
fn test_allocated_ids_strictly_increase() {
    let (mut storage, _temp_dir) = create_test_storage();
    let a = storage.alloc_id();
    let b = storage.alloc_id();
    let c = storage.alloc_id();
    assert_eq!((a, b, c), (1, 2, 3));
    assert!(a < b && b < c);
    assert_eq!(storage.next_id(), 3);
}

#[test]
fn test_latest_zero_limit() {
    let (mut storage, _temp_dir) = create_test_storage();
    storage.insert(&create_test_request(1)).unwrap();
    assert_eq!(storage.latest(0).unwrap().len(), 0);
}

#[test]
fn test_reopen_recovers_next_id() {
    let temp_dir = TempDir::new().unwrap();
    let dir = temp_dir.path().to_str().unwrap();
    {
        let mut storage = Storage::new(dir, 100).unwrap();
        for _ in 0..3 {
            let id = storage.alloc_id();
            storage.insert(&create_test_request(id)).unwrap();
        }
        assert_eq!(storage.next_id(), 3);
    }
    let mut reopened = Storage::new(dir, 100).unwrap();
    assert_eq!(reopened.next_id(), 3);
    assert_eq!(reopened.alloc_id(), 4);
    assert_eq!(reopened.latest(10).unwrap().len(), 3);
}

#[test]
fn test_capacity_scenario() {
    let temp_dir = TempDir::new().unwrap();
    let mut storage = Storage::new(temp_dir.path().to_str().unwrap(), 3).unwrap();

    for _ in 0..5 {
        let id = storage.alloc_id();
        storage.insert(&create_test_request(id)).unwrap();
    }

    let ids: Vec<u64> = storage.latest(10).unwrap().iter().map(|r| r.id).collect();
    assert_eq!(ids, vec![5, 4, 3]);

    assert!(storage.get_by_id(1).unwrap().is_none());
    assert!(storage.get_by_id(2).unwrap().is_none());
    let found = storage.get_by_id(5).unwrap().expect("id 5 must be present");
    assert_eq!(found.path, "/webhook/5");
}

#[test]
fn test_open_creates_missing_directory() {
    let temp_dir = TempDir::new().unwrap();
    let missing = temp_dir.path().join("no").join("such").join("dir");
    let mut storage = Storage::new(missing.to_str().unwrap(), 10).unwrap();
    assert_eq!(storage.next_id(), 0);
    storage.insert(&create_test_request(1)).unwrap();
    assert_eq!(storage.latest(10).unwrap().len(), 1);
}

#[test]
fn test_open_failure_surfaces_error() {
    let temp_dir = TempDir::new().unwrap();
    let file_path = temp_dir.path().join("occupied");
    fs_err::write(&file_path, b"not a directory").unwrap();
    let blocked = file_path.join("sub");
    let result = Storage::new(blocked.to_str().unwrap(), 10);
    assert!(matches!(result, Err(StoreError::Storage)));
}

#[test]
fn test_insert_replaces_same_id() {
    let (mut storage, _temp_dir) = create_test_storage();
    let mut first = create_test_request(1);
    first.path = "/old".to_string();
    storage.insert(&first).unwrap();
    let mut second = create_test_request(1);
    second.path = "/new".to_string();
    storage.insert(&second).unwrap();

    let latest = storage.latest(10).unwrap();
    assert_eq!(latest.len(), 1);
    assert_eq!(latest[0].path, "/new");
}
