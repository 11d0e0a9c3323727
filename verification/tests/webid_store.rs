use hkask_templates::webid_store::{StoredCapability, StoredWebIDEntry, WebIDStore, WebIDStoreError};
use std::time::{SystemTime, UNIX_EPOCH};

fn now_secs() -> i64 {
    SystemTime::now().duration_since(UNIX_EPOCH).unwrap().as_secs() as i64
}

fn new_webid() -> String {
    format!("did:webid:{}", uuid::Uuid::new_v4())
}

fn entry(webid: &str, capabilities: Vec<StoredCapability>, created_at: i64, active: bool) -> StoredWebIDEntry {
    StoredWebIDEntry { webid: webid.to_string(), capabilities, created_at, last_used_at: None, active }
}

fn capability(issuer: &str, subject: &str) -> StoredCapability {
    StoredCapability {
        macaroon_hex: "0a0b0c".to_string(),
        operations: vec!["generate".to_string(), "chat".to_string()],
        issuer: issuer.to_string(),
        subject: subject.to_string(),
        expires_at: Some(now_secs() + 30 * 24 * 60 * 60),
        template_id: None,
        visibility: "private".to_string(),
    }
}

#[test]
fn test_store_and_retrieve() {
    let mut store = WebIDStore::in_memory().unwrap();
    let webid = new_webid();
    let stored_cap = capability(&new_webid(), &webid);
    let entry = entry(&webid, vec![stored_cap], now_secs(), true);
    store.store(&entry).unwrap();
    let retrieved = store.get(&webid).unwrap().unwrap();
    assert_eq!(retrieved.webid, entry.webid);
    assert_eq!(retrieved.capabilities.len(), 1);
    assert!(retrieved.active);
}

#[test]
fn test_delete() {
    let mut store = WebIDStore::in_memory().unwrap();
    let webid = new_webid();
    store.store(&entry(&webid, vec![], now_secs(), true)).unwrap();
    assert!(store.get(&webid).unwrap().is_some());
    store.delete(&webid).unwrap();
    assert!(store.get(&webid).unwrap().is_none());
}

#[test]
fn test_list_active() {
    let mut store = WebIDStore::in_memory().unwrap();
    for _ in 0..3 {
        store.store(&entry(&new_webid(), vec![], now_secs(), true)).unwrap();
    }
    let active = store.list_active().unwrap();
    assert_eq!(active.len(), 3);
}

#[test]
fn test_mark_used() {
    let mut store = WebIDStore::in_memory().unwrap();
    let webid = new_webid();
    store.store(&entry(&webid, vec![], now_secs(), true)).unwrap();
    let before = store.get(&webid).unwrap().unwrap();
    assert!(before.last_used_at.is_none());
    store.mark_used(&webid).unwrap();
    let after = store.get(&webid).unwrap().unwrap();
    assert!(after.last_used_at.is_some());
}

#[test]
fn storing_again_keeps_first_created_at() {
    let mut store = WebIDStore::in_memory().unwrap();
    store.store(&entry("w", vec![], 100, true)).unwrap();
    store.store(&entry("w", vec![capability("i", "w")], 999, false)).unwrap();
    let e = store.get("w").unwrap().unwrap();
    assert_eq!(e.created_at, 100);
    assert!(!e.active);
    assert_eq!(e.capabilities.len(), 1);
    assert_eq!(e.capabilities[0].operations, vec!["generate".to_string(), "chat".to_string()]);
}

#[test]
fn list_active_is_newest_first_without_inactive() {
    let mut store = WebIDStore::in_memory().unwrap();
    store.store(&entry("a", vec![], 10, true)).unwrap();
    store.store(&entry("b", vec![], 30, true)).unwrap();
    store.store(&entry("c", vec![], 20, false)).unwrap();
    store.store(&entry("d", vec![], 20, true)).unwrap();
    let ids: Vec<String> = store.list_active().unwrap().into_iter().map(|e| e.webid).collect();
    assert_eq!(ids, vec!["b".to_string(), "d".to_string(), "a".to_string()]);
    let stats = store.stats().unwrap();
    assert_eq!((stats.total_entries, stats.active_entries), (4, 3));
}

#[test]
fn deleting_or_marking_unknown_webid_changes_nothing() {
    let mut store = WebIDStore::in_memory().unwrap();
    store.store(&entry("a", vec![], 10, true)).unwrap();
    store.delete("zz").unwrap();
    store.mark_used("zz").unwrap();
    assert!(store.get("zz").unwrap().is_none());
    assert_eq!(store.stats().unwrap().total_entries, 1);
}

#[test]
fn webid_store_error_messages() {
    assert_eq!(WebIDStoreError::WebIDNotFound("x".to_string()).message(), "WebID not found: x");
    assert_eq!(WebIDStoreError::Database("locked".to_string()).message(), "Database error: locked");
}
