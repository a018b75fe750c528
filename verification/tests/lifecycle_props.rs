use zero::ingest::{IngestError, RawField};
use zero::store::{Database, ReadOutcome, StoreError};

fn bytes(s: &str) -> Vec<u8> {
    s.as_bytes().to_vec()
}

fn field(name: &str, data: &str) -> RawField {
    RawField { name: bytes(name), filename: None, data: bytes(data) }
}

fn digest_id(digest: &[u8]) -> Vec<u8> {
    let mut raw = vec![b'+'];
    raw.extend_from_slice(digest);
    raw
}

#[test]
fn create_read_delete_round_trip() {
    let salt = bytes("salt");
    let mut db = Database::new();
    let it = db.create(&vec![field("c", "hello")], &salt, 1000).unwrap();
    assert_eq!(it.digest.len(), 43);
    assert_eq!(it.label, bytes("AQ"));
    assert_eq!(it.content.len(), 5);
    let url = it.url(&bytes("example.org"));
    assert_eq!(url, bytes("https://example.org/AQ"));

    let raw = digest_id(&it.digest);
    match db.read_item(&raw, 1000).unwrap() {
        ReadOutcome::Stored { content, mimetype, .. } => {
            assert_eq!(content, bytes("hello"));
            assert!(!mimetype.is_empty());
        },
        ReadOutcome::Redirect { .. } => panic!("a blob read must not redirect"),
    }

    let deleted = db.delete_item_by_digest(&raw).unwrap();
    assert_eq!(deleted.id, 1);
    assert!(matches!(db.read_item(&raw, 1000), Err(StoreError::NotFound)));
}

#[test]
fn url_item_reads_as_redirect_by_label() {
    let salt = bytes("salt");
    let mut db = Database::new();
    let it = db.create(&vec![field("u", "http://example.com")], &salt, 1000).unwrap();
    assert!(it.is_url);
    match db.read_item(&bytes("AQ"), 1000).unwrap() {
        ReadOutcome::Redirect { location, .. } => {
            assert_eq!(location, bytes("http://example.com"));
        },
        ReadOutcome::Stored { .. } => panic!("a url read must redirect"),
    }
}

#[test]
fn mixed_content_and_url_persists_nothing_but_consumes_the_id() {
    let salt = bytes("salt");
    let mut db = Database::new();
    let r = db.create(&vec![field("c", "data"), field("u", "http://x")], &salt, 1000);
    assert!(matches!(r, Err(IngestError::MixedContentAndUrl)));
    assert_eq!(db.items.len(), 0);
    let it = db.create(&vec![field("c", "later")], &salt, 1000).unwrap();
    assert_eq!(it.id, 2);
}

#[test]
fn private_item_hidden_from_label_lookup_but_found_by_digest() {
    let salt = bytes("salt");
    let mut db = Database::new();
    let it = db.create(&vec![field("c", "secret"), field("private", "true")], &salt, 1000)
        .unwrap();
    assert!(it.private);
    assert!(matches!(db.read_item(&it.label.clone(), 1000), Err(StoreError::NotFound)));
    match db.read_item(&digest_id(&it.digest), 1000).unwrap() {
        ReadOutcome::Stored { content, .. } => assert_eq!(content, bytes("secret")),
        ReadOutcome::Redirect { .. } => panic!("a blob read must not redirect"),
    }
}

#[test]
fn destruct_read_within_grace_window_keeps_the_item() {
    let salt = bytes("salt");
    let mut db = Database::new();
    let it = db.create(&vec![field("c", "once"), field("destruct", "true")], &salt, 1000)
        .unwrap();
    let raw = digest_id(&it.digest);
    assert!(db.read_item(&raw, 1005).is_ok());
    assert!(db.read_item(&raw, 1009).is_ok());
    assert_eq!(db.items.len(), 1);
}

#[test]
fn destruct_read_after_grace_window_removes_the_item() {
    let salt = bytes("salt");
    let mut db = Database::new();
    let it = db.create(&vec![field("c", "once"), field("destruct", "true")], &salt, 1000)
        .unwrap();
    let raw = digest_id(&it.digest);
    match db.read_item(&raw, 1011).unwrap() {
        ReadOutcome::Stored { content, .. } => assert_eq!(content, bytes("once")),
        ReadOutcome::Redirect { .. } => panic!("a blob read must not redirect"),
    }
    assert!(matches!(db.read_item(&raw, 1011), Err(StoreError::NotFound)));
    assert_eq!(db.items.len(), 0);
}

#[test]
fn sunset_sweep_removes_due_items_and_is_idempotent() {
    let salt = bytes("salt");
    let mut db = Database::new();
    db.create(&vec![field("c", "soon"), field("sunset", "1")], &salt, 1000).unwrap();
    db.create(&vec![field("c", "keeps")], &salt, 1000).unwrap();
    db.create(&vec![field("c", "later"), field("sunset", "100000")], &salt, 1000).unwrap();
    // At 1061 the first item's sunset (1000 + 60) has arrived.
    assert_eq!(db.sunset_items(1061), 1);
    assert_eq!(db.items.len(), 2);
    assert_eq!(db.sunset_items(1061), 0);
    assert_eq!(db.items.len(), 2);
}

#[test]
fn update_replaces_content_and_keeps_the_id() {
    let salt = bytes("salt");
    let mut db = Database::new();
    let it = db.create(&vec![field("c", "first")], &salt, 1000).unwrap();
    let raw = digest_id(&it.digest);
    let updated = db.update(&raw, &vec![field("c", "second")], &salt, 1200).unwrap();
    assert_eq!(updated.id, it.id);
    assert_eq!(updated.content, bytes("second"));
    assert_ne!(updated.digest, it.digest);
    // The old digest no longer resolves; the new one does.
    assert!(matches!(db.read_item(&raw, 1200), Err(StoreError::NotFound)));
    assert!(db.read_item(&digest_id(&updated.digest), 1200).is_ok());
}

#[test]
fn update_keeps_unspecified_fields_from_prior_state() {
    let salt = bytes("salt");
    let mut db = Database::new();
    let it = db.create(&vec![field("c", "keep"), field("private", "true")], &salt, 1000)
        .unwrap();
    let updated = db.update(&digest_id(&it.digest), &vec![field("label", "name")], &salt, 1100)
        .unwrap();
    assert!(updated.private);
    assert_eq!(updated.content, bytes("keep"));
    assert_eq!(updated.label, bytes("~name"));
}

#[test]
fn update_of_missing_item_is_not_found() {
    let salt = bytes("salt");
    let mut db = Database::new();
    let r = db.update(&bytes("nope"), &vec![field("c", "x")], &salt, 1000);
    assert!(matches!(r, Err(StoreError::NotFound)));
}

#[test]
fn delete_requires_the_digest_form() {
    let salt = bytes("salt");
    let mut db = Database::new();
    let it = db.create(&vec![field("c", "hello")], &salt, 1000).unwrap();
    // The bare label is not a digest-qualified id.
    assert!(matches!(db.delete_item_by_digest(&it.label.clone()), Err(StoreError::NotFound)));
    assert_eq!(db.items.len(), 1);
}

#[test]
fn get_item_resolves_without_side_effects() {
    let salt = bytes("salt");
    let mut db = Database::new();
    let it = db.create(&vec![field("c", "stay"), field("destruct", "true")], &salt, 1000)
        .unwrap();
    // Far past the grace window, but a bare lookup never destructs.
    let got = db.get_item(&digest_id(&it.digest)).unwrap();
    assert_eq!(got.content, bytes("stay"));
    assert_eq!(db.items.len(), 1);
}

#[test]
fn delete_item_removes_by_id() {
    let salt = bytes("salt");
    let mut db = Database::new();
    let it = db.create(&vec![field("c", "gone")], &salt, 1000).unwrap();
    let removed = db.delete_item(&it).unwrap();
    assert_eq!(removed.id, it.id);
    assert!(matches!(db.delete_item(&it), Err(StoreError::NotFound)));
}

#[test]
fn private_item_url_uses_the_digest_form() {
    let salt = bytes("salt");
    let mut db = Database::new();
    let it = db.create(&vec![field("c", "p"), field("private", "true")], &salt, 1000).unwrap();
    let url = it.url(&bytes("example.org"));
    let mut expected = bytes("https://example.org/+");
    expected.extend_from_slice(&it.digest);
    assert_eq!(url, expected);
}
