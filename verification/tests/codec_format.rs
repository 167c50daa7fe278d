use inmemory_store::store::InMemoryStore;
use std::collections::BTreeMap;
use std::collections::HashMap;

#[test]
fn empty_store_serializes_to_empty_objects() {
    let store = InMemoryStore::new(None, None);
    assert_eq!(store.serialize_kv(), b"{}".to_vec());
    assert_eq!(store.serialize_lists(), b"{}".to_vec());
}

#[test]
fn scalar_document_is_canonical_json() {
    let mut store = InMemoryStore::new(None, None);
    store.set("user", "bob");
    assert_eq!(store.serialize_kv(), b"{\"user\":\"bob\"}".to_vec());
}

#[test]
fn list_document_is_canonical_json() {
    let mut store = InMemoryStore::new(None, None);
    store.append("tasks", "a");
    store.append("tasks", "b");
    assert_eq!(store.serialize_lists(), b"{\"tasks\":[\"a\",\"b\"]}".to_vec());
}

#[test]
fn escapes_are_encoded_as_json_escapes() {
    let mut store = InMemoryStore::new(None, None);
    store.set("k", "a\"b\\c\nd");
    assert_eq!(
        store.serialize_kv(),
        b"{\"k\":\"a\\\"b\\\\c\\u000ad\"}".to_vec()
    );
}

#[test]
fn whitespace_between_tokens_is_accepted() {
    let doc = b" { \"a\" : \"b\" , \"c\" : \"d\" } \n".to_vec();
    let store = InMemoryStore::new(Some(doc), None);
    assert_eq!(store.get_scalar("a").unwrap().as_slice(), b"b");
    assert_eq!(store.get_scalar("c").unwrap().as_slice(), b"d");
}

#[test]
fn named_and_unicode_escapes_are_decoded() {
    let doc = b"{\"a\":\"\\u0041\\t\\/\\b\\f\"}".to_vec();
    let store = InMemoryStore::new(Some(doc), None);
    assert_eq!(
        store.get_scalar("a").unwrap().as_slice(),
        b"A\t/\x08\x0c"
    );
}

#[test]
fn empty_list_value_is_accepted() {
    let doc = b"{\"l\":[]}".to_vec();
    let store = InMemoryStore::new(None, Some(doc));
    let empty: Vec<Vec<u8>> = Vec::new();
    assert_eq!(store.get_list("l").unwrap(), &empty);
}

#[test]
fn duplicate_keys_are_undecodable() {
    let doc = b"{\"a\":\"1\",\"a\":\"2\"}".to_vec();
    let store = InMemoryStore::new(Some(doc), None);
    let (kv, _) = store.display();
    assert_eq!(kv.len(), 0);
}

#[test]
fn malformed_documents_are_undecodable() {
    let bad: Vec<&[u8]> = vec![
        b"",
        b"{",
        b"{}x",
        b"[\"a\"]",
        b"{\"a\":1}",
        b"{\"a\":\"b\",}",
        b"{\"a\" \"b\"}",
        b"{\"a\":\"\\u00e9\"}",
    ];
    for doc in bad {
        let store = InMemoryStore::new(Some(doc.to_vec()), None);
        let (kv, _) = store.display();
        assert_eq!(kv.len(), 0);
    }
}

#[test]
fn serde_json_reads_our_documents() {
    let mut store = InMemoryStore::new(None, None);
    store.set("user", "bob");
    store.set("note", "a\"b\\c\nd");
    store.append("tasks", "one");
    store.append("tasks", "two");
    let kv: HashMap<String, String> = serde_json::from_slice(&store.serialize_kv()).unwrap();
    assert_eq!(kv.len(), 2);
    assert_eq!(kv["user"], "bob");
    assert_eq!(kv["note"], "a\"b\\c\nd");
    let lists: HashMap<String, Vec<String>> =
        serde_json::from_slice(&store.serialize_lists()).unwrap();
    assert_eq!(lists["tasks"], vec!["one".to_string(), "two".to_string()]);
}

#[test]
fn we_read_serde_json_documents() {
    let mut kv = BTreeMap::new();
    kv.insert("host".to_string(), "localhost".to_string());
    kv.insert("user".to_string(), "alice".to_string());
    let mut lists = BTreeMap::new();
    lists.insert(
        "tasks".to_string(),
        vec!["buy-milk".to_string(), "walk-dog".to_string()],
    );
    let kv_doc = serde_json::to_vec(&kv).unwrap();
    let list_doc = serde_json::to_vec(&lists).unwrap();
    let store = InMemoryStore::new(Some(kv_doc), Some(list_doc));
    assert_eq!(store.get_scalar("host").unwrap().as_slice(), b"localhost");
    assert_eq!(store.get_scalar("user").unwrap().as_slice(), b"alice");
    let tasks = vec![b"buy-milk".to_vec(), b"walk-dog".to_vec()];
    assert_eq!(store.get_list("tasks").unwrap(), &tasks);
}
