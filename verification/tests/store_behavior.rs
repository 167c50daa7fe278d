use inmemory_store::store::InMemoryStore;

#[test]
fn fresh_store_is_empty() {
    let store = InMemoryStore::new(None, None);
    let (kv, lists) = store.display();
    assert_eq!(kv.len(), 0);
    assert_eq!(lists.len(), 0);
}

#[test]
fn set_overwrites_key() {
    let mut store = InMemoryStore::new(None, None);
    store.set("user", "alice");
    store.set("user", "bob");
    let (kv, _) = store.display();
    assert_eq!(kv.len(), 1);
    assert_eq!(kv[0].0.as_slice(), b"user");
    assert_eq!(kv[0].1.as_slice(), b"bob");
    assert_eq!(store.get_scalar("user").unwrap().as_slice(), b"bob");
}

#[test]
fn set_keeps_other_keys() {
    let mut store = InMemoryStore::new(None, None);
    store.set("a", "1");
    store.set("b", "2");
    store.set("a", "3");
    assert_eq!(store.get_scalar("a").unwrap().as_slice(), b"3");
    assert_eq!(store.get_scalar("b").unwrap().as_slice(), b"2");
    assert!(store.get_scalar("c").is_none());
}

#[test]
fn append_keeps_order() {
    let mut store = InMemoryStore::new(None, None);
    store.append("tasks", "buy-milk");
    store.append("tasks", "walk-dog");
    let expected = vec![b"buy-milk".to_vec(), b"walk-dog".to_vec()];
    assert_eq!(store.get_list("tasks").unwrap(), &expected);
}

#[test]
fn append_leaves_other_lists_and_scalars_alone() {
    let mut store = InMemoryStore::new(None, None);
    store.set("user", "alice");
    store.append("a", "1");
    store.append("b", "x");
    store.append("a", "2");
    let a = vec![b"1".to_vec(), b"2".to_vec()];
    let b = vec![b"x".to_vec()];
    assert_eq!(store.get_list("a").unwrap(), &a);
    assert_eq!(store.get_list("b").unwrap(), &b);
    assert_eq!(store.get_scalar("user").unwrap().as_slice(), b"alice");
    assert!(store.get_list("c").is_none());
}

#[test]
fn scalar_round_trip_last_write_wins() {
    let mut store = InMemoryStore::new(None, None);
    store.set("user", "alice");
    store.set("host", "localhost");
    store.set("user", "bob");
    let bytes = store.serialize_kv();
    let reloaded = InMemoryStore::new(Some(bytes), None);
    assert_eq!(reloaded.get_scalar("user").unwrap().as_slice(), b"bob");
    assert_eq!(reloaded.get_scalar("host").unwrap().as_slice(), b"localhost");
    let (kv, lists) = reloaded.display();
    assert_eq!(kv.len(), 2);
    assert_eq!(lists.len(), 0);
}

#[test]
fn list_round_trip_keeps_append_order() {
    let mut store = InMemoryStore::new(None, None);
    store.append("tasks", "buy-milk");
    store.append("tasks", "walk-dog");
    store.append("ideas", "write");
    let bytes = store.serialize_lists();
    let reloaded = InMemoryStore::new(None, Some(bytes));
    let tasks = vec![b"buy-milk".to_vec(), b"walk-dog".to_vec()];
    let ideas = vec![b"write".to_vec()];
    assert_eq!(reloaded.get_list("tasks").unwrap(), &tasks);
    assert_eq!(reloaded.get_list("ideas").unwrap(), &ideas);
}

#[test]
fn round_trip_with_escapes_and_control_bytes() {
    let mut store = InMemoryStore::new(None, None);
    store.set("quote", "a\"b\\c");
    store.set("line", "one\ntwo\tthree\rfour");
    store.set("ctl", "x\u{1}y");
    let bytes = store.serialize_kv();
    let reloaded = InMemoryStore::new(Some(bytes), None);
    assert_eq!(reloaded.get_scalar("quote").unwrap().as_slice(), b"a\"b\\c");
    assert_eq!(
        reloaded.get_scalar("line").unwrap().as_slice(),
        b"one\ntwo\tthree\rfour"
    );
    assert_eq!(reloaded.get_scalar("ctl").unwrap().as_slice(), b"x\x01y");
}

#[test]
fn round_trip_with_multibyte_text() {
    let mut store = InMemoryStore::new(None, None);
    store.set("k\u{e9}y", "v\u{e4}lue");
    store.append("liste", "sch\u{f6}n");
    let kv_bytes = store.serialize_kv();
    let list_bytes = store.serialize_lists();
    let reloaded = InMemoryStore::new(Some(kv_bytes), Some(list_bytes));
    assert_eq!(
        reloaded.get_scalar("k\u{e9}y").unwrap().as_slice(),
        "v\u{e4}lue".as_bytes()
    );
    let expected = vec!["sch\u{f6}n".as_bytes().to_vec()];
    assert_eq!(reloaded.get_list("liste").unwrap(), &expected);
}

#[test]
fn corrupt_scalar_file_yields_empty_scalar_map_only() {
    let mut seed = InMemoryStore::new(None, None);
    seed.append("tasks", "one");
    let list_bytes = seed.serialize_lists();
    let store = InMemoryStore::new(Some(b"not a document".to_vec()), Some(list_bytes));
    let (kv, _) = store.display();
    assert_eq!(kv.len(), 0);
    let tasks = vec![b"one".to_vec()];
    assert_eq!(store.get_list("tasks").unwrap(), &tasks);
}

#[test]
fn corrupt_list_file_yields_empty_list_map_only() {
    let mut seed = InMemoryStore::new(None, None);
    seed.set("user", "alice");
    let kv_bytes = seed.serialize_kv();
    let store = InMemoryStore::new(Some(kv_bytes), Some(b"{\"broken\"".to_vec()));
    let (_, lists) = store.display();
    assert_eq!(lists.len(), 0);
    assert_eq!(store.get_scalar("user").unwrap().as_slice(), b"alice");
}

#[test]
fn nul_byte_survives_a_round_trip() {
    let mut store = InMemoryStore::new(None, None);
    store.set("z", "a\u{0}b");
    assert_eq!(store.serialize_kv(), b"{\"z\":\"a\\u0000b\"}".to_vec());
    let reloaded = InMemoryStore::new(Some(store.serialize_kv()), None);
    assert_eq!(reloaded.get_scalar("z").unwrap().as_slice(), b"a\x00b");
}

#[test]
fn many_entries_round_trip() {
    let mut store = InMemoryStore::new(None, None);
    let keys: Vec<String> = (0..20).map(|n| format!("key-{}", n)).collect();
    for (n, key) in keys.iter().enumerate() {
        store.set(key, &format!("value-{}", n));
        store.append("log", &format!("event-{}", n));
    }
    let reloaded = InMemoryStore::new(Some(store.serialize_kv()), Some(store.serialize_lists()));
    for (n, key) in keys.iter().enumerate() {
        let expected = format!("value-{}", n);
        assert_eq!(
            reloaded.get_scalar(key).unwrap().as_slice(),
            expected.as_bytes()
        );
    }
    let log: Vec<Vec<u8>> = (0..20)
        .map(|n| format!("event-{}", n).into_bytes())
        .collect();
    assert_eq!(reloaded.get_list("log").unwrap(), &log);
}

#[test]
fn missing_files_and_mutation_then_reload() {
    let mut store = InMemoryStore::new(None, None);
    store.set("a", "1");
    store.append("l", "x");
    let reloaded = InMemoryStore::new(Some(store.serialize_kv()), Some(store.serialize_lists()));
    assert_eq!(reloaded.get_scalar("a").unwrap().as_slice(), b"1");
    let l = vec![b"x".to_vec()];
    assert_eq!(reloaded.get_list("l").unwrap(), &l);
}
