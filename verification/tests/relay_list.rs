use tunnel_core::relay_kv::ProxyKv;

fn sample() -> ProxyKv {
    ProxyKv::from_json(r#"{"C":["c1","c2"],"A":["a1","a2","a3"],"B":["b1"]}"#).unwrap()
}

fn strs(v: &[&str]) -> Vec<String> {
    v.iter().map(|s| s.to_string()).collect()
}

#[test]
fn from_json_reads_object_of_lists() {
    let kv = sample();
    assert_eq!(kv.len(), 3);
    assert_eq!(kv.get("A"), Some(&strs(&["a1", "a2", "a3"])));
    assert_eq!(kv.get("B"), Some(&strs(&["b1"])));
    assert_eq!(kv.get("Z"), None);
}

#[test]
fn from_json_refuses_other_shapes() {
    assert!(ProxyKv::from_json("not json").is_none());
    assert!(ProxyKv::from_json(r#"["a"]"#).is_none());
    assert!(ProxyKv::from_json(r#"{"A":"a"}"#).is_none());
    assert!(ProxyKv::from_json("").is_none());
}

#[test]
fn from_json_duplicate_key_keeps_last() {
    let kv = ProxyKv::from_json(r#"{"A":["x"],"A":["y"]}"#).unwrap();
    assert_eq!(kv.len(), 1);
    assert_eq!(kv.get("A"), Some(&strs(&["y"])));
}

#[test]
fn insert_then_get() {
    let mut kv = ProxyKv::new();
    assert_eq!(kv.len(), 0);
    kv.insert("SG".to_string(), strs(&["1.1.1.1:443"]));
    kv.insert("ID".to_string(), strs(&["2.2.2.2:443"]));
    kv.insert("SG".to_string(), strs(&["3.3.3.3:8443"]));
    assert_eq!(kv.len(), 2);
    assert_eq!(kv.get("SG"), Some(&strs(&["3.3.3.3:8443"])));
    assert_eq!(kv.get("ID"), Some(&strs(&["2.2.2.2:443"])));
}

#[test]
fn select_one_country_takes_prefix() {
    let kv = sample();
    assert_eq!(kv.select_entries(Some("A"), 2), strs(&["a1", "a2"]));
    assert_eq!(kv.select_entries(Some("A"), 50), strs(&["a1", "a2", "a3"]));
    assert_eq!(kv.select_entries(Some("Z"), 5), Vec::<String>::new());
}

#[test]
fn select_all_is_round_robin() {
    let kv = sample();
    let all = strs(&["a1", "b1", "c1", "a2", "c2", "a3"]);
    assert_eq!(kv.select_entries(None, 50), all);
    assert_eq!(kv.select_entries(Some("ALL"), 50), all);
    assert_eq!(kv.select_entries(None, 4), strs(&["a1", "b1", "c1", "a2"]));
    assert_eq!(kv.select_entries(None, 1), strs(&["a1"]));
    assert_eq!(kv.select_entries(None, 0), Vec::<String>::new());
    assert_eq!(ProxyKv::new().select_entries(None, 3), Vec::<String>::new());
}

#[test]
fn all_entries_country_after_country() {
    assert_eq!(sample().all_entries(), strs(&["a1", "a2", "a3", "b1", "c1", "c2"]));
}

#[test]
fn selection_count_is_smaller_of_limit_and_available() {
    let kv = sample();
    for limit in 0..10usize {
        assert_eq!(kv.select_entries(None, limit).len(), limit.min(6));
        assert_eq!(kv.select_entries(Some("A"), limit).len(), limit.min(3));
        assert_eq!(kv.select_entries(Some("Z"), limit).len(), 0);
    }
}
