use tunnel_core::check::{
    host_port, plan_check, plan_single, probe_passed, query_get, split_entry, CheckParams,
};
use tunnel_core::relay_kv::ProxyKv;
use tunnel_core::routing::{
    download_failure, read_cached_list, route, usable_cache, CacheRead, Route, RELAY_LIST_TTL_SECS,
};

fn q(pairs: &[(&str, &str)]) -> Vec<(String, String)> {
    pairs.iter().map(|(k, v)| (k.to_string(), v.to_string())).collect()
}

#[test]
fn query_last_occurrence_wins() {
    let p = q(&[("cc", "sg"), ("limit", "3"), ("cc", "id")]);
    assert_eq!(query_get(&p, "cc"), Some("id".to_string()));
    assert_eq!(query_get(&p, "limit"), Some("3".to_string()));
    assert_eq!(query_get(&p, "timeout"), None);
}

#[test]
fn check_params_defaults_and_clamps() {
    let d = CheckParams::from_query(&q(&[]));
    assert_eq!(d.cc, None);
    assert_eq!(d.limit, 20);
    assert_eq!(d.timeout_ms, 2000);
    let p = CheckParams::from_query(&q(&[("cc", "sg"), ("limit", "100"), ("timeout", "100")]));
    assert_eq!(p.cc, Some("SG".to_string()));
    assert_eq!(p.limit, 50);
    assert_eq!(p.timeout_ms, 500);
    let p = CheckParams::from_query(&q(&[("limit", "0"), ("timeout", "abc")]));
    assert_eq!(p.limit, 1);
    assert_eq!(p.timeout_ms, 2000);
    let p = CheckParams::from_query(&q(&[("limit", "-3"), ("timeout", "7000")]));
    assert_eq!(p.limit, 20);
    assert_eq!(p.timeout_ms, 7000);
}

#[test]
fn entries_split_with_default_port() {
    let t = split_entry("1.2.3.4:8443");
    assert_eq!((t.addr.as_str(), t.port), ("1.2.3.4", 8443));
    let t = split_entry("1.2.3.4");
    assert_eq!((t.addr.as_str(), t.port), ("1.2.3.4", 443));
    let t = split_entry("1.2.3.4:x");
    assert_eq!((t.addr.as_str(), t.port), ("1.2.3.4", 443));
    let t = split_entry("a:1:2");
    assert_eq!((t.addr.as_str(), t.port), ("a", 443));
}

#[test]
fn entry_written_and_split_roundtrip() {
    for (h, p) in [("1.2.3.4", 443u16), ("h", 1)] {
        let t = split_entry(&host_port(h, p));
        assert_eq!((t.addr.as_str(), t.port), (h, p));
    }
}

#[test]
fn plan_check_rejects_empty_selection() {
    let kv = ProxyKv::new();
    let p = CheckParams::from_query(&q(&[]));
    match plan_check(&p, &kv) {
        Err(e) => {
            assert_eq!(e.status, 404);
            assert_eq!(e.message, "No proxy IPs found for this query");
        }
        Ok(_) => panic!("expected a rejection"),
    }
}

#[test]
fn plan_check_lists_targets() {
    let kv = ProxyKv::from_json(r#"{"SG":["1.1.1.1:443","1.1.1.2"],"ID":["2.2.2.2:8443"]}"#)
        .unwrap();
    let p = CheckParams::from_query(&q(&[("cc", "sg")]));
    let ts = plan_check(&p, &kv).ok().unwrap();
    let got: Vec<(String, u16)> = ts.into_iter().map(|t| (t.addr, t.port)).collect();
    assert_eq!(got, vec![("1.1.1.1".to_string(), 443), ("1.1.1.2".to_string(), 443)]);
    let p = CheckParams::from_query(&q(&[("cc", "all"), ("limit", "2")]));
    let ts = plan_check(&p, &kv).ok().unwrap();
    let got: Vec<(String, u16)> = ts.into_iter().map(|t| (t.addr, t.port)).collect();
    assert_eq!(got, vec![("2.2.2.2".to_string(), 8443), ("1.1.1.1".to_string(), 443)]);
}

#[test]
fn plan_single_needs_proxy() {
    match plan_single(&q(&[])) {
        Err(e) => {
            assert_eq!(e.status, 400);
            assert_eq!(e.message, "Missing 'proxy' parameter");
        }
        Ok(_) => panic!("expected a rejection"),
    }
    let t = plan_single(&q(&[("proxy", "9.9.9.9:53")])).ok().unwrap();
    assert_eq!((t.addr.as_str(), t.port), ("9.9.9.9", 53));
}

#[test]
fn probe_judgement() {
    assert!(probe_passed(true, 100, 2000));
    assert!(probe_passed(true, 2000, 2000));
    assert!(!probe_passed(true, 2001, 2000));
    assert!(!probe_passed(false, 1, 2000));
    assert!(probe_passed(true, (1u64 << 32) + 10, 500));
    assert_eq!(host_port("1.2.3.4", 443), "1.2.3.4:443");
}

#[test]
fn routes() {
    assert_eq!(route("websocket", "/anything"), Route::Tunnel);
    assert_eq!(route("WebSocket", "/check"), Route::Tunnel);
    assert_eq!(route("", "/check"), Route::Check);
    assert_eq!(route("", "/check/single"), Route::CheckSingle);
    assert_eq!(route("", "/"), Route::Status);
    assert_eq!(route("h2c", "/check/"), Route::Status);
}

#[test]
fn cache_and_download_decisions() {
    assert_eq!(usable_cache(None), None);
    assert_eq!(usable_cache(Some(String::new())), None);
    assert_eq!(usable_cache(Some("{}".to_string())), Some("{}".to_string()));
    assert_eq!(download_failure(200), None);
    assert_eq!(download_failure(404), Some("error getting proxy kv: 404".to_string()));
    assert_eq!(RELAY_LIST_TTL_SECS, 60 * 60 * 24);
}

#[test]
fn cached_list_reading() {
    assert!(matches!(read_cached_list(None), CacheRead::Miss));
    assert!(matches!(read_cached_list(Some(String::new())), CacheRead::Miss));
    assert!(matches!(read_cached_list(Some("nope".to_string())), CacheRead::Malformed));
    match read_cached_list(Some(r#"{"SG":["1.1.1.1:443"]}"#.to_string())) {
        CacheRead::Hit(kv) => assert_eq!(kv.get("SG"), Some(&vec!["1.1.1.1:443".to_string()])),
        _ => panic!("expected the cached list"),
    }
    assert!(ProxyKv::from_json("").is_none());
}
