use tunnel_core::check::host_port;
use tunnel_core::proxy::health::{order_by_index, parse_target, ProbeResult, Target};

fn target(s: &str) -> Option<(String, u16)> {
    parse_target(s).map(|t| (t.addr, t.port))
}

#[test]
fn parse_target_host_and_port() {
    assert_eq!(target("1.2.3.4:443"), Some(("1.2.3.4".to_string(), 443)));
    assert_eq!(target("  example.com:80 \n"), Some(("example.com".to_string(), 80)));
}

#[test]
fn parse_target_bracketed_ipv6() {
    assert_eq!(target("[::1]:443"), Some(("::1".to_string(), 443)));
    assert_eq!(target("[2001:db8::1]:8443"), Some(("2001:db8::1".to_string(), 8443)));
    assert_eq!(target("[::1]443"), Some(("::1".to_string(), 443)));
    assert_eq!(target("[::1]::443"), Some(("::1".to_string(), 443)));
    assert_eq!(target("[]:1"), Some((String::new(), 1)));
    assert_eq!(target("[::1"), None);
    assert_eq!(target("[::1]:"), None);
}

#[test]
fn parse_target_refusals() {
    assert_eq!(target(""), None);
    assert_eq!(target("   "), None);
    assert_eq!(target("host"), None);
    assert_eq!(target(":443"), None);
    assert_eq!(target("::1:443"), None);
    assert_eq!(target("host:abc"), None);
    assert_eq!(target("host:70000"), None);
}

#[test]
fn formatted_entry_parses_back() {
    for (h, p) in [("1.2.3.4", 443u16), ("relay.example", 0), ("x", 65535)] {
        assert_eq!(target(&host_port(h, p)), Some((h.to_string(), p)));
    }
}

#[test]
fn dead_probe_has_no_latency() {
    let r = ProbeResult::dead("h".to_string(), 9);
    assert_eq!(r.addr, "h");
    assert_eq!(r.port, 9);
    assert!(!r.alive);
    assert_eq!(r.latency_ms, None);
}

#[test]
fn probe_outcome_latency() {
    let t = Target { addr: "h".to_string(), port: 1 };
    let r = ProbeResult::from_probe(t.clone(), true, 1000, 1042);
    assert!(r.alive);
    assert_eq!(r.latency_ms, Some(42));
    let r = ProbeResult::from_probe(t.clone(), true, 0, (1u64 << 32) + 5);
    assert_eq!(r.latency_ms, Some(5));
    let r = ProbeResult::from_probe(t, false, 50, 10);
    assert!(!r.alive);
    assert_eq!(r.latency_ms, None);
}

#[test]
fn results_return_in_input_order() {
    let done = vec![(2usize, "c"), (0, "a"), (1, "b")];
    assert_eq!(order_by_index(3, done), vec!["a", "b", "c"]);
}

#[test]
fn results_skip_missing_and_keep_last_duplicate() {
    assert_eq!(order_by_index(4, vec![(3usize, "d"), (1, "b")]), vec!["b", "d"]);
    assert_eq!(order_by_index(2, vec![(0usize, "x"), (0, "y")]), vec!["y"]);
    assert_eq!(order_by_index::<&str>(0, vec![]), Vec::<&str>::new());
}

#[test]
fn probe_outcome_keeps_target_and_pairs_alive_with_latency() {
    let t = Target { addr: "r".to_string(), port: 7 };
    let r = ProbeResult::probe_outcome(t.clone(), false, false, 10, 10);
    assert_eq!((r.addr.as_str(), r.port, r.alive, r.latency_ms), ("r", 7, false, None));
    let r = ProbeResult::probe_outcome(t.clone(), true, false, 10, 5);
    assert_eq!((r.alive, r.latency_ms), (false, None));
    let r = ProbeResult::probe_outcome(t, true, true, 10, 35);
    assert_eq!((r.addr.as_str(), r.port, r.alive, r.latency_ms), ("r", 7, true, Some(25)));
}

#[test]
fn accepted_entry_shapes() {
    assert_eq!(target("[a:b]:::80"), Some(("a:b".to_string(), 80)));
    assert_eq!(target("[x]+80"), Some(("x".to_string(), 80)));
    assert_eq!(target("[a]b]:80"), None);
    assert_eq!(target("[:80"), None);
    assert_eq!(target("h:+8"), Some(("h".to_string(), 8)));
}
