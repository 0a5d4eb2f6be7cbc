use tunnel_core::config::{config_uuid, uuid_or_nil, Config};
use tunnel_core::relay_kv::ProxyKv;
use tunnel_core::tunnel::{
    choose_relay, pick_relay, relay_endpoint, relay_request, tunnel_config,
};

fn kv() -> ProxyKv {
    ProxyKv::from_json(r#"{"SG":["1.1.1.1:443","1.1.1.2:8443"],"ID":["2.2.2.2:443"],"JP":[]}"#)
        .unwrap()
}

#[test]
fn relay_request_skips_direct_paths() {
    assert_eq!(relay_request("/"), None);
    assert_eq!(relay_request(""), None);
    assert_eq!(relay_request("/direct"), None);
    assert_eq!(relay_request("/vless"), None);
    assert_eq!(relay_request("//SG"), Some("SG".to_string()));
    assert_eq!(relay_request("/1.2.3.4-443"), Some("1.2.3.4-443".to_string()));
    assert_eq!(relay_request("/Direct"), Some("Direct".to_string()));
}

#[test]
fn relay_endpoint_dash_then_colon() {
    assert_eq!(relay_endpoint("1.2.3.4-443"), Some(("1.2.3.4".to_string(), 443)));
    assert_eq!(relay_endpoint("1.2.3.4:8443"), Some(("1.2.3.4".to_string(), 8443)));
    assert_eq!(relay_endpoint("my-host:443"), None);
    assert_eq!(relay_endpoint("host"), None);
    assert_eq!(relay_endpoint("host-x"), None);
}

#[test]
fn pick_relay_all_uses_both_bytes() {
    let kv = kv();
    // all entries: ID, JP, SG order: 2.2.2.2:443, 1.1.1.1:443, 1.1.1.2:8443
    assert_eq!(pick_relay("ALL", "ALL", false, &kv, 0, 0), "2.2.2.2-443");
    assert_eq!(pick_relay("ALL", "ALL", false, &kv, 0, 1), "1.1.1.1-443");
    assert_eq!(pick_relay("ALL", "ALL", false, &kv, 1, 0), "1.1.1.1-443");
    assert_eq!(pick_relay("ALL", "ALL", false, &kv, 1, 1), "1.1.1.2-8443");
}

#[test]
fn pick_relay_country_selector() {
    let kv = kv();
    assert_eq!(pick_relay("sg", "SG", true, &kv, 0, 1), "1.1.1.2-8443");
    assert_eq!(pick_relay("ID, SG", "ID, SG", true, &kv, 1, 0), "1.1.1.1-443");
    assert_eq!(pick_relay("ID, SG", "ID, SG", true, &kv, 0, 7), "2.2.2.2-443");
    assert_eq!(pick_relay("jp", "JP", true, &kv, 0, 0), "jp");
    assert_eq!(pick_relay("xx", "XX", true, &kv, 0, 0), "xx");
    assert_eq!(pick_relay("sg", "SG", false, &kv, 0, 0), "sg");
    assert_eq!(pick_relay("ALL", "ALL", false, &ProxyKv::new(), 3, 4), "ALL");
}

#[test]
fn choose_relay_for_all_in_any_case() {
    let single = ProxyKv::from_json(r#"{"SG":["9.9.9.9:443"]}"#).unwrap();
    assert_eq!(choose_relay("all", &single), Some("9.9.9.9-443".to_string()));
    assert_eq!(choose_relay("ALL", &single), Some("9.9.9.9-443".to_string()));
}

#[test]
fn choose_relay_selector_and_plain_relays() {
    let single = ProxyKv::from_json(r#"{"SG":["9.9.9.9:443"]}"#).unwrap();
    assert_eq!(choose_relay("sg", &single), Some("9.9.9.9-443".to_string()));
    assert_eq!(choose_relay("1.2.3.4-443", &single), Some("1.2.3.4-443".to_string()));
    assert_eq!(choose_relay("abc.com-443", &single), Some("abc.com-443".to_string()));
}

#[test]
fn tunnel_config_without_relay_list() {
    let c = tunnel_config([7u8; 16], "/1.2.3.4-8443", None).unwrap();
    assert_eq!(c.uuid, [7u8; 16]);
    assert_eq!(c.proxy_addr, "1.2.3.4");
    assert_eq!(c.proxy_port, 8443);
    let c = tunnel_config([0u8; 16], "/", None).unwrap();
    assert_eq!(c.proxy_addr, "");
    assert_eq!(c.proxy_port, 0);
    let c = tunnel_config([0u8; 16], "/SG", None).unwrap();
    assert_eq!(c.proxy_addr, "");
    assert_eq!(c.proxy_port, 0);
}

#[test]
fn tunnel_config_with_relay_list() {
    let single = ProxyKv::from_json(r#"{"SG":["9.9.9.9:2053"]}"#).unwrap();
    let c = tunnel_config([0u8; 16], "/SG", Some(&single)).unwrap();
    assert_eq!(c.proxy_addr, "9.9.9.9");
    assert_eq!(c.proxy_port, 2053);
    let c = tunnel_config([0u8; 16], "/vless", Some(&single)).unwrap();
    assert_eq!(c.proxy_addr, "");
}

#[test]
fn config_with_relay_keeps_settings_on_bad_spelling() {
    let c = Config::direct([1u8; 16]).with_relay("nonsense");
    assert_eq!(c.proxy_addr, "");
    assert_eq!(c.proxy_port, 0);
    let c = Config::direct([1u8; 16]).with_relay("5.6.7.8:99");
    assert_eq!(c.proxy_addr, "5.6.7.8");
    assert_eq!(c.proxy_port, 99);
}

#[test]
fn uuid_setting() {
    let parsed = config_uuid(Some("67e55044-10b1-426f-9247-bb680e5fe0c8"));
    assert_eq!(
        parsed,
        [0x67, 0xe5, 0x50, 0x44, 0x10, 0xb1, 0x42, 0x6f, 0x92, 0x47, 0xbb, 0x68, 0x0e, 0x5f, 0xe0, 0xc8]
    );
    assert_eq!(config_uuid(Some("not-a-uuid")), [0u8; 16]);
    assert_eq!(config_uuid(None), [0u8; 16]);
    assert_eq!(uuid_or_nil(Some([3u8; 16])), [3u8; 16]);
    assert_eq!(uuid_or_nil(None), [0u8; 16]);
}

#[test]
fn selector_letters_beyond_ascii() {
    let single = ProxyKv::from_json(r#"{"SG":["9.9.9.9:443"]}"#).unwrap();
    assert_eq!(choose_relay("\u{17f}g", &single), Some("9.9.9.9-443".to_string()));
    assert_eq!(choose_relay("s", &single), Some("s".to_string()));
    assert_eq!(choose_relay("1s-443", &single), Some("1s-443".to_string()));
    assert_eq!(choose_relay("aLl", &single), Some("9.9.9.9-443".to_string()));
}
