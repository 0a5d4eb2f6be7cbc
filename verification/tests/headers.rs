use tunnel_core::config::Config;
use tunnel_core::proxy::shadowsocks::{handle_shadowsocks, parse_shadowsocks_tail, process_shadowsocks};
use tunnel_core::proxy::trojan::{handle_trojan, parse_trojan_head, parse_trojan_tail, process_trojan, TROJAN_ADDR_OFFSET};
use tunnel_core::proxy::vless::{handle_vless, parse_vless_request, process_vless, vless_response_header};
use tunnel_core::proxy::{is_tcp_command, outbound_target, read_port, HeaderError, Outbound};

#[test]
fn read_port_big_endian() {
    assert_eq!(read_port(&[0x01, 0xbb], 0), Ok(443));
    assert_eq!(read_port(&[9, 0x20, 0xfb], 1), Ok(8443));
    assert_eq!(read_port(&[1], 0), Err(HeaderError::Truncated));
    assert_eq!(read_port(&[1, 2], 5), Err(HeaderError::Truncated));
}

#[test]
fn vless_header_fields() {
    let mut buf = vec![0u8];
    buf.extend(1u8..=16);
    buf.extend([2u8, 0xaa, 0xbb]);
    buf.push(1);
    buf.extend([0x01, 0xbb]);
    buf.extend([1, 127, 0, 0, 1]);
    let r = parse_vless_request(&buf).ok().unwrap();
    assert_eq!(r.version, 0);
    assert_eq!(r.user_id, (1u8..=16).collect::<Vec<u8>>());
    assert_eq!(r.command, 1);
    assert_eq!(r.port, 443);
    assert_eq!(r.addr_offset, 23);
    assert!(is_tcp_command(r.command));
}

#[test]
fn vless_header_without_addons_and_truncated() {
    let mut buf = vec![0u8; 17];
    buf.push(0);
    buf.push(2);
    buf.extend([0x00, 0x35]);
    let r = parse_vless_request(&buf).ok().unwrap();
    assert_eq!(r.port, 53);
    assert_eq!(r.addr_offset, 21);
    assert!(!is_tcp_command(r.command));
    assert!(matches!(parse_vless_request(&buf[..20]), Err(HeaderError::Truncated)));
    assert!(matches!(parse_vless_request(&[0u8; 10]), Err(HeaderError::Truncated)));
    let mut long_addons = vec![0u8; 17];
    long_addons.push(200);
    long_addons.extend([0u8; 50]);
    assert!(matches!(parse_vless_request(&long_addons), Err(HeaderError::Truncated)));
    assert_eq!(vless_response_header(), [0u8, 0u8]);
}

#[test]
fn trojan_header_fields() {
    let mut buf = vec![b'a'; 56];
    buf.extend(b"\r\n");
    buf.push(3);
    assert_eq!(buf.len(), TROJAN_ADDR_OFFSET);
    let h = parse_trojan_head(&buf).ok().unwrap();
    assert_eq!(h.user_hash, vec![b'a'; 56]);
    assert_eq!(h.command, 3);
    buf.extend([1, 10, 0, 0, 1]);
    let addr_end = buf.len();
    buf.extend([0x1f, 0x90]);
    buf.extend(b"\r\n");
    buf.extend(b"payload");
    assert_eq!(parse_trojan_tail(&buf, addr_end), Ok((8080, addr_end + 4)));
    assert_eq!(parse_trojan_tail(&buf[..addr_end + 3], addr_end), Err(HeaderError::Truncated));
    assert!(matches!(parse_trojan_head(&buf[..58]), Err(HeaderError::Truncated)));
}

#[test]
fn shadowsocks_port() {
    let buf = [1u8, 8, 8, 8, 8, 0, 53, 0xff];
    assert_eq!(parse_shadowsocks_tail(&buf, 5), Ok((53, 7)));
    assert_eq!(parse_shadowsocks_tail(&buf, 7), Err(HeaderError::Truncated));
}

#[test]
fn outbound_prefers_configured_relay() {
    let direct = Config::direct([0u8; 16]);
    assert_eq!(outbound_target(&direct, "example.com".to_string(), 443), ("example.com".to_string(), 443));
    let relayed = Config::direct([0u8; 16]).with_relay("1.2.3.4-8443");
    assert_eq!(outbound_target(&relayed, "example.com".to_string(), 443), ("1.2.3.4".to_string(), 8443));
}

fn vless_buf(command: u8) -> Vec<u8> {
    let mut buf = vec![0u8; 17];
    buf.push(0);
    buf.push(command);
    buf.extend([0x01, 0xbb]);
    buf
}

#[test]
fn process_vless_tcp_replies_and_connects() {
    let req = parse_vless_request(&vless_buf(1)).ok().unwrap();
    let direct = Config::direct([0u8; 16]);
    let (out, reply) = process_vless(&direct, &req, "example.com".to_string());
    assert_eq!(reply, vec![0u8, 0u8]);
    assert!(matches!(out, Outbound::Tcp { ref addr, port: 443 } if addr == "example.com"));
    let relayed = Config::direct([0u8; 16]).with_relay("9.9.9.9-8443");
    let (out, _) = process_vless(&relayed, &req, "example.com".to_string());
    assert!(matches!(out, Outbound::Tcp { ref addr, port: 8443 } if addr == "9.9.9.9"));
}

#[test]
fn process_vless_udp_has_no_reply() {
    let req = parse_vless_request(&vless_buf(2)).ok().unwrap();
    let (out, reply) = process_vless(&Config::direct([0u8; 16]), &req, "x".to_string());
    assert!(reply.is_empty());
    assert!(matches!(out, Outbound::Udp));
}

#[test]
fn process_trojan_and_shadowsocks() {
    let mut buf = vec![b'f'; 56];
    buf.extend(b"\r\n");
    buf.push(1);
    let head = parse_trojan_head(&buf).ok().unwrap();
    let direct = Config::direct([0u8; 16]);
    assert!(matches!(process_trojan(&direct, &head, "h".to_string(), 80), Outbound::Tcp { ref addr, port: 80 } if addr == "h"));
    buf[58] = 3;
    let head = parse_trojan_head(&buf).ok().unwrap();
    assert!(matches!(process_trojan(&direct, &head, "h".to_string(), 80), Outbound::Udp));
    assert!(matches!(process_shadowsocks(&direct, "s".to_string(), 53), Outbound::Tcp { ref addr, port: 53 } if addr == "s"));
}

#[test]
fn handlers_give_error_or_decision() {
    let direct = Config::direct([0u8; 16]);
    let (out, reply) = handle_vless(&direct, &vless_buf(1), "d".to_string()).ok().unwrap();
    assert_eq!(reply, vec![0u8, 0u8]);
    assert!(matches!(out, Outbound::Tcp { ref addr, port: 443 } if addr == "d"));
    assert!(matches!(handle_vless(&direct, &vless_buf(1)[..20], "d".to_string()), Err(HeaderError::Truncated)));

    let mut buf = vec![b'f'; 56];
    buf.extend(b"\r\n");
    buf.push(1);
    buf.extend([1, 1, 2, 3, 4]);
    let addr_end = buf.len();
    buf.extend([0x00, 0x50]);
    buf.extend(b"\r\n");
    let (out, start) = handle_trojan(&direct, &buf, addr_end, "h".to_string()).ok().unwrap();
    assert_eq!(start, addr_end + 4);
    assert!(matches!(out, Outbound::Tcp { ref addr, port: 80 } if addr == "h"));
    assert!(matches!(handle_trojan(&direct, &buf[..addr_end + 2], addr_end, "h".to_string()), Err(HeaderError::Truncated)));
    assert!(matches!(handle_trojan(&direct, &buf[..40], 0, "h".to_string()), Err(HeaderError::Truncated)));

    let ss = [1u8, 8, 8, 8, 8, 0, 53];
    let (out, start) = handle_shadowsocks(&direct, &ss, 5, "s".to_string()).ok().unwrap();
    assert_eq!(start, 7);
    assert!(matches!(out, Outbound::Tcp { ref addr, port: 53 } if addr == "s"));
    assert!(matches!(handle_shadowsocks(&direct, &ss[..6], 5, "s".to_string()), Err(HeaderError::Truncated)));
}
