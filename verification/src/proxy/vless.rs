//! The VLESS request header.
use vstd::prelude::*;

use super::{bytes_between, outbound_for, read_port, HeaderError, Outbound};
use crate::config::Config;

verus! {

/// The fields of a VLESS request header up to the destination address.
pub struct VlessRequest {
    pub version: u8,
    /// The 16-byte user UUID.
    pub user_id: Vec<u8>,
    /// 1: TCP, 2: UDP, 3: Mux.
    pub command: u8,
    pub port: u16,
    /// Where the destination address starts.
    pub addr_offset: usize,
}

/// The byte length of the header up to the address: version, UUID, addon
/// length, addons, command and port.
pub open spec fn vless_prefix_len(buf: Seq<u8>) -> int {
    21 + buf[17] as int
}

/// Reads a VLESS request header: version (1 byte), user UUID (16), addon
/// length `m` (1) and `m` addon bytes, command (1), port (2, big-endian);
/// the destination address follows.
pub fn parse_vless_request(buf: &[u8]) -> (r: Result<VlessRequest, HeaderError>)
    ensures
        match r {
            Ok(req) => {
                &&& buf@.len() >= 18
                &&& buf@.len() >= vless_prefix_len(buf@)
                &&& req.version == buf@[0]
                &&& req.user_id@ == buf@.subrange(1, 17)
                &&& req.command == buf@[18 + buf@[17] as int]
                &&& req.port == super::be16(buf@[19 + buf@[17] as int], buf@[20 + buf@[17] as int])
                &&& req.addr_offset == vless_prefix_len(buf@)
            },
            Err(e) => e == HeaderError::Truncated && (buf@.len() < 18 || buf@.len()
                < vless_prefix_len(buf@)),
        },
{
    if buf.len() < 18 {
        return Err(HeaderError::Truncated);
    }
    let version = buf[0];
    let user_id = bytes_between(buf, 1, 17);
    let addons = buf[17] as usize;
    let at = 18 + addons;
    if buf.len() < at + 3 {
        return Err(HeaderError::Truncated);
    }
    let command = buf[at];
    let port = match read_port(buf, at + 1) {
        Ok(p) => p,
        Err(e) => return Err(e),
    };
    Ok(VlessRequest { version, user_id, command, port, addr_offset: at + 3 })
}

/// The response header a VLESS server sends before relaying: version 0,
/// no addons.
pub fn vless_response_header() -> (r: [u8; 2])
    ensures
        r@ == seq![0u8, 0u8],
{
    let r: [u8; 2] = [0u8, 0u8];
    assert(r@ =~= seq![0u8, 0u8]);
    r
}

/// The decision of a VLESS tunnel once the header and the destination
/// address `remote_addr` are read: for TCP, the reply header to send first
/// and the connection to open; for UDP, no reply and datagram relaying.
pub fn process_vless(config: &Config, req: &VlessRequest, remote_addr: String) -> (r: (
    Outbound,
    Vec<u8>,
))
    ensures
        req.command == 1 ==> r.1@ == seq![0u8, 0u8] && (r.0 matches Outbound::Tcp { addr, port }
            && if config.proxy_addr@.len() > 0 {
            addr@ == config.proxy_addr@ && port == config.proxy_port
        } else {
            addr@ == remote_addr@ && port == req.port
        }),
        req.command != 1 ==> r.1@.len() == 0 && r.0 is Udp,
{
    let outbound = outbound_for(config, req.command, remote_addr, req.port);
    let mut reply: Vec<u8> = Vec::new();
    if req.command == 1 {
        let header = vless_response_header();
        reply.push(header[0]);
        reply.push(header[1]);
        assert(reply@ =~= seq![0u8, 0u8]);
    }
    (outbound, reply)
}

/// A VLESS request from its first bytes and the destination address read
/// after the header: the header error where the bytes end too early (and no
/// outbound then), otherwise the decision of [`process_vless`] for the
/// header's command and port.
pub fn handle_vless(config: &Config, buf: &[u8], remote_addr: String) -> (r: Result<
    (Outbound, Vec<u8>),
    HeaderError,
>)
    ensures
        match r {
            Err(e) => e == HeaderError::Truncated && (buf@.len() < 18 || buf@.len()
                < vless_prefix_len(buf@)),
            Ok((out, reply)) => {
                let command = buf@[18 + buf@[17] as int];
                let port = super::be16(buf@[19 + buf@[17] as int], buf@[20 + buf@[17] as int]);
                &&& buf@.len() >= 18
                &&& buf@.len() >= vless_prefix_len(buf@)
                &&& command == 1 ==> reply@ == seq![0u8, 0u8] && (out matches Outbound::Tcp {
                    addr,
                    port: p,
                } && if config.proxy_addr@.len() > 0 {
                    addr@ == config.proxy_addr@ && p == config.proxy_port
                } else {
                    addr@ == remote_addr@ && p == port
                })
                &&& command != 1 ==> reply@.len() == 0 && out is Udp
            },
        },
{
    match parse_vless_request(buf) {
        Ok(req) => Ok(process_vless(config, &req, remote_addr)),
        Err(e) => Err(e),
    }
}

/// The destination address starts right after the header fields, whatever
/// follows them: after 1 version byte, 16 UUID bytes, 1 addon-length byte,
/// the addons, 1 command byte and 2 port bytes.
pub proof fn lemma_address_follows_header(header: Seq<u8>, rest: Seq<u8>)
    requires
        header.len() >= 18,
        header.len() == 1 + 16 + 1 + header[17] as int + 1 + 2,
    ensures
        vless_prefix_len(header + rest) == header.len(),
{
    assert((header + rest)[17] == header[17]);
}

/// A parsed VLESS header puts the address at `21 + m` for `m` addon bytes.
pub proof fn lemma_addr_offset(buf: Seq<u8>)
    requires
        buf.len() >= 18,
        buf.len() >= 21 + buf[17] as int,
    ensures
        vless_prefix_len(buf) == 1 + 16 + 1 + buf[17] as int + 1 + 2,
{
    let n = 21 + buf[17] as int;
    lemma_address_follows_header(buf.take(n), buf.skip(n));
    assert(buf.take(n) + buf.skip(n) =~= buf);
}

} // verus!
