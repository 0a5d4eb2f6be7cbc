//! The Trojan request header.
use vstd::prelude::*;

use super::{bytes_between, outbound_for, read_port, HeaderError, Outbound};
use crate::config::Config;

verus! {

/// Where the destination address of a Trojan header starts: after the
/// 56-byte password hash, CRLF and the command byte.
pub const TROJAN_ADDR_OFFSET: usize = 59;

/// The fields of a Trojan request header before the destination address.
pub struct TrojanHead {
    /// The 56 hex bytes of the password hash.
    pub user_hash: Vec<u8>,
    /// 1: TCP (CONNECT), 3: UDP (ASSOCIATE).
    pub command: u8,
}

/// Reads the start of a Trojan header: hash (56 bytes), CRLF (2), command
/// (1).
pub fn parse_trojan_head(buf: &[u8]) -> (r: Result<TrojanHead, HeaderError>)
    ensures
        match r {
            Ok(h) => buf@.len() >= 59 && h.user_hash@ == buf@.subrange(0, 56) && h.command
                == buf@[58],
            Err(e) => e == HeaderError::Truncated && buf@.len() < 59,
        },
{
    if buf.len() < TROJAN_ADDR_OFFSET {
        return Err(HeaderError::Truncated);
    }
    let user_hash = bytes_between(buf, 0, 56);
    Ok(TrojanHead { user_hash, command: buf[58] })
}

/// Reads the end of a Trojan header after the address that ends at
/// `addr_end`: port (2 bytes, big-endian) and CRLF (2). Gives the port and
/// where the payload starts.
pub fn parse_trojan_tail(buf: &[u8], addr_end: usize) -> (r: Result<(u16, usize), HeaderError>)
    ensures
        match r {
            Ok((p, start)) => addr_end + 4 <= buf@.len() && p == super::be16(
                buf@[addr_end as int],
                buf@[addr_end + 1],
            ) && start == addr_end + 4,
            Err(e) => e == HeaderError::Truncated && addr_end + 4 > buf@.len(),
        },
{
    if addr_end > buf.len() || buf.len() - addr_end < 4 {
        return Err(HeaderError::Truncated);
    }
    let port = match read_port(buf, addr_end) {
        Ok(p) => p,
        Err(e) => return Err(e),
    };
    Ok((port, addr_end + 4))
}

/// The decision of a Trojan tunnel once the whole header is read: TCP to
/// the relay or the destination for command 1, UDP otherwise.
pub fn process_trojan(config: &Config, head: &TrojanHead, remote_addr: String, remote_port: u16) -> (r:
    Outbound)
    ensures
        head.command == 1 ==> (r matches Outbound::Tcp { addr, port } && if config.proxy_addr@.len()
            > 0 {
            addr@ == config.proxy_addr@ && port == config.proxy_port
        } else {
            addr@ == remote_addr@ && port == remote_port
        }),
        head.command != 1 ==> r is Udp,
{
    outbound_for(config, head.command, remote_addr, remote_port)
}

/// A Trojan request from its first bytes, where the destination address
/// `remote_addr` ends at `addr_end`: the header error where the bytes end
/// too early (and no outbound then), otherwise the decision of
/// [`process_trojan`] and where the payload starts.
pub fn handle_trojan(config: &Config, buf: &[u8], addr_end: usize, remote_addr: String) -> (r:
    Result<(Outbound, usize), HeaderError>)
    ensures
        match r {
            Err(e) => e == HeaderError::Truncated && (buf@.len() < 59 || addr_end + 4
                > buf@.len()),
            Ok((out, start)) => {
                let port = super::be16(buf@[addr_end as int], buf@[addr_end + 1]);
                &&& buf@.len() >= 59
                &&& addr_end + 4 <= buf@.len()
                &&& start == addr_end + 4
                &&& buf@[58] == 1 ==> (out matches Outbound::Tcp { addr, port: p } && if config.proxy_addr@.len()
                    > 0 {
                    addr@ == config.proxy_addr@ && p == config.proxy_port
                } else {
                    addr@ == remote_addr@ && p == port
                })
                &&& buf@[58] != 1 ==> out is Udp
            },
        },
{
    let head = match parse_trojan_head(buf) {
        Ok(h) => h,
        Err(e) => return Err(e),
    };
    let (port, start) = match parse_trojan_tail(buf, addr_end) {
        Ok(x) => x,
        Err(e) => return Err(e),
    };
    Ok((process_trojan(config, &head, remote_addr, port), start))
}

} // verus!
