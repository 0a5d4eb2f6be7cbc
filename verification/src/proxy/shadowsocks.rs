//! The Shadowsocks request header.
use vstd::prelude::*;

use super::{outbound_target, read_port, HeaderError, Outbound};
use crate::config::Config;

verus! {

/// Reads the port (2 bytes, big-endian) that follows the destination
/// address ending at `addr_end`, and where the payload starts.
pub fn parse_shadowsocks_tail(buf: &[u8], addr_end: usize) -> (r: Result<(u16, usize), HeaderError>)
    ensures
        match r {
            Ok((p, start)) => addr_end + 2 <= buf@.len() && p == super::be16(
                buf@[addr_end as int],
                buf@[addr_end + 1],
            ) && start == addr_end + 2,
            Err(e) => e == HeaderError::Truncated && addr_end + 2 > buf@.len(),
        },
{
    if addr_end > buf.len() || buf.len() - addr_end < 2 {
        return Err(HeaderError::Truncated);
    }
    let port = match read_port(buf, addr_end) {
        Ok(p) => p,
        Err(e) => return Err(e),
    };
    Ok((port, addr_end + 2))
}

/// The decision of a Shadowsocks tunnel once the destination is read:
/// always a TCP connection, to the relay where one is set.
pub fn process_shadowsocks(config: &Config, remote_addr: String, remote_port: u16) -> (r: Outbound)
    ensures
        r matches Outbound::Tcp { addr, port } && if config.proxy_addr@.len() > 0 {
            addr@ == config.proxy_addr@ && port == config.proxy_port
        } else {
            addr@ == remote_addr@ && port == remote_port
        },
{
    let (addr, port) = outbound_target(config, remote_addr, remote_port);
    Outbound::Tcp { addr, port }
}

/// A Shadowsocks request from its first bytes, where the destination
/// address `remote_addr` ends at `addr_end`: the header error where the port
/// is cut off (and no outbound then), otherwise the decision of
/// [`process_shadowsocks`] and where the payload starts.
pub fn handle_shadowsocks(config: &Config, buf: &[u8], addr_end: usize, remote_addr: String) -> (r:
    Result<(Outbound, usize), HeaderError>)
    ensures
        match r {
            Err(e) => e == HeaderError::Truncated && addr_end + 2 > buf@.len(),
            Ok((out, start)) => {
                let port = super::be16(buf@[addr_end as int], buf@[addr_end + 1]);
                &&& addr_end + 2 <= buf@.len()
                &&& start == addr_end + 2
                &&& out matches Outbound::Tcp { addr, port: p } && if config.proxy_addr@.len() > 0 {
                    addr@ == config.proxy_addr@ && p == config.proxy_port
                } else {
                    addr@ == remote_addr@ && p == port
                }
            },
        },
{
    let (port, start) = match parse_shadowsocks_tail(buf, addr_end) {
        Ok(x) => x,
        Err(e) => return Err(e),
    };
    Ok((process_shadowsocks(config, remote_addr, port), start))
}

} // verus!
