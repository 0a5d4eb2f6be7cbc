//! Relay probing and the framing of the tunnelled protocols' request
//! headers. The headers are read from the first bytes a client sends; the
//! destination address inside them is read by the stream layer, and these
//! functions take the offset where it ends.

pub mod health;
pub mod shadowsocks;
pub mod trojan;
pub mod vless;

use vstd::prelude::*;

use crate::config::Config;

verus! {

/// Why a request header could not be read.
#[derive(Debug, PartialEq, Eq, Structural)]
pub enum HeaderError {
    /// The stream ended before the header did.
    Truncated,
}

/// A big-endian 16-bit number.
pub open spec fn be16(hi: u8, lo: u8) -> u16 {
    ((hi as int) * 256 + (lo as int)) as u16
}

/// The two-byte big-endian port at `at`.
pub fn read_port(buf: &[u8], at: usize) -> (r: Result<u16, HeaderError>)
    ensures
        match r {
            Ok(p) => at + 2 <= buf@.len() && p == be16(buf@[at as int], buf@[at + 1]),
            Err(e) => at + 2 > buf@.len() && e == HeaderError::Truncated,
        },
{
    if at > buf.len() || buf.len() - at < 2 {
        return Err(HeaderError::Truncated);
    }
    let hi = buf[at];
    let lo = buf[at + 1];
    let p: u16 = ((hi as u16) << 8) | (lo as u16);
    assert(((hi as u16) << 8) | (lo as u16) == (hi as int) * 256 + (lo as int)) by (bit_vector);
    Ok(p)
}

/// The bytes `buf[lo..hi]`.
pub fn bytes_between(buf: &[u8], lo: usize, hi: usize) -> (r: Vec<u8>)
    requires
        lo <= hi <= buf@.len(),
    ensures
        r@ == buf@.subrange(lo as int, hi as int),
{
    let mut out: Vec<u8> = Vec::new();
    let mut i = lo;
    while i < hi
        invariant
            lo <= i <= hi <= buf@.len(),
            out@ == buf@.subrange(lo as int, i as int),
        decreases hi - i,
    {
        out.push(buf[i]);
        assert(out@ =~= buf@.subrange(lo as int, i + 1));
        i = i + 1;
    }
    out
}

/// Command byte 1 asks for a TCP stream; anything else is treated as UDP.
pub fn is_tcp_command(command: u8) -> (r: bool)
    ensures
        r == (command == 1),
{
    command == 1
}

/// Where an outbound TCP connection goes: the configured relay where one is
/// set, the destination the client asked for otherwise.
pub fn outbound_target(config: &Config, remote_addr: String, remote_port: u16) -> (r: (
    String,
    u16,
))
    ensures
        config.proxy_addr@.len() > 0 ==> r.0@ == config.proxy_addr@ && r.1 == config.proxy_port,
        config.proxy_addr@.len() == 0 ==> r.0@ == remote_addr@ && r.1 == remote_port,
{
    if !config.proxy_addr.as_str().is_empty() {
        (config.proxy_addr.clone(), config.proxy_port)
    } else {
        (remote_addr, remote_port)
    }
}

/// What a tunnel does with a parsed request.
#[derive(Debug)]
pub enum Outbound {
    /// Open a TCP connection to this address and port and relay the stream.
    Tcp { addr: String, port: u16 },
    /// Relay datagrams.
    Udp,
}

/// The outbound connection for a request with this command byte and
/// destination: TCP to [`outbound_target`] for command 1, UDP otherwise.
pub fn outbound_for(config: &Config, command: u8, remote_addr: String, remote_port: u16) -> (r:
    Outbound)
    ensures
        command == 1 ==> (r matches Outbound::Tcp { addr, port } && if config.proxy_addr@.len()
            > 0 {
            addr@ == config.proxy_addr@ && port == config.proxy_port
        } else {
            addr@ == remote_addr@ && port == remote_port
        }),
        command != 1 ==> r is Udp,
{
    if is_tcp_command(command) {
        let (addr, port) = outbound_target(config, remote_addr, remote_port);
        Outbound::Tcp { addr, port }
    } else {
        Outbound::Udp
    }
}

} // verus!
