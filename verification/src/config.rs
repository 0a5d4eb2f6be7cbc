//! The tunnel's settings for one request.
use vstd::prelude::*;

verus! {

/// The name for the 16 bytes that `uuid::Uuid::parse_str` reads from a text
/// (hyphenated, simple, braced or URN form), or `None` where it refuses it.
pub uninterp spec fn uuid_bytes(text: Seq<char>) -> Option<Seq<u8>>;

/// `uuid::Uuid::parse_str`, its result taken as bytes. The contract claims
/// that the result is a function of the text alone; which texts are UUIDs is
/// left to the name.
#[verifier::external_body]
fn parse_uuid(text: &str) -> (r: Option<[u8; 16]>)
    ensures
        match r {
            Some(b) => uuid_bytes(text@) == Some(b@),
            None => uuid_bytes(text@) is None,
        },
{
    match uuid::Uuid::parse_str(text) {
        Ok(u) => Some(u.into_bytes()),
        Err(_) => None,
    }
}

/// The nil UUID, all zero bytes.
pub open spec fn nil_uuid() -> Seq<u8> {
    Seq::new(16, |i: int| 0u8)
}

/// The UUID that the node runs with, given what reading the `UUID` setting
/// gave: the parsed bytes, or the nil UUID.
pub fn uuid_or_nil(parsed: Option<[u8; 16]>) -> (r: [u8; 16])
    ensures
        r@ == match parsed {
            Some(b) => b@,
            None => nil_uuid(),
        },
{
    match parsed {
        Some(b) => b,
        None => {
            let z: [u8; 16] = [0u8, 0u8, 0u8, 0u8, 0u8, 0u8, 0u8, 0u8, 0u8, 0u8, 0u8, 0u8, 0u8, 0u8, 0u8, 0u8];
            assert(z@ =~= nil_uuid());
            z
        },
    }
}

/// The UUID of the `UUID` setting: its parse, or the nil UUID where the
/// setting is missing or is no UUID.
pub fn config_uuid(setting: Option<&str>) -> (r: [u8; 16])
    ensures
        r@ == match setting {
            Some(s) => match uuid_bytes(s@) {
                Some(b) => b,
                None => nil_uuid(),
            },
            None => nil_uuid(),
        },
{
    match setting {
        Some(s) => uuid_or_nil(parse_uuid(s)),
        None => uuid_or_nil(None),
    }
}

/// Settings of one tunnel: the node's UUID and the relay that outbound
/// connections go to; an empty `proxy_addr` means direct connections.
#[derive(Clone)]
pub struct Config {
    pub uuid: [u8; 16],
    pub proxy_addr: String,
    pub proxy_port: u16,
}

impl Config {
    /// Direct connections, no relay.
    pub fn direct(uuid: [u8; 16]) -> (r: Config)
        ensures
            r.uuid == uuid,
            r.proxy_addr@ == Seq::<char>::empty(),
            r.proxy_port == 0,
    {
        Config { uuid, proxy_addr: String::new(), proxy_port: 0 }
    }
}

} // verus!
