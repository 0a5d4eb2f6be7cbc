//! What the node does with an incoming HTTP request, and when the cached
//! relay list is used.
use vstd::prelude::*;

use crate::decimal::decimal_string;
use crate::relay_kv::ProxyKv;
use crate::text::{eq_ignore_case, same_text};

verus! {

/// The handler an incoming request goes to.
#[derive(Debug, PartialEq, Eq, Structural)]
pub enum Route {
    /// A WebSocket upgrade: tunnel the stream.
    Tunnel,
    /// `/check`: sweep the relay list.
    Check,
    /// `/check/single`: probe one relay.
    CheckSingle,
    /// Anything else: the node's JSON status.
    Status,
}

/// A WebSocket upgrade (in any letter case) is always tunnelled; otherwise
/// the path decides.
pub open spec fn route_of(upgrade: Seq<char>, path: Seq<char>) -> Route {
    if crate::text::eq_ignore_ascii_case(upgrade, "websocket"@) {
        Route::Tunnel
    } else if path == "/check"@ {
        Route::Check
    } else if path == "/check/single"@ {
        Route::CheckSingle
    } else {
        Route::Status
    }
}

/// Chooses the handler from the `Upgrade` header (empty where absent) and
/// the URL path.
pub fn route(upgrade: &str, path: &str) -> (r: Route)
    ensures
        r == route_of(upgrade@, path@),
{
    if eq_ignore_case(upgrade, "websocket") {
        Route::Tunnel
    } else if same_text(path, "/check") {
        Route::Check
    } else if same_text(path, "/check/single") {
        Route::CheckSingle
    } else {
        Route::Status
    }
}

/// The cached relay list text, where there is one and it is not empty.
pub fn usable_cache(cached: Option<String>) -> (r: Option<String>)
    ensures
        match cached {
            Some(s) => if s@.len() > 0 {
                r == Some(s)
            } else {
                r is None
            },
            None => r is None,
        },
{
    match cached {
        Some(s) => if s.as_str().is_empty() {
            None
        } else {
            Some(s)
        },
        None => None,
    }
}

/// The error for a failed download of the relay list: `None` for status
/// 200, the message naming the status otherwise.
pub fn download_failure(status: u16) -> (r: Option<String>)
    ensures
        status == 200 ==> r is None,
        status != 200 ==> (r matches Some(m) && m@ == "error getting proxy kv: "@
            + crate::decimal::decimal(status as nat)),
{
    if status == 200 {
        None
    } else {
        let mut m = String::from_str("error getting proxy kv: ");
        let digits = decimal_string(status as u64);
        m.append(digits.as_str());
        Some(m)
    }
}

/// How long the downloaded relay list stays cached, in seconds (one day).
pub const RELAY_LIST_TTL_SECS: u64 = 86400;

/// What the cached relay list text gives.
pub enum CacheRead {
    /// Nothing usable is cached: download the list.
    Miss,
    /// The cached list.
    Hit(ProxyKv),
    /// The cached text is not a relay list: the load fails.
    Malformed,
}

/// Reads the relay list from the cached text. A text that parsed once is
/// not empty, so once it is cached the next load takes the same list from
/// the cache, without a download.
pub fn read_cached_list(cached: Option<String>) -> (r: CacheRead)
    ensures
        match cached {
            Some(s) => if s@.len() > 0 {
                match crate::relay_kv::json_relay_map(s@) {
                    Some(m) => r matches CacheRead::Hit(kv) && kv@ == m,
                    None => r is Malformed,
                }
            } else {
                r is Miss
            },
            None => r is Miss,
        },
{
    match usable_cache(cached) {
        Some(text) => match ProxyKv::from_json(text.as_str()) {
            Some(kv) => CacheRead::Hit(kv),
            None => CacheRead::Malformed,
        },
        None => CacheRead::Miss,
    }
}

/// A WebSocket upgrade, in any letter case, is tunnelled whatever the path;
/// without one, exactly `/check` and `/check/single` reach the liveness
/// endpoints and every other path gets the status page.
pub proof fn lemma_routes(upgrade: Seq<char>, path: Seq<char>)
    ensures
        crate::text::eq_ignore_ascii_case(upgrade, "websocket"@) ==> route_of(upgrade, path)
            == Route::Tunnel,
        !crate::text::eq_ignore_ascii_case(upgrade, "websocket"@) ==> {
            &&& (route_of(upgrade, path) == Route::Check) == (path == "/check"@)
            &&& (route_of(upgrade, path) == Route::CheckSingle) == (path == "/check/single"@)
            &&& route_of(upgrade, path) != Route::Tunnel
        },
{
    if !crate::text::eq_ignore_ascii_case(upgrade, "websocket"@) && path == "/check/single"@ {
        reveal_strlit("/check");
        reveal_strlit("/check/single");
        assert("/check"@.len() != "/check/single"@.len());
    }
}

} // verus!
