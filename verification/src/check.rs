//! The `/check` and `/check/single` liveness endpoints: reading the query,
//! choosing the relays to probe and judging each probe.
use vstd::prelude::*;

use crate::decimal::{decimal_string, parse_u16, parse_u32, parse_usize};
use crate::proxy::health::Target;
use crate::relay_kv::ProxyKv;
use crate::text::{same_text, split_once_char, to_upper};

verus! {

/// An HTTP error answer: status code and message.
pub struct Rejection {
    pub status: u16,
    pub message: String,
}

/// Query parameters as `(name, value)` character sequences.
pub type QueryView = Seq<(Seq<char>, Seq<char>)>;

/// The value of parameter `key`; where it occurs several times, the last
/// occurrence counts (as collecting the pairs into a map does).
pub open spec fn query_value(pairs: QueryView, key: Seq<char>) -> Option<Seq<char>>
    decreases pairs.len(),
{
    if pairs.len() == 0 {
        None
    } else if pairs.last().0 == key {
        Some(pairs.last().1)
    } else {
        query_value(pairs.drop_last(), key)
    }
}

/// The value of query parameter `key`.
pub fn query_get(pairs: &Vec<(String, String)>, key: &str) -> (r: Option<String>)
    ensures
        match r {
            Some(v) => query_value(pairs.deep_view(), key@) == Some(v@),
            None => query_value(pairs.deep_view(), key@) is None,
        },
{
    let ghost all = pairs.deep_view();
    let mut k: usize = pairs.len();
    assert(all.take(k as int) =~= all);
    while k > 0
        invariant
            k <= pairs.len(),
            all == pairs.deep_view(),
            query_value(all, key@) == query_value(all.take(k as int), key@),
        decreases k,
    {
        let ghost t = all.take(k as int);
        assert(t.last() == all[k - 1]);
        assert(t.drop_last() =~= all.take(k - 1));
        if same_text(pairs[k - 1].0.as_str(), key) {
            let v = pairs[k - 1].1.clone();
            return Some(v);
        }
        k = k - 1;
    }
    None
}

/// The sweep limit: the `limit` parameter read as a number (20 where it is
/// missing or no number), then held to `1..=50`.
pub open spec fn limit_of(pairs: QueryView) -> nat {
    let raw = match query_value(pairs, "limit"@) {
        Some(v) => match crate::decimal::parse_unsigned(v, usize::MAX as nat) {
            Some(n) => n,
            None => 20,
        },
        None => 20,
    };
    if raw > 50 {
        50
    } else if raw < 1 {
        1
    } else {
        raw
    }
}

/// The probe deadline in milliseconds: the `timeout` parameter read as a
/// number (2000 where it is missing or no number), at least 500.
pub open spec fn timeout_of(pairs: QueryView) -> nat {
    let raw = match query_value(pairs, "timeout"@) {
        Some(v) => match crate::decimal::parse_unsigned(v, u32::MAX as nat) {
            Some(n) => n,
            None => 2000,
        },
        None => 2000,
    };
    if raw < 500 {
        500
    } else {
        raw
    }
}

/// What a `/check` request asks for.
pub struct CheckParams {
    /// The country selector, upper-cased.
    pub cc: Option<String>,
    pub limit: usize,
    pub timeout_ms: u32,
}

impl CheckParams {
    /// Reads `cc`, `limit` and `timeout` from the query.
    pub fn from_query(pairs: &Vec<(String, String)>) -> (r: CheckParams)
        ensures
            match query_value(pairs.deep_view(), "cc"@) {
                Some(v) => r.cc matches Some(c) && c@ == crate::text::upper_of(v),
                None => r.cc is None,
            },
            r.limit == limit_of(pairs.deep_view()),
            r.timeout_ms == timeout_of(pairs.deep_view()),
            1 <= r.limit <= 50,
            r.timeout_ms >= 500,
    {
        let cc = match query_get(pairs, "cc") {
            Some(v) => Some(to_upper(v.as_str())),
            None => None,
        };
        let raw_limit: usize = match query_get(pairs, "limit") {
            Some(v) => match parse_usize(v.as_str()) {
                Some(n) => n,
                None => 20,
            },
            None => 20,
        };
        let capped = if raw_limit > 50 {
            50
        } else {
            raw_limit
        };
        let limit = if capped < 1 {
            1
        } else {
            capped
        };
        let raw_timeout: u32 = match query_get(pairs, "timeout") {
            Some(v) => match parse_u32(v.as_str()) {
                Some(n) => n,
                None => 2000,
            },
            None => 2000,
        };
        let timeout_ms = if raw_timeout < 500 {
            500
        } else {
            raw_timeout
        };
        CheckParams { cc, limit, timeout_ms }
    }
}

/// The probe target of a relay entry: host and port split at the first
/// `:`; port 443 where there is no `:` or the port is no number.
pub open spec fn entry_target(entry: Seq<char>) -> (Seq<char>, u16) {
    match crate::text::split_once(entry, ':') {
        Some((ip, p)) => (ip, match crate::decimal::parse_unsigned(p, u16::MAX as nat) {
            Some(n) => n as u16,
            None => 443u16,
        }),
        None => (entry, 443u16),
    }
}

/// Splits a relay entry into the target to probe.
pub fn split_entry(entry: &str) -> (r: Target)
    ensures
        (r.addr@, r.port) == entry_target(entry@),
{
    match split_once_char(entry, ':') {
        Some((ip, p)) => {
            let port = match parse_u16(p.as_str()) {
                Some(n) => n,
                None => 443,
            };
            Target { addr: ip, port }
        },
        None => Target { addr: String::from_str(entry), port: 443 },
    }
}

pub open spec fn no_proxies_message() -> Seq<char> {
    "No proxy IPs found for this query"@
}

pub open spec fn missing_proxy_message() -> Seq<char> {
    "Missing 'proxy' parameter"@
}

/// The relays that a `/check` sweep probes, in order, or the `404` answer
/// where the query selects none.
pub fn plan_check(params: &CheckParams, kv: &ProxyKv) -> (r: Result<Vec<Target>, Rejection>)
    ensures
        ({
            let chosen = crate::relay_kv::selected_entries(
                kv@,
                match params.cc {
                    Some(c) => Some(c@),
                    None => None,
                },
                params.limit as nat,
            );
            match r {
                Ok(ts) => chosen.len() > 0 && ts@.len() == chosen.len() && forall|i: int|
                    0 <= i < ts@.len() ==> ((#[trigger] ts@[i]).addr@, ts@[i].port)
                        == entry_target(chosen[i]),
                Err(e) => chosen.len() == 0 && e.status == 404 && e.message@
                    == no_proxies_message(),
            }
        }),
{
    let entries = match &params.cc {
        Some(c) => kv.select_entries(Some(c.as_str()), params.limit),
        None => kv.select_entries(None, params.limit),
    };
    if entries.len() == 0 {
        return Err(
            Rejection { status: 404, message: String::from_str("No proxy IPs found for this query") },
        );
    }
    let mut targets: Vec<Target> = Vec::new();
    let mut k: usize = 0;
    while k < entries.len()
        invariant
            k <= entries.len(),
            targets@.len() == k,
            forall|i: int|
                0 <= i < k ==> ((#[trigger] targets@[i]).addr@, targets@[i].port) == entry_target(
                    entries.deep_view()[i],
                ),
        decreases entries.len() - k,
    {
        let t = split_entry(entries[k].as_str());
        targets.push(t);
        k = k + 1;
    }
    Ok(targets)
}

/// The relay a `/check/single` request names, or the `400` answer where the
/// `proxy` parameter is missing.
pub fn plan_single(pairs: &Vec<(String, String)>) -> (r: Result<Target, Rejection>)
    ensures
        match query_value(pairs.deep_view(), "proxy"@) {
            Some(v) => r matches Ok(t) && (t.addr@, t.port) == entry_target(v),
            None => r matches Err(e) && e.status == 400 && e.message@ == missing_proxy_message(),
        },
{
    match query_get(pairs, "proxy") {
        Some(p) => Ok(split_entry(p.as_str())),
        None => Err(Rejection { status: 400, message: String::from_str("Missing 'proxy' parameter") }),
    }
}

/// Whether a probe counts as alive: the connection opened and the elapsed
/// milliseconds, cut to 32 bits, are within the deadline.
pub fn probe_passed(opened: bool, latency_ms: u64, timeout_ms: u32) -> (r: bool)
    ensures
        r == (opened && (latency_ms as u32) <= timeout_ms),
{
    opened && (latency_ms as u32) <= timeout_ms
}

/// `host:port` as the liveness report writes it.
pub open spec fn host_port_text(host: Seq<char>, port: u16) -> Seq<char> {
    host + seq![':'] + crate::decimal::decimal(port as nat)
}

/// `format!("{}:{}", host, port)`.
pub fn host_port(host: &str, port: u16) -> (r: String)
    ensures
        r@ == host_port_text(host@, port),
{
    let mut s = String::from_str(host);
    s.append(":");
    let digits = decimal_string(port as u64);
    s.append(digits.as_str());
    proof {
        reveal_strlit(":");
    }
    assert(s@ =~= host_port_text(host@, port));
    s
}

/// A relay entry written as `host:port` (with no `:` in `host`) is probed at
/// that host and port.
pub proof fn lemma_entry_roundtrip(host: Seq<char>, port: u16)
    requires
        !host.contains(':'),
    ensures
        entry_target(host_port_text(host, port)) == (host, port),
{
    let s = host_port_text(host, port);
    let d = crate::decimal::decimal(port as nat);
    assert forall|k: int| 0 <= k < host.len() implies #[trigger] s[k] != ':' by {
        assert(s[k] == host[k]);
        if s[k] == ':' {
            assert(host.contains(':'));
        }
    }
    crate::text::lemma_first_index_at(s, ':', host.len() as int);
    assert(s.take(host.len() as int) =~= host);
    assert(s.skip(host.len() as int + 1) =~= d);
    crate::decimal::lemma_decimal_roundtrip(port as nat, u16::MAX as nat);
}

/// The sweep limit is the `limit` parameter wherever it reads as a number
/// in `1..=50`; a larger number gives 50, zero gives 1, and a missing or
/// unreadable parameter gives 20.
pub proof fn lemma_limit_param(pairs: QueryView)
    ensures
        1 <= limit_of(pairs) <= 50,
        query_value(pairs, "limit"@) is None ==> limit_of(pairs) == 20,
        forall|v: Seq<char>|
            query_value(pairs, "limit"@) == Some(v) ==> match #[trigger] crate::decimal::parse_unsigned(
                v,
                usize::MAX as nat,
            ) {
                Some(n) => (1 <= n <= 50 ==> limit_of(pairs) == n) && (n > 50 ==> limit_of(pairs)
                    == 50) && (n == 0 ==> limit_of(pairs) == 1),
                None => limit_of(pairs) == 20,
            },
{
}

/// The probe deadline is the `timeout` parameter wherever it reads as a
/// `u32` of at least 500; a smaller number gives 500, and a missing or
/// unreadable parameter gives 2000.
pub proof fn lemma_timeout_param(pairs: QueryView)
    ensures
        timeout_of(pairs) >= 500,
        query_value(pairs, "timeout"@) is None ==> timeout_of(pairs) == 2000,
        forall|v: Seq<char>|
            query_value(pairs, "timeout"@) == Some(v) ==> match #[trigger] crate::decimal::parse_unsigned(
                v,
                u32::MAX as nat,
            ) {
                Some(t) => (t >= 500 ==> timeout_of(pairs) == t) && (t < 500 ==> timeout_of(pairs)
                    == 500),
                None => timeout_of(pairs) == 2000,
            },
{
}

} // verus!
