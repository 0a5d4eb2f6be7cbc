//! Where a WebSocket tunnel sends its outbound connections: directly, or to
//! a relay named in the request path or picked from the relay list.
use vstd::prelude::*;

use crate::config::Config;
use crate::decimal::parse_u16;
use crate::relay_kv::ProxyKv;
use crate::text::{
    replace_char_with, same_text, split_by_char, split_once_char, to_upper, trim,
    trim_start_matches,
};

verus! {

/// The request paths that select relays from the relay list: a two-letter
/// country code (or a comma-separated list of them) or `ALL`, in any case.
pub const RELAY_SELECTOR_PATTERN: &'static str = "(?i)^([A-Z]{2}|ALL)";

/// The name for whether the `regex` crate finds `pattern` in `text`, or
/// `None` where `pattern` does not compile.
pub uninterp spec fn regex_match(pattern: Seq<char>, text: Seq<char>) -> Option<bool>;

/// A character that `[A-Z]` matches case-insensitively: an ASCII letter,
/// or one of the two characters whose simple case folding reaches one, `ſ`
/// (U+017F, folds with `s`) and the Kelvin sign (U+212A, folds with `k`).
pub open spec fn selector_letter(c: char) -> bool {
    ||| 'A' <= c && c <= 'Z'
    ||| 'a' <= c && c <= 'z'
    ||| c == '\u{17f}'
    ||| c == '\u{212a}'
}

/// Text that [`RELAY_SELECTOR_PATTERN`] matches: its first two characters
/// are selector letters (this covers the `ALL` alternative too).
pub open spec fn selector_prefix(s: Seq<char>) -> bool {
    s.len() >= 2 && selector_letter(s[0]) && selector_letter(s[1])
}

/// `regex::Regex::new(pattern)` and, where it compiles, `Regex::is_match` on
/// `text`. The contract claims that the answer is a function of the pattern
/// and the text, and what the one pattern this library uses,
/// [`RELAY_SELECTOR_PATTERN`], matches: with `(?i)` the class `[A-Z]` also
/// takes the characters that fold to ASCII letters under the crate's simple
/// case folding, and `^` anchors at the start of the text. Other patterns'
/// semantics are left to the name.
#[verifier::external_body]
fn regex_is_match(pattern: &str, text: &str) -> (r: Option<bool>)
    ensures
        r == regex_match(pattern@, text@),
        pattern@ == RELAY_SELECTOR_PATTERN@ ==> r == Some(selector_prefix(text@)),
{
    match regex::Regex::new(pattern) {
        Ok(re) => Some(re.is_match(text)),
        Err(_) => None,
    }
}

/// `getrandom::getrandom` on a two-byte buffer. On failure the buffer keeps
/// its zeroes; nothing is claimed of the bytes.
#[verifier::external_body]
fn random_pair() -> (u8, u8) {
    let mut buf = [0u8; 2];
    let _ = getrandom::getrandom(&mut buf);
    (buf[0], buf[1])
}

/// The country codes of a selector such as `ID, SG`, upper-cased and trimmed.
pub open spec fn country_ids(upper: Seq<char>) -> Seq<Seq<char>> {
    crate::text::split_char(upper, ',').map_values(|p: Seq<char>| crate::text::trim_ws(p))
}

/// The two random bytes read as one big-endian number, reduced modulo `n`.
pub open spec fn wide_index(hi: u8, lo: u8, n: nat) -> int {
    ((hi as int) * 256 + (lo as int)) % (n as int)
}

/// The relay (`host-port`) that the path segment `proxyip` resolves to,
/// given its upper-cased form, whether it looks like a country selector,
/// the relay list and two random bytes: a random relay of all countries for
/// `ALL`, a random relay of a random listed country for a selector, and the
/// segment itself otherwise or where nothing could be picked.
pub open spec fn relay_pick(
    proxyip: Seq<char>,
    upper: Seq<char>,
    matched: bool,
    kv: crate::relay_kv::KvView,
    hi: u8,
    lo: u8,
) -> Seq<char> {
    if upper == crate::relay_kv::all_code() {
        let all = crate::relay_kv::flat_values(kv);
        if all.len() > 0 {
            crate::text::replace_char(all[wide_index(hi, lo, all.len())], ':', '-')
        } else {
            proxyip
        }
    } else if matched {
        let ids = country_ids(upper);
        let sel = ids[(hi as int) % (ids.len() as int)];
        match crate::relay_kv::lookup(kv, sel) {
            Some(list) => if list.len() > 0 {
                crate::text::replace_char(list[(lo as int) % (list.len() as int)], ':', '-')
            } else {
                proxyip
            },
            None => proxyip,
        }
    } else {
        proxyip
    }
}

/// The relay that `segment` resolves to for the random bytes `hi`, `lo`:
/// its upper-cased form decides `ALL`, and [`RELAY_SELECTOR_PATTERN`]
/// decides whether it is a country selector.
pub open spec fn resolved_with(segment: Seq<char>, kv: crate::relay_kv::KvView, hi: u8, lo: u8) -> Seq<char> {
    relay_pick(segment, crate::text::upper_of(segment), selector_prefix(segment), kv, hi, lo)
}

proof fn lemma_split_nonempty(s: Seq<char>, c: char)
    ensures
        crate::text::split_char(s, c).len() >= 1,
    decreases s.len(),
{
    let i = crate::text::first_index(s, c);
    if i < s.len() {
        lemma_split_nonempty(s.skip((i + 1) as int), c);
    }
}

/// Resolves the path segment `proxyip` against the relay list, given its
/// upper-cased form, whether it matched [`RELAY_SELECTOR_PATTERN`] and two
/// random bytes.
pub fn pick_relay(proxyip: &str, upper: &str, matched: bool, kv: &ProxyKv, hi: u8, lo: u8) -> (r:
    String)
    ensures
        r@ == relay_pick(proxyip@, upper@, matched, kv@, hi, lo),
{
    let is_all = same_text(upper, "ALL");
    proof {
        reveal_strlit("ALL");
        assert("ALL"@ =~= crate::relay_kv::all_code());
    }
    if is_all {
        let all = kv.all_entries();
        if all.len() > 0 {
            let wide: usize = ((hi as usize) << 8) | (lo as usize);
            assert(((hi as usize) << 8) | (lo as usize) == (hi as usize) * 256 + (lo as usize))
                by (bit_vector);
            let idx = wide % all.len();
            assert(all.deep_view()[idx as int] == all[idx as int]@);
            return replace_char_with(all[idx].as_str(), ':', '-');
        }
        return String::from_str(proxyip);
    }
    if !matched {
        return String::from_str(proxyip);
    }
    let parts = split_by_char(upper, ',');
    let mut ids: Vec<String> = Vec::new();
    let mut k: usize = 0;
    while k < parts.len()
        invariant
            k <= parts.len(),
            ids@.map_values(|p: String| p@) == parts@.map_values(|p: String| p@).take(
                k as int,
            ).map_values(|p: Seq<char>| crate::text::trim_ws(p)),
        decreases parts.len() - k,
    {
        let t = trim(parts[k].as_str());
        let ghost before = ids@.map_values(|p: String| p@);
        ids.push(t);
        assert(ids@.map_values(|p: String| p@) =~= before.push(t@));
        assert(parts@.map_values(|p: String| p@).take(k + 1).map_values(
            |p: Seq<char>| crate::text::trim_ws(p),
        ) =~= parts@.map_values(|p: String| p@).take(k as int).map_values(
            |p: Seq<char>| crate::text::trim_ws(p),
        ).push(crate::text::trim_ws(parts@[k as int]@)));
        k = k + 1;
    }
    proof {
        assert(parts@.map_values(|p: String| p@).take(parts.len() as int) =~= parts@.map_values(
            |p: String| p@,
        ));
        lemma_split_nonempty(upper@, ',');
        assert(ids@.map_values(|p: String| p@) == country_ids(upper@));
    }
    let sel_index = (hi as usize) % ids.len();
    let sel = &ids[sel_index];
    assert(sel@ == country_ids(upper@)[sel_index as int]);
    match kv.get(sel.as_str()) {
        Some(list) => {
            if list.len() > 0 {
                let j = (lo as usize) % list.len();
                assert(list.deep_view()[j as int] == list[j as int]@);
                replace_char_with(list[j].as_str(), ':', '-')
            } else {
                String::from_str(proxyip)
            }
        },
        None => String::from_str(proxyip),
    }
}

/// Resolves the path segment `proxyip` against the relay list, drawing two
/// random bytes. `None` would mean that [`RELAY_SELECTOR_PATTERN`] does not
/// compile, which it does.
pub fn choose_relay(proxyip: &str, kv: &ProxyKv) -> (r: Option<String>)
    ensures
        r matches Some(s) && relay_from_list(proxyip@, kv@, s@),
{
    let upper = to_upper(proxyip);
    let (hi, lo) = random_pair();
    let is_all = same_text(upper.as_str(), "ALL");
    proof {
        reveal_strlit("ALL");
        assert("ALL"@ =~= crate::relay_kv::all_code());
    }
    let matched = if is_all {
        false
    } else {
        match regex_is_match(RELAY_SELECTOR_PATTERN, proxyip) {
            Some(m) => m,
            None => return None,
        }
    };
    let r = pick_relay(proxyip, upper.as_str(), matched, kv, hi, lo);
    assert(r@ == resolved_with(proxyip@, kv@, hi, lo));
    assert(relay_from_list(proxyip@, kv@, r@));
    Some(r)
}

/// The path segment that asks for a relay: the path without its leading
/// slashes, unless that is empty, `direct` or `vless`.
pub open spec fn requested_relay(path: Seq<char>) -> Option<Seq<char>> {
    let p = crate::text::trim_start_char(path, '/');
    if p.len() > 0 && p != "direct"@ && p != "vless"@ {
        Some(p)
    } else {
        None
    }
}

/// The path segment of a tunnel request that names or selects a relay.
pub fn relay_request(path: &str) -> (r: Option<String>)
    ensures
        match r {
            Some(p) => requested_relay(path@) == Some(p@),
            None => requested_relay(path@) is None,
        },
{
    let p = trim_start_matches(path, '/');
    if !p.as_str().is_empty() && !same_text(p.as_str(), "direct") && !same_text(
        p.as_str(),
        "vless",
    ) {
        Some(p)
    } else {
        None
    }
}

/// The `(address, port)` a relay spelling `addr-port` (or `addr:port`)
/// names; `-` is looked for first.
pub open spec fn endpoint_of(relay: Seq<char>) -> Option<(Seq<char>, u16)> {
    let parts = match crate::text::split_once(relay, '-') {
        Some(x) => Some(x),
        None => crate::text::split_once(relay, ':'),
    };
    match parts {
        Some((addr, port)) => match crate::decimal::parse_unsigned(port, u16::MAX as nat) {
            Some(p) => Some((addr, p as u16)),
            None => None,
        },
        None => None,
    }
}

/// Reads a relay spelling `addr-port` or `addr:port`.
pub fn relay_endpoint(relay: &str) -> (r: Option<(String, u16)>)
    ensures
        match r {
            Some((a, p)) => endpoint_of(relay@) == Some((a@, p)),
            None => endpoint_of(relay@) is None,
        },
{
    let parts = match split_once_char(relay, '-') {
        Some(x) => Some(x),
        None => split_once_char(relay, ':'),
    };
    match parts {
        Some((addr, port)) => match parse_u16(port.as_str()) {
            Some(p) => Some((addr, p)),
            None => None,
        },
        None => None,
    }
}

impl Config {
    /// These settings with outbound connections sent to the relay that
    /// `relay` spells; unchanged where `relay` spells none.
    pub fn with_relay(self, relay: &str) -> (r: Config)
        ensures
            r.uuid == self.uuid,
            match endpoint_of(relay@) {
                Some((a, p)) => r.proxy_addr@ == a && r.proxy_port == p,
                None => r.proxy_addr@ == self.proxy_addr@ && r.proxy_port == self.proxy_port,
            },
    {
        let mut c = self;
        match relay_endpoint(relay) {
            Some((addr, port)) => {
                c.proxy_addr = addr;
                c.proxy_port = port;
            },
            None => {},
        }
        c
    }
}

/// `relay` is what `segment` resolves to against `list` for some pair of
/// random bytes.
pub open spec fn relay_from_list(segment: Seq<char>, list: crate::relay_kv::KvView, relay: Seq<char>) -> bool {
    exists|hi: u8, lo: u8| relay == #[trigger] resolved_with(segment, list, hi, lo)
}

/// The relay spelling a tunnel request with this path ends up with: the
/// path segment resolved against the relay list where the list could be
/// loaded, the segment itself otherwise.
pub open spec fn resolved_relay_ok(
    segment: Seq<char>,
    kv: Option<crate::relay_kv::KvView>,
    relay: Seq<char>,
) -> bool {
    match kv {
        None => relay == segment,
        Some(list) => relay_from_list(segment, list, relay),
    }
}

pub open spec fn kv_opt_view(kv: Option<&ProxyKv>) -> Option<crate::relay_kv::KvView> {
    match kv {
        Some(k) => Some(k@),
        None => None,
    }
}

/// The settings of a WebSocket tunnel request whose URL path is `path`,
/// given the relay list where it could be loaded; always `Some`.
pub fn tunnel_config(uuid: [u8; 16], path: &str, kv: Option<&ProxyKv>) -> (r: Option<Config>)
    ensures
        match r {
            Some(c) => c.uuid == uuid && match requested_relay(path@) {
                None => c.proxy_addr@ == Seq::<char>::empty() && c.proxy_port == 0,
                Some(segment) => exists|relay: Seq<char>|
                    #[trigger] resolved_relay_ok(segment, kv_opt_view(kv), relay) && match endpoint_of(
                        relay,
                    ) {
                        Some((a, p)) => c.proxy_addr@ == a && c.proxy_port == p,
                        None => c.proxy_addr@ == Seq::<char>::empty() && c.proxy_port == 0,
                    },
            },
            None => false,
        },
{
    let config = Config::direct(uuid);
    match relay_request(path) {
        None => Some(config),
        Some(segment) => {
            let ghost seg = segment@;
            let relay = match kv {
                Some(list) => match choose_relay(segment.as_str(), list) {
                    Some(r) => r,
                    None => return None,
                },
                None => segment,
            };
            let c = config.with_relay(relay.as_str());
            assert(resolved_relay_ok(
                requested_relay(path@).unwrap(),
                kv_opt_view(kv),
                relay@,
            ));
            Some(c)
        },
    }
}

/// A tunnel's relay is the requested path segment itself or an entry of the
/// relay list with its `:` turned into `-`.
pub proof fn lemma_pick_from_list(
    proxyip: Seq<char>,
    upper: Seq<char>,
    matched: bool,
    kv: crate::relay_kv::KvView,
    hi: u8,
    lo: u8,
)
    ensures
        ({
            let r = relay_pick(proxyip, upper, matched, kv, hi, lo);
            r == proxyip || exists|e: Seq<char>|
                crate::relay_kv::flat_values(kv).contains(e) && r == #[trigger] crate::text::replace_char(
                    e,
                    ':',
                    '-',
                )
        }),
{
    let r = relay_pick(proxyip, upper, matched, kv, hi, lo);
    if upper == crate::relay_kv::all_code() {
        let all = crate::relay_kv::flat_values(kv);
        if all.len() > 0 {
            let e = all[wide_index(hi, lo, all.len())];
            assert(all.contains(e));
            assert(r == crate::text::replace_char(e, ':', '-'));
        }
    } else if matched {
        let ids = country_ids(upper);
        let sel = ids[(hi as int) % (ids.len() as int)];
        match crate::relay_kv::lookup(kv, sel) {
            Some(list) => {
                if list.len() > 0 {
                    let i = crate::relay_kv::key_index(kv, sel);
                    let j = (lo as int) % (list.len() as int);
                    crate::relay_kv::lemma_flat_values_contains(kv, i, j);
                    let e = list[j];
                    assert(r == crate::text::replace_char(e, ':', '-'));
                }
            },
            None => {},
        }
    }
}

/// The path segment `all`, in any letter case, picks a relay among all
/// countries' relays (the segment itself where the list is empty).
pub proof fn lemma_all_path(segment: Seq<char>, kv: crate::relay_kv::KvView, hi: u8, lo: u8)
    requires
        vstd::utf8::is_ascii_chars(segment),
        crate::text::ascii_upper_seq(segment) == crate::relay_kv::all_code(),
    ensures
        resolved_with(segment, kv, hi, lo) == ({
            let all = crate::relay_kv::flat_values(kv);
            if all.len() > 0 {
                crate::text::replace_char(all[wide_index(hi, lo, all.len())], ':', '-')
            } else {
                segment
            }
        }),
{
}

/// Any other segment that starts with two selector letters is read as a
/// comma-separated list of country codes; a segment that does not is used
/// as the relay itself.
pub proof fn lemma_selector_path(segment: Seq<char>, kv: crate::relay_kv::KvView, hi: u8, lo: u8)
    requires
        crate::text::upper_of(segment) != crate::relay_kv::all_code(),
    ensures
        selector_prefix(segment) ==> resolved_with(segment, kv, hi, lo) == relay_pick(
            segment,
            crate::text::upper_of(segment),
            true,
            kv,
            hi,
            lo,
        ),
        !selector_prefix(segment) ==> resolved_with(segment, kv, hi, lo) == segment,
{
}

/// For a country selector, the country is piece `hi mod n` of all `n`
/// comma-separated pieces of the upper-cased segment, trimmed; where that
/// country has relays, the tunnel goes out through its relay `lo mod len`
/// (with `:` turned into `-`), and where it has none the segment itself is
/// used. No piece holds a comma.
pub proof fn lemma_selector_country(
    proxyip: Seq<char>,
    upper: Seq<char>,
    kv: crate::relay_kv::KvView,
    hi: u8,
    lo: u8,
)
    requires
        upper != crate::relay_kv::all_code(),
    ensures
        ({
            let pieces = crate::text::split_char(upper, ',');
            let code = crate::text::trim_ws(pieces[(hi as int) % (pieces.len() as int)]);
            let r = relay_pick(proxyip, upper, true, kv, hi, lo);
            &&& pieces.len() >= 1
            &&& forall|i: int| 0 <= i < pieces.len() ==> !(#[trigger] pieces[i]).contains(',')
            &&& match crate::relay_kv::lookup(kv, code) {
                Some(list) => if list.len() > 0 {
                    r == crate::text::replace_char(list[(lo as int) % (list.len() as int)], ':', '-')
                } else {
                    r == proxyip
                },
                None => r == proxyip,
            }
        }),
{
    let pieces = crate::text::split_char(upper, ',');
    crate::text::lemma_split_pieces(upper, ',');
    let ids = country_ids(upper);
    let i = (hi as int) % (pieces.len() as int);
    assert(ids.len() == pieces.len());
    assert(ids[i] == crate::text::trim_ws(pieces[i]));
}

/// The relays of the `i`-th country of a selector.
pub open spec fn listed_relays(kv: crate::relay_kv::KvView, upper: Seq<char>, i: int) -> Seq<
    Seq<char>,
> {
    crate::relay_kv::lookup(kv, crate::text::trim_ws(crate::text::split_char(upper, ',')[i])).unwrap()
}

/// When every listed country has relays, a country selector always ends in
/// one of the listed countries' relays, never in the selector text.
pub proof fn lemma_selector_always_relays(
    proxyip: Seq<char>,
    upper: Seq<char>,
    kv: crate::relay_kv::KvView,
    hi: u8,
    lo: u8,
)
    requires
        upper != crate::relay_kv::all_code(),
        forall|i: int|
            0 <= i < crate::text::split_char(upper, ',').len() ==> (match crate::relay_kv::lookup(
                kv,
                crate::text::trim_ws(#[trigger] crate::text::split_char(upper, ',')[i]),
            ) {
                Some(list) => list.len() > 0,
                None => false,
            }),
    ensures
        exists|i: int, j: int|
            0 <= i < crate::text::split_char(upper, ',').len() && 0 <= j < listed_relays(
                kv,
                upper,
                i,
            ).len() && relay_pick(proxyip, upper, true, kv, hi, lo) == crate::text::replace_char(
                #[trigger] listed_relays(kv, upper, i)[j],
                ':',
                '-',
            ),
{
    lemma_selector_country(proxyip, upper, kv, hi, lo);
    let pieces = crate::text::split_char(upper, ',');
    let i = (hi as int) % (pieces.len() as int);
    let list = crate::relay_kv::lookup(kv, crate::text::trim_ws(pieces[i])).unwrap();
    let j = (lo as int) % (list.len() as int);
    assert(list == listed_relays(kv, upper, i));
    assert(relay_pick(proxyip, upper, true, kv, hi, lo) == crate::text::replace_char(
        listed_relays(kv, upper, i)[j],
        ':',
        '-',
    ));
}

} // verus!
