//! Relay liveness checks: parsing relay entries, building probe outcomes and
//! putting concurrently finished probes back in input order.
use vstd::prelude::*;

use crate::decimal::parse_u16;
use crate::text::{
    contains_char, rsplit_once_char, split_once_char, strip_prefix_char, trim, trim_start_matches,
};

verus! {

/// Outcome of probing a single proxy relay.
#[derive(Debug)]
pub struct ProbeResult {
    pub addr: String,
    pub port: u16,
    pub alive: bool,
    /// Round-trip connect latency in milliseconds. `None` when the relay is
    /// unreachable or the probe exceeded its deadline.
    pub latency_ms: Option<u32>,
}

/// A target to probe, parsed from an `ip:port` (or `host:port`) relay string.
#[derive(Debug, Clone)]
pub struct Target {
    pub addr: String,
    pub port: u16,
}

/// The `(host, port)` that a relay entry names: `[host]:port` for an IPv6
/// literal, `host:port` otherwise; surrounding whitespace is ignored.
pub open spec fn target_of(raw: Seq<char>) -> Option<(Seq<char>, u16)> {
    let t = crate::text::trim_ws(raw);
    if t.len() == 0 {
        None
    } else if t[0] == '[' {
        match crate::text::split_once(t.drop_first(), ']') {
            None => None,
            Some((host, after)) => match crate::decimal::parse_unsigned(
                crate::text::trim_start_char(after, ':'),
                u16::MAX as nat,
            ) {
                Some(p) => Some((host, p as u16)),
                None => None,
            },
        }
    } else {
        match crate::text::rsplit_once(t, ':') {
            None => None,
            Some((host, port)) => if host.contains(':') {
                None
            } else {
                match crate::decimal::parse_unsigned(port, u16::MAX as nat) {
                    Some(p) => if host.len() == 0 {
                        None
                    } else {
                        Some((host, p as u16))
                    },
                    None => None,
                }
            },
        }
    }
}

/// Parse an `ip:port` / `host:port` relay entry into a [`Target`].
///
/// Entries are `[host]:port` for IPv6 and `host:port` otherwise; an
/// unbracketed host that itself holds a `:` is refused as ambiguous.
pub fn parse_target(raw: &str) -> (r: Option<Target>)
    ensures
        match r {
            Some(t) => target_of(raw@) == Some((t.addr@, t.port)),
            None => target_of(raw@) is None,
        },
{
    let t = trim(raw);
    if t.as_str().is_empty() {
        return None;
    }
    match strip_prefix_char(t.as_str(), '[') {
        Some(rest) => {
            let (host, after) = match split_once_char(rest.as_str(), ']') {
                Some(parts) => parts,
                None => return None,
            };
            let digits = trim_start_matches(after.as_str(), ':');
            match parse_u16(digits.as_str()) {
                Some(port) => Some(Target { addr: host, port }),
                None => None,
            }
        },
        None => {
            let (host, port) = match rsplit_once_char(t.as_str(), ':') {
                Some(parts) => parts,
                None => return None,
            };
            if contains_char(host.as_str(), ':') {
                return None;
            }
            let port = match parse_u16(port.as_str()) {
                Some(p) => p,
                None => return None,
            };
            if host.as_str().is_empty() {
                return None;
            }
            Some(Target { addr: host, port })
        },
    }
}

impl ProbeResult {
    /// The result for a relay that could not be reached in time.
    pub fn dead(addr: String, port: u16) -> (r: ProbeResult)
        ensures
            r.addr == addr,
            r.port == port,
            !r.alive,
            r.latency_ms is None,
    {
        ProbeResult { addr, port, alive: false, latency_ms: None }
    }

    /// The result of one probe of `target`: alive with the elapsed
    /// milliseconds (truncated to 32 bits) when the connection opened before
    /// the deadline, dead otherwise.
    pub fn from_probe(target: Target, connected: bool, started_ms: u64, now_ms: u64) -> (r:
        ProbeResult)
        requires
            connected ==> started_ms <= now_ms,
        ensures
            r.addr == target.addr,
            r.port == target.port,
            r.alive == connected,
            r.latency_ms == (if connected {
                Some((now_ms - started_ms) as u32)
            } else {
                None::<u32>
            }),
    {
        if connected {
            let latency = (now_ms - started_ms) as u32;
            ProbeResult { addr: target.addr, port: target.port, alive: true, latency_ms: Some(latency) }
        } else {
            ProbeResult::dead(target.addr, target.port)
        }
    }
}

impl ProbeResult {
    /// The result of probing `target`, given whether the socket could be
    /// created and whether it opened before the deadline, with the clock
    /// read at the start and at the end: alive with the elapsed
    /// milliseconds (cut to 32 bits) exactly when both happened.
    pub fn probe_outcome(
        target: Target,
        socket_created: bool,
        opened_in_time: bool,
        started_ms: u64,
        now_ms: u64,
    ) -> (r: ProbeResult)
        requires
            socket_created && opened_in_time ==> started_ms <= now_ms,
        ensures
            r.addr == target.addr,
            r.port == target.port,
            r.alive == (socket_created && opened_in_time),
            r.alive <==> r.latency_ms is Some,
            r.alive ==> r.latency_ms == Some((now_ms - started_ms) as u32),
    {
        if socket_created {
            ProbeResult::from_probe(target, opened_in_time, started_ms, now_ms)
        } else {
            ProbeResult::dead(target.addr, target.port)
        }
    }
}

/// The slots after each finished job `(index, value)` has been written to
/// slot `index`, in completion order, starting from `total` empty slots.
pub open spec fn placed<T>(total: nat, done: Seq<(usize, T)>) -> Seq<Option<T>>
    decreases done.len(),
{
    if done.len() == 0 {
        Seq::new(total, |i: int| None::<T>)
    } else {
        placed(total, done.drop_last()).update(done.last().0 as int, Some(done.last().1))
    }
}

/// The values of the filled slots, in slot order.
pub open spec fn filled<T>(s: Seq<Option<T>>) -> Seq<T>
    decreases s.len(),
{
    if s.len() == 0 {
        Seq::empty()
    } else {
        match s.last() {
            Some(x) => filled(s.drop_last()).push(x),
            None => filled(s.drop_last()),
        }
    }
}

/// `v` in reverse order.
fn reversed<T>(v: Vec<T>) -> (r: Vec<T>)
    ensures
        r@ == v@.reverse(),
{
    let mut v = v;
    let ghost orig = v@;
    let mut r: Vec<T> = Vec::new();
    while v.len() > 0
        invariant
            orig == v@ + r@.reverse(),
        decreases v.len(),
    {
        let ghost before = v@;
        let x = v.pop().unwrap();
        r.push(x);
        assert(before =~= v@.push(x));
        assert(r@.reverse() =~= seq![x] + r@.drop_last().reverse());
        assert(orig =~= v@ + r@.reverse());
    }
    assert(orig =~= r@.reverse());
    assert(r@ =~= orig.reverse());
    r
}

proof fn lemma_placed_len<T>(total: nat, done: Seq<(usize, T)>)
    requires
        forall|a: int| 0 <= a < done.len() ==> (#[trigger] done[a]).0 < total,
    ensures
        placed(total, done).len() == total,
    decreases done.len(),
{
    if done.len() > 0 {
        let t = done.drop_last();
        assert forall|a: int| 0 <= a < t.len() implies (#[trigger] t[a]).0 < total by {
            assert(t[a] == done[a]);
        }
        lemma_placed_len(total, t);
        assert(done[done.len() - 1].0 < total);
    }
}

/// Puts the values of finished jobs back in the order of their indices:
/// each `(i, value)` fills slot `i` of `total` slots, a later job for the
/// same slot replacing an earlier one, and the filled slots are returned in
/// slot order.
pub fn order_by_index<T>(total: usize, done: Vec<(usize, T)>) -> (r: Vec<T>)
    requires
        forall|j: int| 0 <= j < done@.len() ==> (#[trigger] done@[j]).0 < total,
    ensures
        r@ == filled(placed(total as nat, done@)),
{
    let ghost jobs = done@;
    let done_len = done.len();
    assert(jobs.len() == done_len);
    let mut slots: Vec<Option<T>> = Vec::new();
    let mut i: usize = 0;
    while i < total
        invariant
            i <= total,
            slots@ == Seq::new(i as nat, |k: int| None::<T>),
        decreases total - i,
    {
        slots.push(None);
        assert(slots@ =~= Seq::new((i + 1) as nat, |k: int| None::<T>));
        i = i + 1;
    }
    assert(placed(total as nat, jobs.take(0)) == slots@) by {
        assert(jobs.take(0) =~= Seq::<(usize, T)>::empty());
    }
    let mut pending = reversed(done);
    let mut k: usize = 0;
    while pending.len() > 0
        invariant
            k + pending@.len() == jobs.len(),
            jobs.len() <= usize::MAX,
            pending@ == jobs.skip(k as int).reverse(),
            slots@ == placed(total as nat, jobs.take(k as int)),
            slots@.len() == total,
            forall|j: int| 0 <= j < jobs.len() ==> (#[trigger] jobs[j]).0 < total,
        decreases pending.len(),
    {
        let ghost before = pending@;
        let (idx, value) = pending.pop().unwrap();
        proof {
            assert(before.last() == jobs.skip(k as int).reverse().last());
            assert(jobs.skip(k as int).reverse().last() == jobs[k as int]);
            assert(pending@ =~= jobs.skip(k + 1).reverse());
            assert(jobs.take(k + 1).drop_last() =~= jobs.take(k as int));
            assert(jobs.take(k + 1).last() == jobs[k as int]);
            assert forall|a: int| 0 <= a < jobs.take(k as int).len() implies (#[trigger] jobs.take(
                k as int,
            )[a]).0 < total by {
                assert(jobs.take(k as int)[a] == jobs[a]);
            }
            lemma_placed_len(total as nat, jobs.take(k as int));
        }
        slots.set(idx, Some(value));
        k = k + 1;
    }
    assert(jobs.take(k as int) =~= jobs);
    let mut rest = reversed(slots);
    let ghost all = placed(total as nat, jobs);
    let mut out: Vec<T> = Vec::new();
    let mut m: usize = 0;
    assert(all.take(0) =~= Seq::<Option<T>>::empty());
    proof {
        lemma_placed_len(total as nat, jobs);
    }
    while rest.len() > 0
        invariant
            m + rest@.len() == all.len(),
            all.len() == total,
            rest@ == all.skip(m as int).reverse(),
            out@ == filled(all.take(m as int)),
        decreases rest.len(),
    {
        let ghost before = rest@;
        let slot = rest.pop().unwrap();
        proof {
            assert(before.last() == all.skip(m as int).reverse().last());
            assert(rest@ =~= all.skip(m + 1).reverse());
            assert(all.take(m + 1).drop_last() =~= all.take(m as int));
            assert(all.take(m + 1).last() == slot);
        }
        match slot {
            Some(x) => {
                out.push(x);
            },
            None => {},
        }
        m = m + 1;
    }
    assert(all.take(m as int) =~= all);
    out
}

proof fn lemma_filled_all_some<T>(s: Seq<Option<T>>)
    requires
        forall|i: int| 0 <= i < s.len() ==> (#[trigger] s[i]) is Some,
    ensures
        filled(s).len() == s.len(),
        forall|i: int| 0 <= i < s.len() ==> Some(#[trigger] filled(s)[i]) == s[i],
    decreases s.len(),
{
    if s.len() > 0 {
        let t = s.drop_last();
        assert forall|i: int| 0 <= i < t.len() implies (#[trigger] t[i]) is Some by {
            assert(t[i] == s[i]);
        }
        lemma_filled_all_some(t);
        assert(s.last() is Some);
        assert forall|i: int| 0 <= i < s.len() implies Some(#[trigger] filled(s)[i]) == s[i] by {
            if i < s.len() - 1 {
                assert(filled(s)[i] == filled(t)[i]);
                assert(t[i] == s[i]);
            }
        }
    }
}

proof fn lemma_placed_slot<T>(total: nat, done: Seq<(usize, T)>, j: int)
    requires
        0 <= j < done.len(),
        forall|a: int| 0 <= a < done.len() ==> (#[trigger] done[a]).0 < total,
        forall|a: int, b: int|
            0 <= a < done.len() && 0 <= b < done.len() && a != b ==> (#[trigger] done[a]).0 != (
            #[trigger] done[b]).0,
    ensures
        placed(total, done)[done[j].0 as int] == Some(done[j].1),
    decreases done.len(),
{
    lemma_placed_len(total, done);
    let t = done.drop_last();
    assert forall|a: int| 0 <= a < t.len() implies (#[trigger] t[a]).0 < total by {
        assert(t[a] == done[a]);
    }
    lemma_placed_len(total, t);
    if j < done.len() - 1 {
        assert forall|a: int, b: int|
            0 <= a < t.len() && 0 <= b < t.len() && a != b implies (#[trigger] t[a]).0 != (
            #[trigger] t[b]).0 by {
            assert(t[a] == done[a]);
            assert(t[b] == done[b]);
        }
        assert(t[j] == done[j]);
        lemma_placed_slot(total, t, j);
        assert(done[j].0 != done[done.len() - 1].0);
        lemma_placed_len(total, t);
    }
}

/// Some finished job carries index `i`.
pub open spec fn slot_claimed<T>(done: Seq<(usize, T)>, i: int) -> bool {
    exists|j: int| 0 <= j < done.len() && (#[trigger] done[j]).0 == i
}

proof fn lemma_placed_covered<T>(total: nat, done: Seq<(usize, T)>, i: int)
    requires
        0 <= i < total,
        slot_claimed(done, i),
        forall|a: int| 0 <= a < done.len() ==> (#[trigger] done[a]).0 < total,
    ensures
        placed(total, done)[i] is Some,
    decreases done.len(),
{
    lemma_placed_len(total, done);
    let t = done.drop_last();
    assert forall|a: int| 0 <= a < t.len() implies (#[trigger] t[a]).0 < total by {
        assert(t[a] == done[a]);
    }
    lemma_placed_len(total, t);
    if done.last().0 != i {
        let j = choose|j: int| 0 <= j < done.len() && (#[trigger] done[j]).0 == i;
        assert(j != done.len() - 1);
        assert(t[j] == done[j]);
        assert(slot_claimed(t, i));
        assert forall|a: int| 0 <= a < t.len() implies (#[trigger] t[a]).0 < total by {
            assert(t[a] == done[a]);
        }
        lemma_placed_covered(total, t, i);
    }
}

/// When every slot below `total` is claimed by exactly one finished job,
/// the reordered results hold one value per slot, each at its job's index.
pub proof fn lemma_order_by_index_permutation<T>(total: nat, done: Seq<(usize, T)>)
    requires
        forall|j: int| 0 <= j < done.len() ==> (#[trigger] done[j]).0 < total,
        forall|i: int| 0 <= i < total ==> #[trigger] slot_claimed(done, i),
        forall|a: int, b: int|
            0 <= a < done.len() && 0 <= b < done.len() && a != b ==> (#[trigger] done[a]).0 != (
            #[trigger] done[b]).0,
    ensures
        filled(placed(total, done)).len() == total,
        forall|j: int|
            0 <= j < done.len() ==> filled(placed(total, done))[(#[trigger] done[j]).0 as int]
                == done[j].1,
{
    let s = placed(total, done);
    lemma_placed_len(total, done);
    assert forall|i: int| 0 <= i < s.len() implies (#[trigger] s[i]) is Some by {
        lemma_placed_covered(total, done, i);
    }
    lemma_filled_all_some(s);
    assert forall|j: int| 0 <= j < done.len() implies filled(s)[(#[trigger] done[j]).0 as int]
        == done[j].1 by {
        lemma_placed_slot(total, done, j);
        assert(Some(filled(s)[done[j].0 as int]) == s[done[j].0 as int]);
    }
}

/// A relay entry written as `host:port` parses back to that target, for a
/// non-empty host with no `:`, not starting with `[` or whitespace.
pub proof fn lemma_target_roundtrip(host: Seq<char>, port: u16)
    requires
        host.len() > 0,
        !host.contains(':'),
        host[0] != '[',
        !crate::text::is_whitespace(host[0]),
    ensures
        target_of(crate::check::host_port_text(host, port)) == Some((host, port)),
{
    let s = crate::check::host_port_text(host, port);
    let d = crate::decimal::decimal(port as nat);
    crate::decimal::lemma_decimal_digits(port as nat);
    assert(s.last() == d.last());
    assert(crate::decimal::is_digit(d[d.len() - 1]));
    crate::text::lemma_trim_noop(s);
    assert forall|k: int| host.len() + 1 <= k < s.len() implies #[trigger] s[k] != ':' by {
        assert(s[k] == d[k - host.len() - 1]);
        assert(crate::decimal::is_digit(d[k - host.len() - 1]));
    }
    assert(s[host.len() as int] == ':');
    crate::text::lemma_last_index_at(s, ':', host.len() as int + 1);
    assert(s.take(host.len() as int) =~= host);
    assert(s.skip(host.len() as int + 1) =~= d);
    crate::decimal::lemma_decimal_roundtrip(port as nat, u16::MAX as nat);
}

/// `k` colons.
pub open spec fn colons(k: nat) -> Seq<char> {
    Seq::new(k, |i: int| ':')
}

/// `s` is `[host]`, any number of `:`, then the port spelled `digits`.
pub open spec fn bracket_entry(s: Seq<char>, host: Seq<char>, k: nat, digits: Seq<char>, port: u16) -> bool {
    &&& s == seq!['['] + host + seq![']'] + colons(k) + digits
    &&& !host.contains(']')
    &&& crate::decimal::parse_unsigned(digits, u16::MAX as nat) == Some(port as nat)
}

/// `s` is `host:digits` with a non-empty host that holds no `:` and does
/// not start with `[`.
pub open spec fn plain_entry(s: Seq<char>, host: Seq<char>, digits: Seq<char>, port: u16) -> bool {
    &&& s == host + seq![':'] + digits
    &&& host.len() > 0
    &&& !host.contains(':')
    &&& host[0] != '['
    &&& crate::decimal::parse_unsigned(digits, u16::MAX as nat) == Some(port as nat)
}

/// Which relay entries are accepted: once trimmed, exactly `[host]` followed
/// by any number of `:` and a port, or `host:port` with a non-empty host that
/// holds no `:` and does not start with `[`.
pub proof fn lemma_accepted_entries(raw: Seq<char>, host: Seq<char>, port: u16)
    ensures
        target_of(raw) == Some((host, port)) <==> ((exists|k: nat, digits: Seq<char>|
            #[trigger] bracket_entry(crate::text::trim_ws(raw), host, k, digits, port)) || (exists|
            digits: Seq<char>,
        | #[trigger] plain_entry(crate::text::trim_ws(raw), host, digits, port))),
{
    let t = crate::text::trim_ws(raw);
    if target_of(raw) == Some((host, port)) {
        if t[0] == '[' {
            let rest = t.drop_first();
            let i = crate::text::first_index(rest, ']');
            crate::text::lemma_first_index_facts(rest, ']');
            let after = rest.skip(i as int + 1);
            let k = crate::text::lead_run(after, crate::text::is_char(':'));
            crate::text::lemma_lead_run_facts(after, crate::text::is_char(':'));
            let d = after.skip(k as int);
            assert(rest.take(i as int) == host);
            assert(after.take(k as int) =~= colons(k));
            assert(after =~= after.take(k as int) + d);
            assert(rest =~= host + seq![']'] + after);
            assert(t =~= seq!['['] + host + seq![']'] + colons(k) + d);
            assert(!host.contains(']')) by {
                if host.contains(']') {
                    let j = choose|j: int| 0 <= j < host.len() && host[j] == ']';
                    assert(rest[j] == host[j]);
                }
            }
            assert(bracket_entry(t, host, k, d, port));
        } else {
            let k = crate::text::last_index_plus_one(t, ':');
            crate::text::lemma_last_index_facts(t, ':');
            let d = t.skip(k as int);
            assert(t.take(k - 1) == host);
            assert(t =~= host + seq![':'] + d);
            assert(host[0] == t[0]);
            assert(plain_entry(t, host, d, port));
        }
    }
    if exists|k: nat, digits: Seq<char>| #[trigger] bracket_entry(t, host, k, digits, port) {
        let (k, d) = choose|k: nat, digits: Seq<char>| #[trigger] bracket_entry(t, host, k, digits, port);
        crate::decimal::lemma_parsed_chars(d, u16::MAX as nat);
        assert(t[0] == '[');
        let rest = t.drop_first();
        assert(rest =~= host + (seq![']'] + colons(k) + d));
        assert forall|j: int| 0 <= j < host.len() implies #[trigger] rest[j] != ']' by {
            assert(rest[j] == host[j]);
            if host[j] == ']' {
                assert(host.contains(']'));
            }
        }
        assert(rest[host.len() as int] == ']');
        crate::text::lemma_first_index_at(rest, ']', host.len() as int);
        let after = rest.skip(host.len() as int + 1);
        assert(after =~= colons(k) + d);
        assert(rest.take(host.len() as int) =~= host);
        assert forall|j: int| 0 <= j < k implies crate::text::is_char(':')(#[trigger] after[j]) by {}
        assert(after[k as int] == d[0]);
        assert(d[0] == '+' || crate::decimal::is_digit(d[0]));
        crate::text::lemma_lead_run_facts(after, crate::text::is_char(':'));
        crate::text::lemma_lead_run_at(after, crate::text::is_char(':'), k as int);
        assert(crate::text::trim_start_char(after, ':') =~= d);
        assert(target_of(raw) == Some((host, port)));
    }
    if exists|digits: Seq<char>| #[trigger] plain_entry(t, host, digits, port) {
        let d = choose|digits: Seq<char>| #[trigger] plain_entry(t, host, digits, port);
        crate::decimal::lemma_parsed_chars(d, u16::MAX as nat);
        assert(t[0] == host[0]);
        assert forall|j: int| host.len() + 1 <= j < t.len() implies #[trigger] t[j] != ':' by {
            assert(t[j] == d[j - host.len() - 1]);
            assert(d[j - host.len() - 1] == '+' || crate::decimal::is_digit(d[j - host.len() - 1]));
        }
        assert(t[host.len() as int] == ':');
        crate::text::lemma_last_index_at(t, ':', host.len() as int + 1);
        assert(t.take(host.len() as int) =~= host);
        assert(t.skip(host.len() as int + 1) =~= d);
        assert(target_of(raw) == Some((host, port)));
    }
}

/// Probing many targets concurrently gives one result per target, in the
/// targets' order, when every target index comes back exactly once and each
/// probe keeps its target's address and port.
pub proof fn lemma_probe_all_in_order(targets: Seq<(Seq<char>, u16)>, done: Seq<(usize, ProbeResult)>)
    requires
        forall|j: int| 0 <= j < done.len() ==> (#[trigger] done[j]).0 < targets.len(),
        forall|i: int| 0 <= i < targets.len() ==> #[trigger] slot_claimed(done, i),
        forall|a: int, b: int|
            0 <= a < done.len() && 0 <= b < done.len() && a != b ==> (#[trigger] done[a]).0 != (
            #[trigger] done[b]).0,
        forall|j: int|
            0 <= j < done.len() ==> ((#[trigger] done[j]).1.addr@, done[j].1.port)
                == targets[done[j].0 as int],
    ensures
        filled(placed(targets.len(), done)).len() == targets.len(),
        forall|i: int|
            0 <= i < targets.len() ==> ((#[trigger] filled(placed(targets.len(), done))[i]).addr@,
            filled(placed(targets.len(), done))[i].port) == targets[i],
{
    let n = targets.len();
    lemma_order_by_index_permutation(n, done);
    let out = filled(placed(n, done));
    assert forall|i: int| 0 <= i < n implies ((#[trigger] out[i]).addr@, out[i].port)
        == targets[i] by {
        assert(slot_claimed(done, i));
        let j = choose|j: int| 0 <= j < done.len() && (#[trigger] done[j]).0 == i;
        assert(out[done[j].0 as int] == done[j].1);
    }
}

} // verus!
