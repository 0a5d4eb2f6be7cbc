//! The relay list: country codes mapped to `host:port` relay entries, and
//! the choices the node makes from it.
use vstd::prelude::*;

use crate::text::{replace_char_with, same_text, split_by_char, trim};

verus! {

/// Country code and its relay entries, as plain character sequences.
pub type KvView = Seq<(Seq<char>, Seq<Seq<char>>)>;

pub open spec fn keys_distinct(kv: KvView) -> bool {
    forall|a: int, b: int|
        0 <= a < kv.len() && 0 <= b < kv.len() && a != b ==> (#[trigger] kv[a]).0 != (
        #[trigger] kv[b]).0
}

pub open spec fn has_key(kv: KvView, key: Seq<char>) -> bool {
    exists|i: int| 0 <= i < kv.len() && (#[trigger] kv[i]).0 == key
}

/// A position of `key` among the country codes, where there is one.
pub open spec fn key_index(kv: KvView, key: Seq<char>) -> int {
    choose|i: int| 0 <= i < kv.len() && (#[trigger] kv[i]).0 == key
}

/// The relay entries stored under `key`.
pub open spec fn lookup(kv: KvView, key: Seq<char>) -> Option<Seq<Seq<char>>> {
    if has_key(kv, key) {
        Some(kv[key_index(kv, key)].1)
    } else {
        None
    }
}

/// All relay entries, country after country.
pub open spec fn flat_values(kv: KvView) -> Seq<Seq<char>>
    decreases kv.len(),
{
    if kv.len() == 0 {
        Seq::empty()
    } else {
        flat_values(kv.drop_last()) + kv.last().1
    }
}

/// The name that a JSON object of string arrays, `{ "CC": ["ip:port", ...] }`,
/// is read to by `serde_json`, with its keys in map order.
pub uninterp spec fn json_relay_map(text: Seq<char>) -> Option<KvView>;

/// `serde_json::from_str` into a `BTreeMap<String, Vec<String>>`, whose
/// entries are then listed in the map's order. The contract claims that the
/// result is a function of the text alone, that a map holds each key once
/// and that empty text holds no JSON value (serde_json ends it with an
/// end-of-input error); what other text is accepted and in which order the
/// keys come is left to the name.
#[verifier::external_body]
fn read_relay_json(text: &str) -> (r: Option<Vec<(String, Vec<String>)>>)
    ensures
        match r {
            Some(v) => json_relay_map(text@) == Some(v.deep_view()) && keys_distinct(
                v.deep_view(),
            ),
            None => json_relay_map(text@) is None,
        },
        text@.len() == 0 ==> r is None,
{
    match serde_json::from_str::<std::collections::BTreeMap<String, Vec<String>>>(text) {
        Ok(m) => Some(m.into_iter().collect()),
        Err(_) => None,
    }
}

/// The relay list, with each country code held once.
pub struct ProxyKv {
    entries: Vec<(String, Vec<String>)>,
}

impl View for ProxyKv {
    type V = KvView;

    closed spec fn view(&self) -> KvView {
        self.entries.deep_view()
    }
}

impl ProxyKv {
    #[verifier::type_invariant]
    spec fn inv(self) -> bool {
        keys_distinct(self.entries.deep_view())
    }

    /// An empty relay list.
    pub fn new() -> (r: ProxyKv)
        ensures
            r@ == Seq::<(Seq<char>, Seq<Seq<char>>)>::empty(),
    {
        let r = ProxyKv { entries: Vec::new() };
        assert(r@ =~= Seq::<(Seq<char>, Seq<Seq<char>>)>::empty());
        r
    }

    /// Reads the relay list from its JSON form,
    /// `{ "CC": ["ip:port", ...], ... }`; `None` where the text is not such
    /// an object.
    pub fn from_json(text: &str) -> (r: Option<ProxyKv>)
        ensures
            match r {
                Some(kv) => json_relay_map(text@) == Some(kv@) && keys_distinct(kv@),
                None => json_relay_map(text@) is None,
            },
            text@.len() == 0 ==> r is None,
    {
        match read_relay_json(text) {
            Some(entries) => Some(ProxyKv { entries }),
            None => None,
        }
    }

    /// Number of country codes.
    pub fn len(&self) -> (r: usize)
        ensures
            r == self@.len(),
    {
        self.entries.len()
    }

    /// Position of `key` among the country codes.
    fn position(&self, key: &str) -> (r: Option<usize>)
        ensures
            match r {
                Some(i) => i < self@.len() && self@[i as int].0 == key@,
                None => !has_key(self@, key@),
            },
    {
        let mut i: usize = 0;
        while i < self.entries.len()
            invariant
                i <= self.entries@.len(),
                forall|k: int| 0 <= k < i ==> (#[trigger] self@[k]).0 != key@,
            decreases self.entries.len() - i,
        {
            if same_text(self.entries[i].0.as_str(), key) {
                return Some(i);
            }
            i = i + 1;
        }
        None
    }

    /// The relay entries stored under `key` (`HashMap::get`).
    pub fn get(&self, key: &str) -> (r: Option<&Vec<String>>)
        ensures
            match r {
                Some(v) => lookup(self@, key@) == Some(v.deep_view()),
                None => lookup(self@, key@) is None,
            },
    {
        proof {
            use_type_invariant(self);
        }
        match self.position(key) {
            Some(i) => {
                proof {
                    let j = choose|j: int| 0 <= j < self@.len() && (#[trigger] self@[j]).0 == key@;
                    assert(self@[i as int].0 == key@);
                    assert(j == i);
                }
                Some(&self.entries[i].1)
            },
            None => None,
        }
    }

    /// Stores `list` under `key`, replacing what was stored there
    /// (`HashMap::insert`).
    pub fn insert(&mut self, key: String, list: Vec<String>)
        ensures
            final(self)@ == (if has_key(old(self)@, key@) {
                old(self)@.update(key_index(old(self)@, key@), (key@, list.deep_view()))
            } else {
                old(self)@.push((key@, list.deep_view()))
            }),
            keys_distinct(final(self)@),
            lookup(final(self)@, key@) == Some(list.deep_view()),
            forall|k: Seq<char>| k != key@ ==> lookup(final(self)@, k) == lookup(old(self)@, k),
    {
        proof {
            use_type_invariant(&*self);
        }
        let ghost before = self@;
        let ghost kview = key@;
        let ghost lview = list.deep_view();
        match self.position(key.as_str()) {
            Some(i) => {
                proof {
                    let j = key_index(before, kview);
                    assert(before[i as int].0 == kview);
                    assert(j == i);
                }
                let mut entries: Vec<(String, Vec<String>)> = Vec::new();
                std::mem::swap(&mut entries, &mut self.entries);
                assert(entries.deep_view() == before);
                entries.set(i, (key, list));
                let ghost after = entries.deep_view();
                assert(after =~= before.update(i as int, (kview, lview)));
                assert(keys_distinct(after)) by {
                    assert forall|a: int, b: int|
                        0 <= a < after.len() && 0 <= b < after.len() && a != b implies (
                    #[trigger] after[a]).0 != (#[trigger] after[b]).0 by {
                        if a != i && b != i {
                            assert(after[a] == before[a]);
                            assert(after[b] == before[b]);
                        } else if a == i {
                            assert(after[b] == before[b]);
                        } else {
                            assert(after[a] == before[a]);
                        }
                    }
                }
                self.entries = entries;
                proof {
                    Self::lemma_lookup_at(after, i as int);
                    assert forall|k: Seq<char>| k != kview implies lookup(after, k) == lookup(
                        before,
                        k,
                    ) by {
                        Self::lemma_lookup_other(before, after, k, i as int);
                    }
                }
            },
            None => {
                let mut entries: Vec<(String, Vec<String>)> = Vec::new();
                std::mem::swap(&mut entries, &mut self.entries);
                assert(entries.deep_view() == before);
                entries.push((key, list));
                let ghost after = entries.deep_view();
                assert(after =~= before.push((kview, lview)));
                assert(keys_distinct(after)) by {
                    assert forall|a: int, b: int|
                        0 <= a < after.len() && 0 <= b < after.len() && a != b implies (
                    #[trigger] after[a]).0 != (#[trigger] after[b]).0 by {
                        if a < before.len() {
                            assert(after[a] == before[a]);
                        }
                        if b < before.len() {
                            assert(after[b] == before[b]);
                        }
                    }
                }
                self.entries = entries;
                proof {
                    Self::lemma_lookup_at(after, before.len() as int);
                    assert forall|k: Seq<char>| k != kview implies lookup(after, k) == lookup(
                        before,
                        k,
                    ) by {
                        if has_key(after, k) {
                            let j = choose|j: int| 0 <= j < after.len() && (#[trigger] after[j]).0 == k;
                            assert(j < before.len());
                            assert(before[j] == after[j]);
                        }
                        if has_key(before, k) {
                            let j = choose|j: int| 0 <= j < before.len() && (#[trigger] before[j]).0 == k;
                            assert(after[j] == before[j]);
                        }
                    }
                }
            },
        }
    }

    proof fn lemma_lookup_at(kv: KvView, i: int)
        requires
            keys_distinct(kv),
            0 <= i < kv.len(),
        ensures
            lookup(kv, kv[i].0) == Some(kv[i].1),
    {
        assert(has_key(kv, kv[i].0));
        let j = choose|j: int| 0 <= j < kv.len() && (#[trigger] kv[j]).0 == kv[i].0;
        assert(j == i);
    }

    proof fn lemma_lookup_other(before: KvView, after: KvView, k: Seq<char>, i: int)
        requires
            keys_distinct(before),
            keys_distinct(after),
            0 <= i < before.len(),
            after.len() == before.len(),
            after[i].0 == before[i].0,
            forall|a: int| 0 <= a < before.len() && a != i ==> after[a] == before[a],
            k != after[i].0,
        ensures
            lookup(after, k) == lookup(before, k),
    {
        if has_key(after, k) {
            let j = choose|j: int| 0 <= j < after.len() && (#[trigger] after[j]).0 == k;
            assert(after[j] == before[j]);
            assert(has_key(before, k));
            let j2 = choose|j: int| 0 <= j < before.len() && (#[trigger] before[j]).0 == k;
            assert(after[j2] == before[j2]);
        }
        if has_key(before, k) {
            let j = choose|j: int| 0 <= j < before.len() && (#[trigger] before[j]).0 == k;
            assert(after[j] == before[j]);
        }
    }
}


/// The country selector that stands for every country.
pub open spec fn all_code() -> Seq<char> {
    seq!['A', 'L', 'L']
}

/// The longest column.
pub open spec fn max_len<T>(cols: Seq<Seq<T>>) -> nat
    decreases cols.len(),
{
    if cols.len() == 0 {
        0
    } else {
        let m = max_len(cols.drop_last());
        if cols.last().len() > m {
            cols.last().len()
        } else {
            m
        }
    }
}

/// Element `i` of every column that is long enough, column after column.
pub open spec fn row<T>(cols: Seq<Seq<T>>, i: nat) -> Seq<T>
    decreases cols.len(),
{
    if cols.len() == 0 {
        Seq::empty()
    } else {
        row(cols.drop_last(), i) + if i < cols.last().len() {
            seq![cols.last()[i as int]]
        } else {
            Seq::empty()
        }
    }
}

/// Rows `0..n`, one after the other.
pub open spec fn rows_upto<T>(cols: Seq<Seq<T>>, n: nat) -> Seq<T>
    decreases n,
{
    if n == 0 {
        Seq::empty()
    } else {
        rows_upto(cols, (n - 1) as nat) + row(cols, (n - 1) as nat)
    }
}

/// The columns read round-robin: first element of each, then the second of
/// each, and so on, skipping columns that have run out.
pub open spec fn interleaved<T>(cols: Seq<Seq<T>>) -> Seq<T> {
    rows_upto(cols, max_len(cols))
}

/// The first `n` elements of `s`, or all of them where there are fewer.
pub open spec fn at_most<T>(s: Seq<T>, n: nat) -> Seq<T> {
    if s.len() <= n {
        s
    } else {
        s.take(n as int)
    }
}

/// The relay lists of all countries, in order.
pub open spec fn columns(kv: KvView) -> Seq<Seq<Seq<char>>> {
    kv.map_values(|e: (Seq<char>, Seq<Seq<char>>)| e.1)
}

/// The characters of an optional string slice.
pub open spec fn opt_view(o: Option<&str>) -> Option<Seq<char>> {
    match o {
        Some(s) => Some(s@),
        None => None,
    }
}

/// The relays a liveness sweep probes: at most `limit` entries of the
/// requested country, or, for no country or `ALL`, at most `limit` entries
/// taken round-robin across all countries.
pub open spec fn selected_entries(kv: KvView, cc: Option<Seq<char>>, limit: nat) -> Seq<
    Seq<char>,
> {
    match cc {
        Some(code) => if code != all_code() {
            match lookup(kv, code) {
                Some(list) => at_most(list, limit),
                None => Seq::empty(),
            }
        } else {
            at_most(interleaved(columns(kv)), limit)
        },
        None => at_most(interleaved(columns(kv)), limit),
    }
}

pub open spec fn is_prefix<T>(a: Seq<T>, b: Seq<T>) -> bool {
    a.len() <= b.len() && b.take(a.len() as int) == a
}

proof fn lemma_prefix_trans<T>(a: Seq<T>, b: Seq<T>, c: Seq<T>)
    requires
        is_prefix(a, b),
        is_prefix(b, c),
    ensures
        is_prefix(a, c),
{
    assert(c.take(a.len() as int) =~= c.take(b.len() as int).take(a.len() as int));
}

proof fn lemma_row_take<T>(cols: Seq<Seq<T>>, i: nat, j: int)
    requires
        0 <= j < cols.len(),
    ensures
        row(cols.take(j + 1), i) == row(cols.take(j), i) + if i < cols[j].len() {
            seq![cols[j][i as int]]
        } else {
            Seq::empty()
        },
{
    assert(cols.take(j + 1).drop_last() =~= cols.take(j));
}

proof fn lemma_row_prefix<T>(cols: Seq<Seq<T>>, i: nat, j: int)
    requires
        0 <= j <= cols.len(),
    ensures
        is_prefix(row(cols.take(j), i), row(cols, i)),
    decreases cols.len() - j,
{
    if j < cols.len() {
        lemma_row_take(cols, i, j);
        lemma_row_prefix(cols, i, j + 1);
        let a = row(cols.take(j), i);
        let b = row(cols.take(j + 1), i);
        assert(b.take(a.len() as int) =~= a);
        lemma_prefix_trans(a, b, row(cols, i));
    } else {
        assert(cols.take(j) =~= cols);
        assert(row(cols, i).take(row(cols, i).len() as int) =~= row(cols, i));
    }
}

proof fn lemma_row_nonempty<T>(cols: Seq<Seq<T>>, i: nat)
    ensures
        (i < max_len(cols)) == (row(cols, i).len() > 0),
    decreases cols.len(),
{
    if cols.len() > 0 {
        lemma_row_nonempty(cols.drop_last(), i);
    }
}

proof fn lemma_rows_prefix<T>(cols: Seq<Seq<T>>, n: nat, m: nat)
    requires
        n <= m,
    ensures
        is_prefix(rows_upto(cols, n), rows_upto(cols, m)),
    decreases m,
{
    if n < m {
        lemma_rows_prefix(cols, n, (m - 1) as nat);
        let a = rows_upto(cols, n);
        let b = rows_upto(cols, (m - 1) as nat);
        let c = rows_upto(cols, m);
        assert(c.take(b.len() as int) =~= b);
        lemma_prefix_trans(a, b, c);
    } else {
        let a = rows_upto(cols, n);
        assert(a.take(a.len() as int) =~= a);
    }
}

impl ProxyKv {
    /// The relay entries of all countries read round-robin, at most `limit`
    /// of them.
    fn round_robin(&self, limit: usize) -> (r: Vec<String>)
        ensures
            r.deep_view() == at_most(interleaved(columns(self@)), limit as nat),
    {
        let ghost cols = columns(self@);
        let ghost all = interleaved(cols);
        let mut picked: Vec<String> = Vec::new();
        if limit == 0 {
            assert(picked.deep_view() =~= at_most(all, 0));
            return picked;
        }
        let ncol = self.entries.len();
        let mut i: usize = 0;
        assert(picked.deep_view() =~= rows_upto(cols, 0));
        loop
            invariant_except_break
                picked.deep_view() == rows_upto(cols, i as nat),
                picked.len() < limit,
            invariant
                ncol == self.entries.len(),
                cols == columns(self@),
                all == interleaved(cols),
                cols.len() == ncol,
                i <= max_len(cols),
            ensures
                picked.deep_view() == at_most(all, limit as nat),
            decreases max_len(cols) - i,
        {
            let mut progressed = false;
            let mut full = false;
            let mut j: usize = 0;
            assert(cols.take(0) =~= Seq::<Seq<Seq<char>>>::empty());
            assert(picked.deep_view() =~= rows_upto(cols, i as nat) + row(cols.take(0), i as nat));
            while j < ncol && !full
                invariant
                    ncol == self.entries.len(),
                    cols == columns(self@),
                    cols.len() == ncol,
                    j <= ncol,
                    picked.deep_view() == rows_upto(cols, i as nat) + row(
                        cols.take(j as int),
                        i as nat,
                    ),
                    progressed == (row(cols.take(j as int), i as nat).len() > 0),
                    progressed ==> i < usize::MAX,
                    full ==> picked.len() == limit,
                    !full ==> picked.len() < limit,
                decreases ncol - j,
            {
                let col = &self.entries[j].1;
                proof {
                    lemma_row_take(cols, i as nat, j as int);
                    assert(cols[j as int] == col.deep_view());
                }
                if i < col.len() {
                    let item = col[i].clone();
                    let ghost before = picked.deep_view();
                    picked.push(item);
                    assert(picked.deep_view() =~= before.push(item@));
                    progressed = true;
                    if picked.len() == limit {
                        full = true;
                    }
                }
                j = j + 1;
            }
            if full {
                proof {
                    lemma_row_nonempty(cols, i as nat);
                    lemma_row_prefix(cols, i as nat, j as int);
                    let a = rows_upto(cols, i as nat);
                    let p = picked.deep_view();
                    let whole = a + row(cols, i as nat);
                    assert(whole.take(p.len() as int) =~= p);
                    assert(whole =~= rows_upto(cols, (i + 1) as nat));
                    lemma_rows_prefix(cols, (i + 1) as nat, max_len(cols));
                    lemma_prefix_trans(p, whole, all);
                }
                break;
            }
            if !progressed {
                proof {
                    assert(cols.take(j as int) =~= cols);
                    lemma_row_nonempty(cols, i as nat);
                    assert(picked.deep_view() =~= rows_upto(cols, i as nat));
                }
                break;
            }
            proof {
                assert(cols.take(j as int) =~= cols);
                lemma_row_nonempty(cols, i as nat);
            }
            i = i + 1;
        }
        picked
    }

    /// The first `limit` relay entries of `list`, or all of them.
    fn first_entries(list: &Vec<String>, limit: usize) -> (r: Vec<String>)
        ensures
            r.deep_view() == at_most(list.deep_view(), limit as nat),
    {
        let n = if list.len() < limit {
            list.len()
        } else {
            limit
        };
        let mut out: Vec<String> = Vec::new();
        let mut k: usize = 0;
        while k < n
            invariant
                k <= n <= list.len(),
                out.deep_view() == list.deep_view().take(k as int),
            decreases n - k,
        {
            let item = list[k].clone();
            let ghost before = out.deep_view();
            out.push(item);
            assert(item@ == list.deep_view()[k as int]);
            assert(out.deep_view() =~= before.push(item@));
            assert(out.deep_view() =~= list.deep_view().take(k + 1));
            k = k + 1;
        }
        assert(list.deep_view().take(list.len() as int) =~= list.deep_view());
        out
    }

    /// The relays a liveness sweep probes for country selector `cc`
    /// (already upper-cased) and at most `limit` of them.
    pub fn select_entries(&self, cc: Option<&str>, limit: usize) -> (r: Vec<String>)
        ensures
            r.deep_view() == selected_entries(self@, opt_view(cc), limit as nat),
    {
        let everything = match cc {
            Some(code) => {
                let is_all = same_text(code, "ALL");
                proof {
                    reveal_strlit("ALL");
                    assert("ALL"@ =~= all_code());
                }
                !is_all
            },
            None => false,
        };
        if everything {
            match cc {
                Some(code) => match self.get(code) {
                    Some(list) => Self::first_entries(list, limit),
                    None => {
                        let r: Vec<String> = Vec::new();
                        assert(r.deep_view() =~= Seq::<Seq<char>>::empty());
                        r
                    },
                },
                None => Vec::new(),
            }
        } else {
            self.round_robin(limit)
        }
    }
}
impl ProxyKv {
    /// All relay entries, country after country.
    pub fn all_entries(&self) -> (r: Vec<String>)
        ensures
            r.deep_view() == flat_values(self@),
    {
        let mut out: Vec<String> = Vec::new();
        let mut j: usize = 0;
        assert(self@.take(0) =~= Seq::<(Seq<char>, Seq<Seq<char>>)>::empty());
        while j < self.entries.len()
            invariant
                j <= self.entries.len(),
                out.deep_view() == flat_values(self@.take(j as int)),
            decreases self.entries.len() - j,
        {
            let list = &self.entries[j].1;
            let mut k: usize = 0;
            let ghost base = out.deep_view();
            assert(base + list.deep_view().take(0) =~= base);
            while k < list.len()
                invariant
                    k <= list.len(),
                    out.deep_view() == base + list.deep_view().take(k as int),
                decreases list.len() - k,
            {
                let item = list[k].clone();
                let ghost before = out.deep_view();
                out.push(item);
                assert(item@ == list.deep_view()[k as int]);
                assert(out.deep_view() =~= before.push(item@));
                assert(out.deep_view() =~= base + list.deep_view().take(k + 1));
                k = k + 1;
            }
            assert(list.deep_view().take(list.len() as int) =~= list.deep_view());
            assert(self@.take(j + 1).drop_last() =~= self@.take(j as int));
            assert(self@.take(j + 1).last().1 == list.deep_view());
            j = j + 1;
        }
        assert(self@.take(self.entries.len() as int) =~= self@);
        out
    }
}

/// A sweep never probes more than `limit` relays, and for one country it
/// probes the first entries of that country's list.
pub proof fn lemma_selection_bounded(kv: KvView, cc: Option<Seq<char>>, limit: nat)
    ensures
        selected_entries(kv, cc, limit).len() <= limit,
        match cc {
            Some(code) => code != all_code() ==> match lookup(kv, code) {
                Some(list) => is_prefix(selected_entries(kv, cc, limit), list),
                None => selected_entries(kv, cc, limit).len() == 0,
            },
            None => true,
        },
{
    match cc {
        Some(code) => {
            if code != all_code() {
                match lookup(kv, code) {
                    Some(list) => {
                        let s = at_most(list, limit);
                        if list.len() <= limit {
                            assert(list.take(list.len() as int) =~= list);
                        } else {
                            assert(list.take(limit as int).len() == limit);
                        }
                    },
                    None => {},
                }
            }
        },
        None => {},
    }
}

/// Every entry of every country's list is among all entries.
pub proof fn lemma_flat_values_contains(kv: KvView, i: int, j: int)
    requires
        0 <= i < kv.len(),
        0 <= j < kv[i].1.len(),
    ensures
        flat_values(kv).contains(kv[i].1[j]),
    decreases kv.len(),
{
    let t = kv.drop_last();
    let f = flat_values(kv);
    assert(f == flat_values(t) + kv.last().1);
    if i == kv.len() - 1 {
        assert(f[flat_values(t).len() + j] == kv[i].1[j]);
    } else {
        assert(t[i] == kv[i]);
        lemma_flat_values_contains(t, i, j);
        let k = choose|k: int| 0 <= k < flat_values(t).len() && flat_values(t)[k] == kv[i].1[j];
        assert(f[k] == kv[i].1[j]);
    }
}

/// Number of elements in all columns together.
pub open spec fn total_len<T>(cols: Seq<Seq<T>>) -> nat
    decreases cols.len(),
{
    if cols.len() == 0 {
        0
    } else {
        total_len(cols.drop_last()) + cols.last().len()
    }
}

/// Number of elements in all columns, each column cut to its first `n`.
pub open spec fn clipped_total<T>(cols: Seq<Seq<T>>, n: nat) -> nat
    decreases cols.len(),
{
    if cols.len() == 0 {
        0
    } else {
        clipped_total(cols.drop_last(), n) + if cols.last().len() < n {
            cols.last().len()
        } else {
            n
        }
    }
}

/// Number of columns longer than `i`.
pub open spec fn count_longer<T>(cols: Seq<Seq<T>>, i: nat) -> nat
    decreases cols.len(),
{
    if cols.len() == 0 {
        0
    } else {
        count_longer(cols.drop_last(), i) + if i < cols.last().len() {
            1nat
        } else {
            0nat
        }
    }
}

proof fn lemma_row_len<T>(cols: Seq<Seq<T>>, i: nat)
    ensures
        row(cols, i).len() == count_longer(cols, i),
    decreases cols.len(),
{
    if cols.len() > 0 {
        lemma_row_len(cols.drop_last(), i);
    }
}

proof fn lemma_clipped_step<T>(cols: Seq<Seq<T>>, n: nat)
    ensures
        clipped_total(cols, n + 1) == clipped_total(cols, n) + count_longer(cols, n),
    decreases cols.len(),
{
    if cols.len() > 0 {
        lemma_clipped_step(cols.drop_last(), n);
    }
}

proof fn lemma_clipped_zero<T>(cols: Seq<Seq<T>>)
    ensures
        clipped_total(cols, 0) == 0,
    decreases cols.len(),
{
    if cols.len() > 0 {
        lemma_clipped_zero(cols.drop_last());
    }
}

proof fn lemma_rows_len<T>(cols: Seq<Seq<T>>, n: nat)
    ensures
        rows_upto(cols, n).len() == clipped_total(cols, n),
    decreases n,
{
    if n == 0 {
        lemma_clipped_zero(cols);
    } else {
        let m = (n - 1) as nat;
        lemma_rows_len(cols, m);
        lemma_row_len(cols, m);
        lemma_clipped_step(cols, m);
    }
}

proof fn lemma_clipped_full<T>(cols: Seq<Seq<T>>, n: nat)
    requires
        max_len(cols) <= n,
    ensures
        clipped_total(cols, n) == total_len(cols),
    decreases cols.len(),
{
    if cols.len() > 0 {
        lemma_clipped_full(cols.drop_last(), n);
    }
}

proof fn lemma_row_past_end<T>(cols: Seq<Seq<T>>, i: nat)
    requires
        max_len(cols) <= i,
    ensures
        row(cols, i).len() == 0,
{
    lemma_row_nonempty(cols, i);
}

/// Reading the columns round-robin takes every element exactly as many
/// times as the columns hold elements in all.
pub proof fn lemma_interleaved_len<T>(cols: Seq<Seq<T>>)
    ensures
        interleaved(cols).len() == total_len(cols),
{
    lemma_rows_len(cols, max_len(cols));
    lemma_clipped_full(cols, max_len(cols));
}

/// The round-robin reading is complete after the first `max_len` rows:
/// every later row is empty, so the selection loop, one round per row,
/// stops by its round `max_len + 1` at the latest.
pub proof fn lemma_round_robin_rounds<T>(cols: Seq<Seq<T>>, n: nat)
    requires
        max_len(cols) <= n,
    ensures
        row(cols, n).len() == 0,
        rows_upto(cols, n) == interleaved(cols),
    decreases n,
{
    lemma_row_past_end(cols, n);
    if n > max_len(cols) {
        let m = (n - 1) as nat;
        lemma_round_robin_rounds(cols, m);
        lemma_row_past_end(cols, m);
        assert(rows_upto(cols, n) =~= rows_upto(cols, m));
    }
}

proof fn lemma_columns_total(kv: KvView)
    ensures
        total_len(columns(kv)) == flat_values(kv).len(),
    decreases kv.len(),
{
    if kv.len() > 0 {
        assert(columns(kv).drop_last() =~= columns(kv.drop_last()));
        lemma_columns_total(kv.drop_last());
    }
}

/// The relays a sweep can choose from: the requested country's list, or
/// all relays for no country or `ALL`.
pub open spec fn available_count(kv: KvView, cc: Option<Seq<char>>) -> nat {
    match cc {
        Some(code) => if code != all_code() {
            match lookup(kv, code) {
                Some(list) => list.len(),
                None => 0,
            }
        } else {
            flat_values(kv).len()
        },
        None => flat_values(kv).len(),
    }
}

/// A sweep probes `limit` relays or all that are available, whichever is
/// fewer.
pub proof fn lemma_selection_count(kv: KvView, cc: Option<Seq<char>>, limit: nat)
    ensures
        selected_entries(kv, cc, limit).len() == if available_count(kv, cc) < limit {
            available_count(kv, cc)
        } else {
            limit
        },
{
    lemma_interleaved_len(columns(kv));
    lemma_columns_total(kv);
}

} // verus!
