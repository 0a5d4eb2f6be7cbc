//! Character-level string operations with the meaning std gives them,
//! stated over `Seq<char>`.
use vstd::prelude::*;

verus! {

/// `char::is_whitespace`: the Unicode `White_Space` property.
pub open spec fn is_whitespace(c: char) -> bool {
    ||| '\u{9}' <= c && c <= '\u{d}'
    ||| c == ' '
    ||| c == '\u{85}'
    ||| c == '\u{a0}'
    ||| c == '\u{1680}'
    ||| '\u{2000}' <= c && c <= '\u{200a}'
    ||| c == '\u{2028}'
    ||| c == '\u{2029}'
    ||| c == '\u{202f}'
    ||| c == '\u{205f}'
    ||| c == '\u{3000}'
}

/// Length of the longest prefix of `s` whose characters all satisfy `p`.
pub open spec fn lead_run(s: Seq<char>, p: spec_fn(char) -> bool) -> nat
    decreases s.len(),
{
    if s.len() > 0 && p(s[0]) {
        1 + lead_run(s.drop_first(), p)
    } else {
        0
    }
}

/// Length of the longest suffix of `s` whose characters all satisfy `p`.
pub open spec fn trail_run(s: Seq<char>, p: spec_fn(char) -> bool) -> nat
    decreases s.len(),
{
    if s.len() > 0 && p(s.last()) {
        1 + trail_run(s.drop_last(), p)
    } else {
        0
    }
}

pub open spec fn ws() -> spec_fn(char) -> bool {
    |c: char| is_whitespace(c)
}

pub open spec fn is_char(c: char) -> spec_fn(char) -> bool {
    |x: char| x == c
}

/// `str::trim`.
pub open spec fn trim_ws(s: Seq<char>) -> Seq<char> {
    let t = s.skip(lead_run(s, ws()) as int);
    t.take(t.len() - trail_run(t, ws()))
}

/// `str::trim_start_matches(c)`.
pub open spec fn trim_start_char(s: Seq<char>, c: char) -> Seq<char> {
    s.skip(lead_run(s, is_char(c)) as int)
}

/// Index of the first `c` in `s`, or `s.len()` where there is none.
pub open spec fn first_index(s: Seq<char>, c: char) -> nat
    decreases s.len(),
{
    if s.len() == 0 || s[0] == c {
        0
    } else {
        1 + first_index(s.drop_first(), c)
    }
}

/// Number of characters before the last `c` in `s`, plus one; `0` where
/// `s` holds no `c`.
pub open spec fn last_index_plus_one(s: Seq<char>, c: char) -> nat
    decreases s.len(),
{
    if s.len() == 0 {
        0
    } else if s.last() == c {
        s.len()
    } else {
        last_index_plus_one(s.drop_last(), c)
    }
}

/// `str::split_once(c)`: the parts before and after the first `c`.
pub open spec fn split_once(s: Seq<char>, c: char) -> Option<(Seq<char>, Seq<char>)> {
    let i = first_index(s, c);
    if i < s.len() {
        Some((s.take(i as int), s.skip((i + 1) as int)))
    } else {
        None
    }
}

/// `str::rsplit_once(c)`: the parts before and after the last `c`.
pub open spec fn rsplit_once(s: Seq<char>, c: char) -> Option<(Seq<char>, Seq<char>)> {
    let k = last_index_plus_one(s, c);
    if k > 0 {
        Some((s.take(k - 1), s.skip(k as int)))
    } else {
        None
    }
}

/// `str::split(c)`, collected: the pieces between the occurrences of `c`.
pub open spec fn split_char(s: Seq<char>, c: char) -> Seq<Seq<char>>
    decreases s.len(),
{
    let i = first_index(s, c);
    if i < s.len() {
        seq![s.take(i as int)] + split_char(s.skip((i + 1) as int), c)
    } else {
        seq![s]
    }
}

/// `str::replace(from, to)` where `to` is one character.
pub open spec fn replace_char(s: Seq<char>, from: char, to: char) -> Seq<char> {
    s.map_values(|x: char| if x == from { to } else { x })
}

/// The code point of `c.to_ascii_lowercase()`.
pub open spec fn ascii_lower(c: char) -> int {
    if 'A' <= c && c <= 'Z' {
        (c as u32) as int + 32
    } else {
        (c as u32) as int
    }
}

/// `str::eq_ignore_ascii_case`.
pub open spec fn eq_ignore_ascii_case(a: Seq<char>, b: Seq<char>) -> bool {
    a.len() == b.len() && forall|i: int| 0 <= i < a.len() ==> ascii_lower(a[i]) == ascii_lower(b[i])
}

proof fn lemma_lead_run(s: Seq<char>, p: spec_fn(char) -> bool, i: int)
    requires
        0 <= i <= s.len(),
        forall|k: int| 0 <= k < i ==> p(#[trigger] s[k]),
        i < s.len() ==> !p(s[i]),
    ensures
        lead_run(s, p) == i,
    decreases i,
{
    if i > 0 {
        let t = s.drop_first();
        assert forall|k: int| 0 <= k < i - 1 implies p(#[trigger] t[k]) by {
            assert(t[k] == s[k + 1]);
        }
        if i < s.len() {
            assert(t[i - 1] == s[i]);
        }
        lemma_lead_run(t, p, i - 1);
    }
}

proof fn lemma_trail_run(s: Seq<char>, p: spec_fn(char) -> bool, i: int)
    requires
        0 <= i <= s.len(),
        forall|k: int| i <= k < s.len() ==> p(#[trigger] s[k]),
        i > 0 ==> !p(s[i - 1]),
    ensures
        trail_run(s, p) == s.len() - i,
    decreases s.len() - i,
{
    if i < s.len() {
        let t = s.drop_last();
        assert forall|k: int| i <= k < t.len() implies p(#[trigger] t[k]) by {
            assert(t[k] == s[k]);
        }
        if i > 0 {
            assert(t[i - 1] == s[i - 1]);
        }
        assert(p(s[s.len() - 1]));
        lemma_trail_run(t, p, i);
    }
}

proof fn lemma_first_index(s: Seq<char>, c: char, i: int)
    requires
        0 <= i <= s.len(),
        forall|k: int| 0 <= k < i ==> #[trigger] s[k] != c,
        i < s.len() ==> s[i] == c,
    ensures
        first_index(s, c) == i,
    decreases i,
{
    if i > 0 {
        let t = s.drop_first();
        assert forall|k: int| 0 <= k < i - 1 implies #[trigger] t[k] != c by {
            assert(t[k] == s[k + 1]);
        }
        assert(s[0] != c);
        lemma_first_index(t, c, i - 1);
    }
}

pub proof fn lemma_first_index_facts(s: Seq<char>, c: char)
    ensures
        first_index(s, c) <= s.len(),
        first_index(s, c) < s.len() ==> s[first_index(s, c) as int] == c,
        forall|k: int| 0 <= k < first_index(s, c) ==> #[trigger] s[k] != c,
    decreases s.len(),
{
    if s.len() > 0 && s[0] != c {
        let t = s.drop_first();
        lemma_first_index_facts(t, c);
        assert forall|k: int| 0 <= k < first_index(s, c) implies #[trigger] s[k] != c by {
            if k > 0 {
                assert(s[k] == t[k - 1]);
            }
        }
    }
}

proof fn lemma_last_index(s: Seq<char>, c: char, i: int)
    requires
        0 <= i <= s.len(),
        forall|k: int| i <= k < s.len() ==> #[trigger] s[k] != c,
        i > 0 ==> s[i - 1] == c,
    ensures
        last_index_plus_one(s, c) == i,
    decreases s.len() - i,
{
    if i < s.len() {
        let t = s.drop_last();
        assert forall|k: int| i <= k < t.len() implies #[trigger] t[k] != c by {
            assert(t[k] == s[k]);
        }
        assert(s.last() != c);
        lemma_last_index(t, c, i);
    } else if i > 0 {
        assert(s.last() == c);
    }
}

/// The characters of a string slice, in order.
pub fn chars_of(s: &str) -> (r: Vec<char>)
    ensures
        r@ == s@,
{
    broadcast use vstd::string::group_string_axioms;

    let mut r: Vec<char> = Vec::new();
    for c in it: s.chars()
        invariant
            r@ == it.seq().take(it.index()),
    {
        r.push(c);
    }
    r
}

/// `String::push`: appends one character.
#[verifier::external_body]
fn push_char(s: &mut String, c: char)
    ensures
        final(s)@ == old(s)@.push(c),
{
    s.push(c)
}

/// The string made of `cs[lo..hi]`.
pub fn string_of_range(cs: &Vec<char>, lo: usize, hi: usize) -> (r: String)
    requires
        lo <= hi <= cs.len(),
    ensures
        r@ == cs@.subrange(lo as int, hi as int),
{
    let mut r = String::new();
    let mut i: usize = lo;
    while i < hi
        invariant
            lo <= i <= hi <= cs.len(),
            r@ == cs@.subrange(lo as int, i as int),
        decreases hi - i,
    {
        push_char(&mut r, cs[i]);
        assert(cs@.subrange(lo as int, i + 1) =~= cs@.subrange(lo as int, i as int).push(
            cs@[i as int],
        ));
        i = i + 1;
    }
    r
}

/// The string made of the given characters, in order.
pub fn string_of(cs: &Vec<char>) -> (r: String)
    ensures
        r@ == cs@,
{
    let r = string_of_range(cs, 0, cs.len());
    assert(cs@.subrange(0, cs.len() as int) =~= cs@);
    r
}

pub fn is_whitespace_char(c: char) -> (r: bool)
    ensures
        r == is_whitespace(c),
{
    ('\u{9}' <= c && c <= '\u{d}') || c == ' ' || c == '\u{85}' || c == '\u{a0}' || c
        == '\u{1680}' || ('\u{2000}' <= c && c <= '\u{200a}') || c == '\u{2028}' || c
        == '\u{2029}' || c == '\u{202f}' || c == '\u{205f}' || c == '\u{3000}'
}

/// `s.trim()`: `s` without leading and trailing whitespace.
pub fn trim(s: &str) -> (r: String)
    ensures
        r@ == trim_ws(s@),
{
    let cs = chars_of(s);
    let n = cs.len();
    let mut lo: usize = 0;
    while lo < n && is_whitespace_char(cs[lo])
        invariant
            lo <= n == cs.len(),
            forall|k: int| 0 <= k < lo ==> is_whitespace(#[trigger] cs@[k]),
        decreases n - lo,
    {
        lo = lo + 1;
    }
    proof {
        lemma_lead_run(cs@, ws(), lo as int);
    }
    let ghost t = cs@.skip(lo as int);
    let mut hi: usize = n;
    while hi > lo && is_whitespace_char(cs[hi - 1])
        invariant
            lo <= hi <= n == cs.len(),
            forall|k: int| hi <= k < n ==> is_whitespace(#[trigger] cs@[k]),
        decreases hi,
    {
        hi = hi - 1;
    }
    proof {
        assert forall|k: int| hi - lo <= k < t.len() implies ws()(#[trigger] t[k]) by {
            assert(t[k] == cs@[k + lo]);
        }
        if hi > lo {
            assert(t[hi - lo - 1] == cs@[hi - 1]);
        }
        lemma_trail_run(t, ws(), hi - lo);
        assert(t.take(t.len() - trail_run(t, ws())) =~= cs@.subrange(lo as int, hi as int));
    }
    string_of_range(&cs, lo, hi)
}

/// `s.trim_start_matches(c)`: `s` without its leading run of `c`.
pub fn trim_start_matches(s: &str, c: char) -> (r: String)
    ensures
        r@ == trim_start_char(s@, c),
{
    let cs = chars_of(s);
    let n = cs.len();
    let mut lo: usize = 0;
    while lo < n && cs[lo] == c
        invariant
            lo <= n == cs.len(),
            forall|k: int| 0 <= k < lo ==> #[trigger] cs@[k] == c,
        decreases n - lo,
    {
        lo = lo + 1;
    }
    proof {
        assert forall|k: int| 0 <= k < lo implies is_char(c)(#[trigger] cs@[k]) by {}
        lemma_lead_run(cs@, is_char(c), lo as int);
        assert(cs@.skip(lo as int) =~= cs@.subrange(lo as int, n as int));
    }
    string_of_range(&cs, lo, n)
}

/// Position of the first `c` in `cs`, or `cs.len()`.
fn find_first(cs: &Vec<char>, c: char) -> (r: usize)
    ensures
        r == first_index(cs@, c),
        r <= cs.len(),
{
    let mut i: usize = 0;
    while i < cs.len() && cs[i] != c
        invariant
            i <= cs.len(),
            forall|k: int| 0 <= k < i ==> #[trigger] cs@[k] != c,
        decreases cs.len() - i,
    {
        i = i + 1;
    }
    proof {
        lemma_first_index(cs@, c, i as int);
    }
    i
}

/// `s.split_once(c)`.
pub fn split_once_char(s: &str, c: char) -> (r: Option<(String, String)>)
    ensures
        match r {
            Some((a, b)) => split_once(s@, c) == Some((a@, b@)),
            None => split_once(s@, c) is None,
        },
{
    let cs = chars_of(s);
    let i = find_first(&cs, c);
    if i < cs.len() {
        let a = string_of_range(&cs, 0, i);
        let b = string_of_range(&cs, i + 1, cs.len());
        assert(a@ =~= cs@.take(i as int));
        assert(b@ =~= cs@.skip(i + 1));
        Some((a, b))
    } else {
        None
    }
}

/// `s.rsplit_once(c)`.
pub fn rsplit_once_char(s: &str, c: char) -> (r: Option<(String, String)>)
    ensures
        match r {
            Some((a, b)) => rsplit_once(s@, c) == Some((a@, b@)),
            None => rsplit_once(s@, c) is None,
        },
{
    let cs = chars_of(s);
    let n = cs.len();
    let mut k: usize = n;
    while k > 0 && cs[k - 1] != c
        invariant
            k <= n == cs.len(),
            forall|j: int| k <= j < n ==> #[trigger] cs@[j] != c,
        decreases k,
    {
        k = k - 1;
    }
    proof {
        lemma_last_index(cs@, c, k as int);
    }
    if k > 0 {
        let a = string_of_range(&cs, 0, k - 1);
        let b = string_of_range(&cs, k, n);
        assert(a@ =~= cs@.take(k - 1));
        assert(b@ =~= cs@.skip(k as int));
        Some((a, b))
    } else {
        None
    }
}

/// `s.contains(c)`.
pub fn contains_char(s: &str, c: char) -> (r: bool)
    ensures
        r == s@.contains(c),
{
    let cs = chars_of(s);
    let i = find_first(&cs, c);
    proof {
        lemma_first_index_facts(cs@, c);
        if i < cs.len() {
            assert(cs@[i as int] == c);
        }
    }
    i < cs.len()
}

/// `s.strip_prefix(c)`.
pub fn strip_prefix_char(s: &str, c: char) -> (r: Option<String>)
    ensures
        match r {
            Some(t) => s@.len() > 0 && s@[0] == c && t@ == s@.drop_first(),
            None => !(s@.len() > 0 && s@[0] == c),
        },
{
    let cs = chars_of(s);
    if cs.len() > 0 && cs[0] == c {
        let t = string_of_range(&cs, 1, cs.len());
        assert(t@ =~= cs@.drop_first());
        Some(t)
    } else {
        None
    }
}

/// `s.replace(from, to)` for a one-character replacement.
pub fn replace_char_with(s: &str, from: char, to: char) -> (r: String)
    ensures
        r@ == replace_char(s@, from, to),
{
    let cs = chars_of(s);
    let mut out: Vec<char> = Vec::new();
    let mut i: usize = 0;
    while i < cs.len()
        invariant
            i <= cs.len(),
            out@ == replace_char(cs@.take(i as int), from, to),
        decreases cs.len() - i,
    {
        let x = cs[i];
        out.push(if x == from {
            to
        } else {
            x
        });
        assert(replace_char(cs@.take(i + 1), from, to) =~= replace_char(
            cs@.take(i as int),
            from,
            to,
        ).push(if x == from {
            to
        } else {
            x
        }));
        i = i + 1;
    }
    assert(cs@.take(cs.len() as int) =~= cs@);
    string_of(&out)
}

/// `s.split(c)`, collected into owned pieces.
pub fn split_by_char(s: &str, c: char) -> (r: Vec<String>)
    ensures
        r@.map_values(|p: String| p@) == split_char(s@, c),
{
    let cs = chars_of(s);
    let n = cs.len();
    let mut pieces: Vec<String> = Vec::new();
    let mut j: usize = 0;
    let mut i: usize = 0;
    assert(cs@.skip(0) =~= cs@);
    assert(pieces@.map_values(|p: String| p@) + split_char(cs@, c) =~= split_char(cs@, c));
    while i < n
        invariant
            j <= i <= n == cs.len(),
            forall|k: int| j <= k < i ==> #[trigger] cs@[k] != c,
            pieces@.map_values(|p: String| p@) + split_char(cs@.skip(j as int), c) == split_char(
                cs@,
                c,
            ),
        decreases n - i,
    {
        if cs[i] == c {
            let ghost rest = cs@.skip(j as int);
            proof {
                assert forall|k: int| 0 <= k < i - j implies #[trigger] rest[k] != c by {
                    assert(rest[k] == cs@[k + j]);
                }
                lemma_first_index(rest, c, i - j);
                assert(rest.take(i - j) =~= cs@.subrange(j as int, i as int));
                assert(rest.skip(i - j + 1) =~= cs@.skip(i + 1));
            }
            let piece = string_of_range(&cs, j, i);
            let ghost before = pieces@.map_values(|p: String| p@);
            pieces.push(piece);
            assert(pieces@.map_values(|p: String| p@) =~= before.push(piece@));
            assert(before.push(piece@) + split_char(cs@.skip(i + 1), c) =~= before + split_char(
                rest,
                c,
            ));
            j = i + 1;
        }
        i = i + 1;
    }
    let ghost rest = cs@.skip(j as int);
    proof {
        assert forall|k: int| 0 <= k < n - j implies #[trigger] rest[k] != c by {
            assert(rest[k] == cs@[k + j]);
        }
        lemma_first_index(rest, c, n - j);
    }
    let piece = string_of_range(&cs, j, n);
    let ghost before = pieces@.map_values(|p: String| p@);
    pieces.push(piece);
    assert(piece@ =~= rest);
    assert(pieces@.map_values(|p: String| p@) =~= before.push(piece@));
    assert(before.push(piece@) =~= before + split_char(rest, c));
    pieces
}

/// `a.eq_ignore_ascii_case(b)`.
pub fn eq_ignore_case(a: &str, b: &str) -> (r: bool)
    ensures
        r == eq_ignore_ascii_case(a@, b@),
{
    let x = chars_of(a);
    let y = chars_of(b);
    if x.len() != y.len() {
        return false;
    }
    let mut i: usize = 0;
    while i < x.len()
        invariant
            i <= x.len() == y.len(),
            x@ == a@,
            y@ == b@,
            forall|k: int| 0 <= k < i ==> ascii_lower(#[trigger] x@[k]) == ascii_lower(y@[k]),
        decreases x.len() - i,
    {
        let p = x[i];
        let q = y[i];
        let lp: u32 = if 'A' <= p && p <= 'Z' {
            (p as u32) + 32
        } else {
            p as u32
        };
        let lq: u32 = if 'A' <= q && q <= 'Z' {
            (q as u32) + 32
        } else {
            q as u32
        };
        if lp != lq {
            assert(ascii_lower(x@[i as int]) != ascii_lower(y@[i as int]));
            return false;
        }
        assert(ascii_lower(x@[i as int]) == ascii_lower(y@[i as int]));
        i = i + 1;
    }
    true
}

/// `a == b` on string slices.
pub fn same_text(a: &str, b: &str) -> (r: bool)
    ensures
        r == (a@ == b@),
{
    let x = chars_of(a);
    let y = chars_of(b);
    if x.len() != y.len() {
        return false;
    }
    let mut i: usize = 0;
    while i < x.len()
        invariant
            i <= x.len() == y.len(),
            x@ == a@,
            y@ == b@,
            forall|k: int| 0 <= k < i ==> #[trigger] x@[k] == y@[k],
        decreases x.len() - i,
    {
        if x[i] != y[i] {
            assert(x@[i as int] != y@[i as int]);
            return false;
        }
        i = i + 1;
    }
    assert(x@ =~= y@);
    true
}

/// The name for what `str::to_uppercase` makes of a string: the Unicode
/// upper-case mapping of each character, which may change the length.
pub uninterp spec fn uppercase(s: Seq<char>) -> Seq<char>;

/// `char::to_ascii_uppercase`: `a`..`z` become `A`..`Z`.
pub open spec fn ascii_upper(c: char) -> char {
    if 'a' <= c && c <= 'z' {
        ((c as int) - 32) as char
    } else {
        c
    }
}

/// `str::to_ascii_uppercase`.
pub open spec fn ascii_upper_seq(s: Seq<char>) -> Seq<char> {
    s.map_values(|c: char| ascii_upper(c))
}

/// What `str::to_uppercase` makes of `s`: the ASCII mapping for ASCII text,
/// the Unicode mapping (left to its name) otherwise.
pub open spec fn upper_of(s: Seq<char>) -> Seq<char> {
    if vstd::utf8::is_ascii_chars(s) {
        ascii_upper_seq(s)
    } else {
        uppercase(s)
    }
}

/// `str::to_uppercase`. The contract claims that the result is a function
/// of the input and that on ASCII text it maps `a`..`z` to `A`..`Z` and
/// keeps every other character, as the Unicode upper-case mapping does; the
/// mapping of other characters is left to the name.
#[verifier::external_body]
pub(crate) fn to_upper(s: &str) -> (r: String)
    ensures
        r@ == uppercase(s@),
        vstd::utf8::is_ascii_chars(s@) ==> r@ == ascii_upper_seq(s@),
{
    s.to_uppercase()
}

/// `first_index` is the position of the first `c`.
pub proof fn lemma_first_index_at(s: Seq<char>, c: char, i: int)
    requires
        0 <= i <= s.len(),
        forall|k: int| 0 <= k < i ==> #[trigger] s[k] != c,
        i < s.len() ==> s[i] == c,
    ensures
        first_index(s, c) == i,
{
    lemma_first_index(s, c, i);
}

/// `lead_run` is the length of the run of leading characters satisfying `p`.
pub proof fn lemma_lead_run_at(s: Seq<char>, p: spec_fn(char) -> bool, i: int)
    requires
        0 <= i <= s.len(),
        forall|k: int| 0 <= k < i ==> p(#[trigger] s[k]),
        i < s.len() ==> !p(s[i]),
    ensures
        lead_run(s, p) == i,
{
    lemma_lead_run(s, p, i);
}

/// `last_index_plus_one` is one past the position of the last `c`.
pub proof fn lemma_last_index_at(s: Seq<char>, c: char, i: int)
    requires
        0 <= i <= s.len(),
        forall|k: int| i <= k < s.len() ==> #[trigger] s[k] != c,
        i > 0 ==> s[i - 1] == c,
    ensures
        last_index_plus_one(s, c) == i,
{
    lemma_last_index(s, c, i);
}

/// A text with no whitespace at either end is its own trim.
pub proof fn lemma_trim_noop(s: Seq<char>)
    requires
        s.len() > 0,
        !is_whitespace(s[0]),
        !is_whitespace(s.last()),
    ensures
        trim_ws(s) == s,
{
    assert(lead_run(s, ws()) == 0);
    assert(s.skip(0) =~= s);
    assert(trail_run(s, ws()) == 0);
    assert(s.take(s.len() as int) =~= s);
}

/// `lead_run` counts the leading characters that satisfy `p`.
pub proof fn lemma_lead_run_facts(s: Seq<char>, p: spec_fn(char) -> bool)
    ensures
        lead_run(s, p) <= s.len(),
        forall|k: int| 0 <= k < lead_run(s, p) ==> p(#[trigger] s[k]),
        lead_run(s, p) < s.len() ==> !p(s[lead_run(s, p) as int]),
    decreases s.len(),
{
    if s.len() > 0 && p(s[0]) {
        let t = s.drop_first();
        lemma_lead_run_facts(t, p);
        assert forall|k: int| 0 <= k < lead_run(s, p) implies p(#[trigger] s[k]) by {
            if k > 0 {
                assert(s[k] == t[k - 1]);
            }
        }
        if lead_run(s, p) < s.len() {
            assert(s[lead_run(s, p) as int] == t[lead_run(t, p) as int]);
        }
    }
}

/// `last_index_plus_one` is one past the last `c`, and no `c` follows it.
pub proof fn lemma_last_index_facts(s: Seq<char>, c: char)
    ensures
        last_index_plus_one(s, c) <= s.len(),
        last_index_plus_one(s, c) > 0 ==> s[last_index_plus_one(s, c) - 1] == c,
        forall|j: int| last_index_plus_one(s, c) <= j < s.len() ==> #[trigger] s[j] != c,
    decreases s.len(),
{
    if s.len() > 0 && s.last() != c {
        let t = s.drop_last();
        lemma_last_index_facts(t, c);
        assert forall|j: int| last_index_plus_one(s, c) <= j < s.len() implies #[trigger] s[j]
            != c by {
            if j < s.len() - 1 {
                assert(s[j] == t[j]);
            }
        }
        if last_index_plus_one(s, c) > 0 {
            assert(s[last_index_plus_one(s, c) - 1] == t[last_index_plus_one(t, c) - 1]);
        }
    }
}

/// `split` cuts at every occurrence: no piece holds the separator, and
/// there is at least one piece.
pub proof fn lemma_split_pieces(s: Seq<char>, c: char)
    ensures
        split_char(s, c).len() >= 1,
        forall|i: int| 0 <= i < split_char(s, c).len() ==> !(#[trigger] split_char(s, c)[i]).contains(c),
    decreases s.len(),
{
    let i = first_index(s, c);
    lemma_first_index_facts(s, c);
    let pieces = split_char(s, c);
    if i < s.len() {
        let rest = s.skip((i + 1) as int);
        lemma_split_pieces(rest, c);
        let head = s.take(i as int);
        assert(!head.contains(c)) by {
            if head.contains(c) {
                let j = choose|j: int| 0 <= j < head.len() && head[j] == c;
                assert(s[j] == head[j]);
            }
        }
        assert forall|k: int| 0 <= k < pieces.len() implies !(#[trigger] pieces[k]).contains(c) by {
            if k > 0 {
                assert(pieces[k] == split_char(rest, c)[k - 1]);
            }
        }
    } else {
        assert forall|k: int| 0 <= k < pieces.len() implies !(#[trigger] pieces[k]).contains(c) by {
            if s.contains(c) {
                let j = choose|j: int| 0 <= j < s.len() && s[j] == c;
            }
        }
    }
}

} // verus!
