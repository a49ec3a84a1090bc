//! Character-sequence utilities shared by the text processing modules.
//!
//! Text is handled as `Vec<char>` inside the library; the `&str` / `String`
//! boundary is crossed with `chars_of` and `string_from_chars`.
use vstd::prelude::*;

verus! {

// ───────────────────────── conversions ─────────────────────────

/// The characters of `s`, in order.
pub fn chars_of(s: &str) -> (v: Vec<char>)
    ensures
        v@ == s@,
{
    let mut v: Vec<char> = Vec::new();
    for c in it: s.chars()
        invariant
            v@ == it.seq().take(it.index() as int),
    {
        v.push(c);
    }
    v
}

/// Collects characters into a `String` (std `FromIterator<char>` for `String`).
#[verifier::external_body]
pub fn string_from_chars(v: &[char]) -> (s: String)
    ensures
        s@ == v@,
{
    v.iter().collect()
}

// ───────────────────────── whitespace / trim ─────────────────────────

/// The Unicode `White_Space` property, the predicate behind `char::is_whitespace`
/// and `str::trim`.
pub open spec fn is_ws(c: char) -> bool {
    ||| ('\u{9}' <= c && c <= '\u{d}')
    ||| c == ' '
    ||| c == '\u{85}'
    ||| c == '\u{a0}'
    ||| c == '\u{1680}'
    ||| ('\u{2000}' <= c && c <= '\u{200a}')
    ||| c == '\u{2028}'
    ||| c == '\u{2029}'
    ||| c == '\u{202f}'
    ||| c == '\u{205f}'
    ||| c == '\u{3000}'
}

/// `char::is_whitespace`.
pub fn is_whitespace(c: char) -> (b: bool)
    ensures
        b == is_ws(c),
{
    ('\u{9}' <= c && c <= '\u{d}') || c == ' ' || c == '\u{85}' || c == '\u{a0}' || c
        == '\u{1680}' || ('\u{2000}' <= c && c <= '\u{200a}') || c == '\u{2028}' || c
        == '\u{2029}' || c == '\u{202f}' || c == '\u{205f}' || c == '\u{3000}'
}

/// Number of leading whitespace characters of `s`.
pub open spec fn lead_ws(s: Seq<char>) -> nat
    decreases s.len(),
{
    if s.len() == 0 {
        0
    } else if is_ws(s[0]) {
        1 + lead_ws(s.drop_first())
    } else {
        0
    }
}

/// Number of trailing whitespace characters of `s`.
pub open spec fn trail_ws(s: Seq<char>) -> nat
    decreases s.len(),
{
    if s.len() == 0 {
        0
    } else if is_ws(s.last()) {
        1 + trail_ws(s.drop_last())
    } else {
        0
    }
}

/// `str::trim_start`.
pub open spec fn trim_start(s: Seq<char>) -> Seq<char> {
    s.subrange(lead_ws(s) as int, s.len() as int)
}

/// `str::trim_end`.
pub open spec fn trim_end(s: Seq<char>) -> Seq<char> {
    s.subrange(0, s.len() - trail_ws(s))
}

/// `str::trim`.
pub open spec fn trim(s: Seq<char>) -> Seq<char> {
    trim_end(trim_start(s))
}

pub proof fn lemma_lead_ws_bound(s: Seq<char>)
    ensures
        lead_ws(s) <= s.len(),
        forall|i: int| 0 <= i < lead_ws(s) ==> is_ws(#[trigger] s[i]),
        lead_ws(s) < s.len() ==> !is_ws(s[lead_ws(s) as int]),
    decreases s.len(),
{
    if s.len() > 0 && is_ws(s[0]) {
        lemma_lead_ws_bound(s.drop_first());
        assert forall|i: int| 0 <= i < lead_ws(s) implies is_ws(#[trigger] s[i]) by {
            if i > 0 {
                assert(s[i] == s.drop_first()[i - 1]);
            }
        }
    }
}

pub proof fn lemma_trail_ws_bound(s: Seq<char>)
    ensures
        trail_ws(s) <= s.len(),
        forall|i: int| s.len() - trail_ws(s) <= i < s.len() ==> is_ws(#[trigger] s[i]),
        trail_ws(s) < s.len() ==> !is_ws(s[s.len() - trail_ws(s) - 1]),
    decreases s.len(),
{
    if s.len() > 0 && is_ws(s.last()) {
        lemma_trail_ws_bound(s.drop_last());
        assert forall|i: int| s.len() - trail_ws(s) <= i < s.len() implies is_ws(
            #[trigger] s[i],
        ) by {
            if i < s.len() - 1 {
                assert(s[i] == s.drop_last()[i]);
            }
        }
    }
}

/// Characterises `lead_ws` by its two defining properties.
pub proof fn lemma_lead_ws_unique(s: Seq<char>, k: int)
    requires
        0 <= k <= s.len(),
        forall|i: int| 0 <= i < k ==> is_ws(#[trigger] s[i]),
        k < s.len() ==> !is_ws(s[k]),
    ensures
        lead_ws(s) == k,
    decreases s.len(),
{
    if k > 0 {
        assert(is_ws(s[0]));
        assert forall|i: int| 0 <= i < k - 1 implies is_ws(#[trigger] s.drop_first()[i]) by {
            assert(s.drop_first()[i] == s[i + 1]);
        }
        lemma_lead_ws_unique(s.drop_first(), k - 1);
    }
}

/// Characterises `trail_ws` by its two defining properties.
pub proof fn lemma_trail_ws_unique(s: Seq<char>, k: int)
    requires
        0 <= k <= s.len(),
        forall|i: int| s.len() - k <= i < s.len() ==> is_ws(#[trigger] s[i]),
        k < s.len() ==> !is_ws(s[s.len() - k - 1]),
    ensures
        trail_ws(s) == k,
    decreases s.len(),
{
    if k > 0 {
        assert(is_ws(s.last()));
        assert forall|i: int| s.len() - 1 - (k - 1) <= i < s.len() - 1 implies is_ws(
            #[trigger] s.drop_last()[i],
        ) by {
            assert(s.drop_last()[i] == s[i]);
        }
        lemma_trail_ws_unique(s.drop_last(), k - 1);
    }
}

/// Start and end (exclusive) of the trimmed part of `s[lo..hi]`.
pub fn trim_bounds(s: &[char], lo: usize, hi: usize) -> (r: (usize, usize))
    requires
        lo <= hi <= s@.len(),
    ensures
        lo <= r.0 <= r.1 <= hi,
        s@.subrange(r.0 as int, r.1 as int) == trim(s@.subrange(lo as int, hi as int)),
        s@.subrange(r.0 as int, hi as int) == trim_start(s@.subrange(lo as int, hi as int)),
{
    let ghost t = s@.subrange(lo as int, hi as int);
    let mut a = lo;
    while a < hi && is_whitespace(s[a])
        invariant
            lo <= a <= hi <= s@.len(),
            t == s@.subrange(lo as int, hi as int),
            forall|i: int| lo <= i < a ==> is_ws(#[trigger] s@[i]),
        decreases hi - a,
    {
        a = a + 1;
    }
    proof {
        assert forall|i: int| 0 <= i < a - lo implies is_ws(#[trigger] t[i]) by {
            assert(t[i] == s@[lo + i]);
        }
        if a < hi {
            assert(t[a - lo] == s@[a as int]);
        }
        lemma_lead_ws_unique(t, a - lo);
        assert(trim_start(t) =~= s@.subrange(a as int, hi as int));
    }
    let mut b = hi;
    while b > a && is_whitespace(s[b - 1])
        invariant
            lo <= a <= b <= hi <= s@.len(),
            forall|i: int| b <= i < hi ==> is_ws(#[trigger] s@[i]),
        decreases b - a,
    {
        b = b - 1;
    }
    proof {
        let u = s@.subrange(a as int, hi as int);
        assert forall|i: int| u.len() - (hi - b) <= i < u.len() implies is_ws(#[trigger] u[i]) by {
            assert(u[i] == s@[a + i]);
        }
        if b > a {
            assert(u[u.len() - (hi - b) - 1] == s@[b - 1]);
        }
        lemma_trail_ws_unique(u, hi - b);
        assert(trim_end(u) =~= s@.subrange(a as int, b as int));
    }
    (a, b)
}

/// Length of `s` without its trailing whitespace.
pub fn trim_end_len(s: &[char]) -> (r: usize)
    ensures
        r <= s@.len(),
        s@.subrange(0, r as int) == trim_end(s@),
{
    let mut b = s.len();
    while b > 0 && is_whitespace(s[b - 1])
        invariant
            b <= s@.len(),
            forall|i: int| b <= i < s@.len() ==> is_ws(#[trigger] s@[i]),
        decreases b,
    {
        b = b - 1;
    }
    proof {
        lemma_trail_ws_unique(s@, s@.len() - b);
        assert(trim_end(s@) =~= s@.subrange(0, b as int));
    }
    b
}

// ───────────────────────── prefixes / suffixes ─────────────────────────

pub open spec fn starts_with_char(s: Seq<char>, c: char) -> bool {
    s.len() > 0 && s[0] == c
}

pub open spec fn ends_with_char(s: Seq<char>, c: char) -> bool {
    s.len() > 0 && s.last() == c
}

pub open spec fn has_prefix(s: Seq<char>, p: Seq<char>) -> bool {
    p.len() <= s.len() && s.subrange(0, p.len() as int) == p
}

pub open spec fn has_suffix(s: Seq<char>, p: Seq<char>) -> bool {
    p.len() <= s.len() && s.subrange(s.len() - p.len(), s.len() as int) == p
}

/// Whether `s[lo..hi]` ends with `p`.
pub fn slice_ends_with(s: &[char], lo: usize, hi: usize, p: &[char]) -> (b: bool)
    requires
        lo <= hi <= s@.len(),
    ensures
        b == has_suffix(s@.subrange(lo as int, hi as int), p@),
{
    let ghost t = s@.subrange(lo as int, hi as int);
    if p.len() > hi - lo {
        return false;
    }
    let start = hi - p.len();
    let mut i: usize = 0;
    while i < p.len()
        invariant
            lo <= start <= hi <= s@.len(),
            start + p@.len() == hi,
            t == s@.subrange(lo as int, hi as int),
            i <= p@.len(),
            forall|j: int| 0 <= j < i ==> s@[start + j] == p@[j],
        decreases p@.len() - i,
    {
        if s[start + i] != p[i] {
            proof {
                assert(t.subrange(t.len() - p@.len(), t.len() as int)[i as int] == s@[start + i]);
            }
            return false;
        }
        i = i + 1;
    }
    assert(t.subrange(t.len() - p@.len(), t.len() as int) =~= p@);
    true
}

/// Whether `s[lo..hi]` starts with `p`.
pub fn slice_starts_with(s: &[char], lo: usize, hi: usize, p: &[char]) -> (b: bool)
    requires
        lo <= hi <= s@.len(),
    ensures
        b == has_prefix(s@.subrange(lo as int, hi as int), p@),
{
    let ghost t = s@.subrange(lo as int, hi as int);
    if p.len() > hi - lo {
        return false;
    }
    let mut i: usize = 0;
    while i < p.len()
        invariant
            lo + p@.len() <= hi <= s@.len(),
            t == s@.subrange(lo as int, hi as int),
            i <= p@.len(),
            forall|j: int| 0 <= j < i ==> s@[lo + j] == p@[j],
        decreases p@.len() - i,
    {
        if s[lo + i] != p[i] {
            proof {
                assert(t.subrange(0, p@.len() as int)[i as int] == s@[lo + i]);
            }
            return false;
        }
        i = i + 1;
    }
    assert(t.subrange(0, p@.len() as int) =~= p@);
    true
}

// ───────────────────────── lines ─────────────────────────

/// `s` split at every occurrence of `sep` (always one more part than separators).
pub open spec fn split_on(s: Seq<char>, sep: char) -> Seq<Seq<char>>
    decreases s.len(),
{
    if s.len() == 0 {
        seq![Seq::<char>::empty()]
    } else {
        let rest = split_on(s.drop_last(), sep);
        if s.last() == sep {
            rest.push(Seq::<char>::empty())
        } else {
            rest.update(rest.len() - 1, rest.last().push(s.last()))
        }
    }
}

pub proof fn lemma_split_on_nonempty(s: Seq<char>, sep: char)
    ensures
        split_on(s, sep).len() >= 1,
    decreases s.len(),
{
    if s.len() > 0 {
        lemma_split_on_nonempty(s.drop_last(), sep);
    }
}

/// No piece of `split_on(s, sep)` contains `sep`.
pub proof fn lemma_split_on_no_sep(s: Seq<char>, sep: char)
    ensures
        forall|k: int, j: int|
            0 <= k < split_on(s, sep).len() && 0 <= j < split_on(s, sep)[k].len() ==> #[trigger] split_on(
                s,
                sep,
            )[k][j] != sep,
    decreases s.len(),
{
    if s.len() > 0 {
        lemma_split_on_no_sep(s.drop_last(), sep);
        lemma_split_on_nonempty(s.drop_last(), sep);
        let rest = split_on(s.drop_last(), sep);
        if s.last() != sep {
            let r = rest.update(rest.len() - 1, rest.last().push(s.last()));
            assert forall|k: int, j: int| 0 <= k < r.len() && 0 <= j < r[k].len() implies #[trigger] r[k][j]
                != sep by {
                if k == rest.len() - 1 {
                    if j < rest.last().len() {
                        assert(r[k][j] == rest[k][j]);
                    }
                } else {
                    assert(r[k] == rest[k]);
                }
            }
        } else {
            let r = rest.push(Seq::<char>::empty());
            assert forall|k: int, j: int| 0 <= k < r.len() && 0 <= j < r[k].len() implies #[trigger] r[k][j]
                != sep by {
                assert(k < rest.len());
                assert(r[k] == rest[k]);
            }
        }
    }
}

/// No line of `lines(s)` contains a line feed.
pub proof fn lemma_lines_no_newline(s: Seq<char>)
    ensures
        forall|k: int, j: int|
            0 <= k < lines(s).len() && 0 <= j < lines(s)[k].len() ==> #[trigger] lines(s)[k][j]
                != '\n',
{
    lemma_split_on_no_sep(s, '\n');
    lemma_split_on_nonempty(s, '\n');
    let p = split_on(s, '\n');
    assert forall|k: int, j: int| 0 <= k < lines(s).len() && 0 <= j < lines(s)[k].len() implies #[trigger] lines(
        s,
    )[k][j] != '\n' by {
        if k < p.len() - 1 {
            assert(lines(s)[k] == strip_cr(p[k]));
            if ends_with_char(p[k], '\r') {
                assert(lines(s)[k][j] == p[k][j]);
            }
        } else {
            assert(lines(s)[k] == p.last());
        }
    }
}

proof fn lemma_split_on_single(s: Seq<char>, sep: char)
    requires
        forall|i: int| 0 <= i < s.len() ==> s[i] != sep,
    ensures
        split_on(s, sep) == seq![s],
    decreases s.len(),
{
    if s.len() > 0 {
        lemma_split_on_single(s.drop_last(), sep);
        assert(s[s.len() - 1] != sep);
        assert(s.drop_last().push(s.last()) =~= s);
        assert(seq![s.drop_last()].update(0, s.drop_last().push(s.last())) =~= seq![s]);
    } else {
        assert(s =~= Seq::<char>::empty());
    }
}

/// A text without a line feed is one line (none when empty).
pub proof fn lemma_lines_single(s: Seq<char>)
    requires
        forall|i: int| 0 <= i < s.len() ==> s[i] != '\n',
    ensures
        lines(s) == (if s.len() == 0 { Seq::<Seq<char>>::empty() } else { seq![s] }),
{
    lemma_split_on_single(s, '\n');
    let p = split_on(s, '\n');
    assert(p.drop_last() =~= Seq::<Seq<char>>::empty());
    assert(p.drop_last().map_values(|l: Seq<char>| strip_cr(l)) =~= Seq::<Seq<char>>::empty());
    if s.len() > 0 {
        assert(Seq::<Seq<char>>::empty().push(s) =~= seq![s]);
    }
}

/// Removes one trailing `'\r'`.
pub open spec fn strip_cr(l: Seq<char>) -> Seq<char> {
    if ends_with_char(l, '\r') {
        l.drop_last()
    } else {
        l
    }
}

/// `str::lines`: split at `'\n'`, a trailing `'\r'` of each terminated line removed,
/// the final line ending optional (an unterminated last line is kept as it is).
pub open spec fn lines(s: Seq<char>) -> Seq<Seq<char>> {
    let p = split_on(s, '\n');
    let terminated = p.drop_last().map_values(|l: Seq<char>| strip_cr(l));
    if p.last().len() == 0 {
        terminated
    } else {
        terminated.push(p.last())
    }
}

/// View of a vector of character vectors.
pub open spec fn views(v: Seq<Vec<char>>) -> Seq<Seq<char>> {
    v.map_values(|x: Vec<char>| x@)
}

/// `str::lines` on a character sequence.
pub fn split_lines(s: &[char]) -> (r: Vec<Vec<char>>)
    ensures
        views(r@) == lines(s@),
{
    let mut parts: Vec<Vec<char>> = Vec::new();
    let mut cur: Vec<char> = Vec::new();
    let mut i: usize = 0;
    while i < s.len()
        invariant
            i <= s@.len(),
            views(parts@).push(cur@) == split_on(s@.take(i as int), '\n'),
        decreases s@.len() - i,
    {
        proof {
            assert(s@.take(i + 1).drop_last() =~= s@.take(i as int));
        }
        if s[i] == '\n' {
            let ghost before = views(parts@).push(cur@);
            parts.push(cur);
            cur = Vec::new();
            proof {
                assert(views(parts@).push(cur@) =~= before.push(Seq::<char>::empty()));
            }
        } else {
            let ghost before = views(parts@).push(cur@);
            cur.push(s[i]);
            proof {
                assert(views(parts@).push(cur@) =~= before.update(
                    before.len() - 1,
                    before.last().push(s@[i as int]),
                ));
            }
        }
        i = i + 1;
    }
    proof {
        assert(s@.take(s@.len() as int) =~= s@);
        lemma_split_on_nonempty(s@, '\n');
    }
    let ghost p = split_on(s@, '\n');
    assert(views(parts@) =~= p.drop_last());
    assert(cur@ == p.last());
    let ghost q = p.drop_last();
    let mut out: Vec<Vec<char>> = Vec::new();
    let mut k: usize = 0;
    while k < parts.len()
        invariant
            k <= parts@.len(),
            views(parts@) == q,
            views(out@) =~= q.take(k as int).map_values(|l: Seq<char>| strip_cr(l)),
        decreases parts@.len() - k,
    {
        let l = &parts[k];
        let mut m: Vec<char> = l.clone();
        if m.len() > 0 && m[m.len() - 1] == '\r' {
            m.pop();
        }
        proof {
            assert(q[k as int] == parts@[k as int]@);
            assert(m@ == strip_cr(q[k as int]));
        }
        out.push(m);
        proof {
            assert(q.take(k + 1).map_values(|l: Seq<char>| strip_cr(l)) =~= q.take(
                k as int,
            ).map_values(|l: Seq<char>| strip_cr(l)).push(strip_cr(q[k as int])));
        }
        k = k + 1;
    }
    proof {
        assert(q.take(q.len() as int) =~= q);
    }
    if cur.len() > 0 {
        let ghost o0 = views(out@);
        out.push(cur);
        proof {
            assert(views(out@) =~= o0.push(p.last()));
        }
    }
    out
}

// ───────────────────────── joining ─────────────────────────

/// Appends the characters of `s` to `r`.
pub fn push_all(r: &mut Vec<char>, s: &[char])
    ensures
        final(r)@ == old(r)@ + s@,
{
    let mut i: usize = 0;
    while i < s.len()
        invariant
            i <= s@.len(),
            r@ == old(r)@ + s@.take(i as int),
        decreases s@.len() - i,
    {
        r.push(s[i]);
        proof {
            assert(s@.take(i + 1) =~= s@.take(i as int).push(s@[i as int]));
        }
        i = i + 1;
    }
    proof {
        assert(s@.take(s@.len() as int) =~= s@);
    }
}

/// `parts.join(sep)`.
pub open spec fn join(parts: Seq<Seq<char>>, sep: Seq<char>) -> Seq<char>
    decreases parts.len(),
{
    if parts.len() == 0 {
        Seq::<char>::empty()
    } else if parts.len() == 1 {
        parts[0]
    } else {
        join(parts.drop_last(), sep) + sep + parts.last()
    }
}

/// `parts.concat()`.
pub open spec fn concat(parts: Seq<Seq<char>>) -> Seq<char> {
    join(parts, Seq::<char>::empty())
}

/// Joins character vectors with a separator.
pub fn join_chars(parts: &Vec<Vec<char>>, sep: &[char]) -> (r: Vec<char>)
    ensures
        r@ == join(views(parts@), sep@),
{
    let mut r: Vec<char> = Vec::new();
    let mut k: usize = 0;
    while k < parts.len()
        invariant
            k <= parts@.len(),
            r@ == join(views(parts@).take(k as int), sep@),
        decreases parts@.len() - k,
    {
        proof {
            assert(views(parts@).take(k + 1).drop_last() =~= views(parts@).take(k as int));
            assert(views(parts@).take(k + 1).last() == parts@[k as int]@);
        }
        if k > 0 {
            push_all(&mut r, sep);
        }
        push_all(&mut r, parts[k].as_slice());
        proof {
            if k == 0 {
                assert(views(parts@).take(1) =~= seq![parts@[0]@]);
            }
        }
        k = k + 1;
    }
    proof {
        assert(views(parts@).take(parts@.len() as int) =~= views(parts@));
    }
    r
}

/// View of a vector of strings.
pub open spec fn string_views(v: Seq<String>) -> Seq<Seq<char>> {
    v.map_values(|x: String| x@)
}

/// Converts each character vector to a `String`.
pub fn strings_from(v: &Vec<Vec<char>>) -> (r: Vec<String>)
    ensures
        string_views(r@) == views(v@),
{
    let mut r: Vec<String> = Vec::new();
    let mut i: usize = 0;
    while i < v.len()
        invariant
            i <= v@.len(),
            string_views(r@) =~= views(v@).take(i as int),
        decreases v@.len() - i,
    {
        let s = string_from_chars(v[i].as_slice());
        r.push(s);
        proof {
            assert(views(v@).take(i + 1) =~= views(v@).take(i as int).push(v@[i as int]@));
        }
        i = i + 1;
    }
    proof {
        assert(views(v@).take(v@.len() as int) =~= views(v@));
    }
    r
}

// ───────────────────────── replacing ─────────────────────────

/// `str::replace`: the non-overlapping occurrences of `p`, found left to right,
/// replaced by `r`; an empty `p` matches before every character and at the end.
pub open spec fn replaced(s: Seq<char>, p: Seq<char>, r: Seq<char>) -> Seq<char>
    decreases s.len(),
{
    if p.len() == 0 {
        if s.len() == 0 {
            r
        } else {
            r + seq![s[0]] + replaced(s.drop_first(), p, r)
        }
    } else if s.len() < p.len() {
        s
    } else if s.take(p.len() as int) == p {
        r + replaced(s.skip(p.len() as int), p, r)
    } else {
        seq![s[0]] + replaced(s.drop_first(), p, r)
    }
}

/// Whether `p` occurs in `s` at position `i`.
pub(crate) fn occurs_at(s: &[char], i: usize, p: &[char]) -> (b: bool)
    requires
        i + p@.len() <= s@.len(),
    ensures
        b == (s@.subrange(i as int, i + p@.len()) == p@),
{
    let n = s.len();
    let mut k: usize = 0;
    while k < p.len()
        invariant
            k <= p@.len(),
            n == s@.len(),
            i + p@.len() <= s@.len(),
            forall|j: int| 0 <= j < k ==> s@[i + j] == p@[j],
        decreases p@.len() - k,
    {
        if s[i + k] != p[k] {
            proof {
                assert(s@.subrange(i as int, i + p@.len())[k as int] != p@[k as int]);
            }
            return false;
        }
        k = k + 1;
    }
    proof {
        assert(s@.subrange(i as int, i + p@.len()) =~= p@);
    }
    true
}

/// `str::replace` on character vectors.
pub fn replace_chars(s: &[char], p: &[char], r: &[char]) -> (out: Vec<char>)
    ensures
        out@ == replaced(s@, p@, r@),
{
    let mut out: Vec<char> = Vec::new();
    let mut i: usize = 0;
    let ghost sv = s@;
    proof {
        assert(sv.skip(0) =~= sv);
    }
    while i < s.len()
        invariant
            i <= sv.len(),
            sv == s@,
            out@ + replaced(sv.skip(i as int), p@, r@) == replaced(sv, p@, r@),
        decreases sv.len() - i,
    {
        let ghost rest = sv.skip(i as int);
        if p.len() == 0 {
            proof {
                assert(rest.drop_first() =~= sv.skip(i + 1));
                assert(rest[0] == sv[i as int]);
            }
            let ghost o0 = out@;
            push_all(&mut out, r);
            out.push(s[i]);
            proof {
                assert(out@ + replaced(sv.skip(i + 1), p@, r@) =~= o0 + (r@ + seq![sv[i as int]]
                    + replaced(sv.skip(i + 1), p@, r@)));
            }
            i = i + 1;
        } else if p.len() <= s.len() - i && occurs_at(s, i, p) {
            proof {
                assert(rest.take(p@.len() as int) =~= sv.subrange(i as int, i + p@.len()));
                assert(rest.skip(p@.len() as int) =~= sv.skip(i + p@.len()));
            }
            push_all(&mut out, r);
            i = i + p.len();
        } else {
            proof {
                if p@.len() <= rest.len() {
                    assert(rest.take(p@.len() as int) =~= sv.subrange(i as int, i + p@.len()));
                    assert(rest.drop_first() =~= sv.skip(i + 1));
                } else {
                    assert(replaced(rest, p@, r@) == rest);
                    assert(rest =~= seq![sv[i as int]] + sv.skip(i + 1));
                    lemma_replaced_short(sv.skip(i + 1), p@, r@);
                }
            }
            out.push(s[i]);
            i = i + 1;
        }
    }
    proof {
        assert(sv.skip(sv.len() as int) =~= Seq::<char>::empty());
    }
    if p.len() == 0 {
        push_all(&mut out, r);
    }
    out
}

proof fn lemma_replaced_short(s: Seq<char>, p: Seq<char>, r: Seq<char>)
    requires
        p.len() > 0,
        s.len() < p.len(),
    ensures
        replaced(s, p, r) == s,
{
}

} // verus!
