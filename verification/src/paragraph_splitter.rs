//! Shared over-long paragraph splitter (TXT and EPUB paths).
//!
//! A paragraph longer than the threshold is cut into character ranges:
//! 1. inside the window, the last strong CJK terminal punctuation (a cut between
//!    two `…` is rejected);
//! 2. otherwise a bounded scan of one more window length for secondary punctuation;
//! 3. otherwise a hard cut at the threshold;
//! 4. a cut landing inside an ellipsis pair moves past it, and closing quotes or
//!    brackets that follow the cut are absorbed into the left piece;
//! 5. no empty tail; a tiny tail is merged into the previous piece when the merged
//!    piece stays within 1.2 × threshold.
//! After every cut, counting restarts from the cut.
use vstd::prelude::*;
use crate::text::{chars_of, string_from_chars};

verus! {

/// Default split threshold of the Smart mode (characters).
pub const SMART_THRESHOLD: usize = 200;

/// Default split threshold of the Aggressive mode (characters).
pub const AGGRESSIVE_THRESHOLD: usize = 100;

pub open spec fn spec_is_strong_punct(c: char) -> bool {
    c == '。' || c == '！' || c == '？' || c == '…' || c == '；' || c == '」' || c == '』' || c
        == '\u{201D}'
}

pub open spec fn spec_is_secondary_punct(c: char) -> bool {
    c == '，' || c == '、' || c == '：' || c == ',' || c == '.' || c == ';' || c == ':' || c
        == '!' || c == '?'
}

pub open spec fn spec_is_closing_glue(c: char) -> bool {
    c == '\u{201D}' || c == '\u{2019}' || c == '」' || c == '』' || c == '）' || c == '】' || c
        == '》' || c == '〉' || c == '〕'
}

/// Terminal punctuation strong enough to end a piece (CJK set only).
pub fn is_strong_punct(c: char) -> (b: bool)
    ensures
        b == spec_is_strong_punct(c),
{
    c == '。' || c == '！' || c == '？' || c == '…' || c == '；' || c == '」' || c == '』' || c
        == '\u{201D}'
}

fn is_secondary_punct(c: char) -> (b: bool)
    ensures
        b == spec_is_secondary_punct(c),
{
    c == '，' || c == '、' || c == '：' || c == ',' || c == '.' || c == ';' || c == ':' || c
        == '!' || c == '?'
}

fn is_closing_glue(c: char) -> (b: bool)
    ensures
        b == spec_is_closing_glue(c),
{
    c == '\u{201D}' || c == '\u{2019}' || c == '」' || c == '』' || c == '）' || c == '】' || c
        == '》' || c == '〉' || c == '〕'
}

/// A cut after position `i - 1` at a strong punctuation mark that does not split
/// an ellipsis pair.
pub open spec fn strong_cut_ok(c: Seq<char>, i: int) -> bool {
    &&& spec_is_strong_punct(c[i - 1])
    &&& !(c[i - 1] == '…' && i < c.len() && c[i] == '…')
}

/// The largest `j` in `(lo, i]` with `strong_cut_ok(c, j)`.
pub open spec fn last_strong_cut(c: Seq<char>, lo: int, i: int) -> Option<int>
    decreases i - lo,
{
    if i <= lo {
        None
    } else if strong_cut_ok(c, i) {
        Some(i)
    } else {
        last_strong_cut(c, lo, i - 1)
    }
}

/// One past the first `j` in `[i, ext)` holding secondary punctuation.
pub open spec fn first_secondary_cut(c: Seq<char>, i: int, ext: int) -> Option<int>
    decreases ext - i,
{
    if i >= ext {
        None
    } else if spec_is_secondary_punct(c[i]) {
        Some(i + 1)
    } else {
        first_secondary_cut(c, i + 1, ext)
    }
}

/// The first position at or after `i` that does not hold a closing glue mark.
pub open spec fn skip_glue(c: Seq<char>, i: int) -> int
    decreases c.len() - i,
{
    if 0 <= i < c.len() && spec_is_closing_glue(c[i]) {
        skip_glue(c, i + 1)
    } else {
        i
    }
}

pub open spec fn min_int(a: int, b: int) -> int {
    if a <= b {
        a
    } else {
        b
    }
}

/// The cut chosen for the window that starts at `start`.
pub open spec fn cut_point(c: Seq<char>, start: int, th: int) -> int {
    let total = c.len() as int;
    let limit = start + th;
    let cut = match last_strong_cut(c, start, limit) {
        Some(i) => Some(i),
        None => first_secondary_cut(c, limit, min_int(limit + th, total)),
    };
    let c0 = match cut {
        Some(x) => x,
        None => limit,
    };
    let c1 = if c0 > 0 && c0 < total && c[c0 - 1] == '…' && c[c0] == '…' {
        c0 + 1
    } else {
        c0
    };
    skip_glue(c, c1)
}

/// Ranges produced by the cutting loop from `start` on.
pub open spec fn cut_loop(c: Seq<char>, start: int, th: int) -> Seq<(int, int)>
    decreases c.len() - start,
{
    let k = cut_point(c, start, th);
    if th > 0 && c.len() - start > th && start < k <= c.len() {
        seq![(start, k)] + cut_loop(c, k, th)
    } else {
        Seq::empty()
    }
}

/// Where the cutting loop started from `start` stops.
pub open spec fn cut_loop_end(c: Seq<char>, start: int, th: int) -> int
    decreases c.len() - start,
{
    let k = cut_point(c, start, th);
    if th > 0 && c.len() - start > th && start < k <= c.len() {
        cut_loop_end(c, k, th)
    } else {
        start
    }
}

/// Tail rebalancing: a tiny last piece is merged into the previous one.
pub open spec fn rebalance(out: Seq<(int, int)>, th: int, total: int) -> Seq<(int, int)> {
    if out.len() >= 2 {
        let last_len = out.last().1 - out.last().0;
        let prev = out[out.len() - 2];
        if last_len * 5 < th && (prev.1 - prev.0 + last_len) * 10 <= th * 12 {
            let o = out.drop_last();
            o.update(o.len() - 1, (o.last().0, total))
        } else {
            out
        }
    } else {
        out
    }
}

/// The ranges into which `split_ranges` cuts a text of characters `c`.
pub open spec fn split_ranges_spec(c: Seq<char>, th: int) -> Seq<(int, int)> {
    let total = c.len() as int;
    if th == 0 || total <= th {
        seq![(0, total)]
    } else {
        rebalance(pre_rebalance(c, th), th, total)
    }
}

/// The cutting loop's ranges followed by the tail, before rebalancing.
pub open spec fn pre_rebalance(c: Seq<char>, th: int) -> Seq<(int, int)> {
    let total = c.len() as int;
    let out = cut_loop(c, 0, th);
    let s = cut_loop_end(c, 0, th);
    if s < total {
        out.push((s, total))
    } else {
        out
    }
}

proof fn lemma_last_strong_cut_found(c: Seq<char>, lo: int, i: int, q: int)
    requires
        lo < q + 1 <= i,
        strong_cut_ok(c, q + 1),
    ensures
        last_strong_cut(c, lo, i) matches Some(j) && q + 1 <= j <= i && strong_cut_ok(c, j),
    decreases i - lo,
{
    if !strong_cut_ok(c, i) {
        lemma_last_strong_cut_found(c, lo, i - 1, q);
    }
}

proof fn lemma_skip_glue_all(c: Seq<char>, i: int)
    requires
        0 <= i <= c.len(),
    ensures
        forall|x: int| i <= x < skip_glue(c, i) ==> spec_is_closing_glue(#[trigger] c[x]),
    decreases c.len() - i,
{
    if 0 <= i < c.len() && spec_is_closing_glue(c[i]) {
        lemma_skip_glue_all(c, i + 1);
    }
}

/// When the first window of a text longer than `threshold` holds a sentence-ending
/// mark (。！？…；」』”) at `q` (not the first of two ellipsis marks), the first
/// piece is not cut before it nor in the middle of a sentence: either it is the
/// whole text, or it ends right after such a mark at or after `q`, followed only by
/// closing marks.
pub proof fn lemma_split_ranges_sentence_end(c: Seq<char>, th: int, q: int)
    requires
        th > 0,
        c.len() > th,
        0 <= q < th,
        c[q] == '。' || c[q] == '！' || c[q] == '？' || c[q] == '…' || c[q] == '；' || c[q] == '」'
            || c[q] == '』' || c[q] == '\u{201D}',
        !(c[q] == '…' && c[q + 1] == '…'),
    ensures
        split_ranges_spec(c, th).len() >= 1,
        split_ranges_spec(c, th)[0].0 == 0,
        split_ranges_spec(c, th)[0].1 == c.len() || exists|p: int|
            q <= p < split_ranges_spec(c, th)[0].1 && (c[p] == '。' || c[p] == '！' || c[p] == '？'
                || c[p] == '…' || c[p] == '；' || c[p] == '」' || c[p] == '』' || c[p] == '\u{201D}')
                && forall|x: int| p < x < split_ranges_spec(c, th)[0].1 ==> spec_is_closing_glue(
                #[trigger] c[x]),
{
    let total = c.len() as int;
    assert(strong_cut_ok(c, q + 1));
    lemma_last_strong_cut_found(c, 0, th, q);
    let j = last_strong_cut(c, 0, th)->0;
    assert(!(c[j - 1] == '…' && j < total && c[j] == '…'));
    let k = cut_point(c, 0, th);
    assert(k == skip_glue(c, j));
    lemma_skip_glue(c, j);
    lemma_skip_glue_all(c, j);
    assert(cut_loop(c, 0, th) == seq![(0int, k)] + cut_loop(c, k, th));
    let out = cut_loop(c, 0, th);
    let pre = pre_rebalance(c, th);
    assert(pre.len() >= 1 && pre[0] == (0int, k));
    let r = split_ranges_spec(c, th);
    assert(r == rebalance(pre, th, total));
    assert(r.len() >= 1 && r[0].0 == 0 && (r[0].1 == k || r[0].1 == total));
    if r[0].1 == k {
        let p = j - 1;
        assert(q <= p < k);
        assert(forall|x: int| p < x < k ==> spec_is_closing_glue(#[trigger] c[x]));
    }
}

/// Integer view of a sequence of index pairs.
pub open spec fn rview(v: Seq<(usize, usize)>) -> Seq<(int, int)> {
    v.map_values(|p: (usize, usize)| (p.0 as int, p.1 as int))
}

proof fn lemma_last_strong_cut(c: Seq<char>, lo: int, i: int)
    ensures
        last_strong_cut(c, lo, i) matches Some(j) ==> lo < j <= i,
    decreases i - lo,
{
    if i > lo && !strong_cut_ok(c, i) {
        lemma_last_strong_cut(c, lo, i - 1);
    }
}

proof fn lemma_first_secondary_cut(c: Seq<char>, i: int, ext: int)
    ensures
        first_secondary_cut(c, i, ext) matches Some(j) ==> i < j <= ext,
    decreases ext - i,
{
    if i < ext && !spec_is_secondary_punct(c[i]) {
        lemma_first_secondary_cut(c, i + 1, ext);
    }
}

proof fn lemma_skip_glue(c: Seq<char>, i: int)
    requires
        0 <= i <= c.len(),
    ensures
        i <= skip_glue(c, i) <= c.len(),
        skip_glue(c, i) < c.len() ==> !spec_is_closing_glue(c[skip_glue(c, i)]),
    decreases c.len() - i,
{
    if 0 <= i < c.len() && spec_is_closing_glue(c[i]) {
        lemma_skip_glue(c, i + 1);
    }
}

proof fn lemma_cut_point_bounds(c: Seq<char>, start: int, th: int)
    requires
        0 <= start,
        th > 0,
        c.len() - start > th,
    ensures
        start < cut_point(c, start, th) <= c.len(),
        cut_point(c, start, th) < c.len() ==> !spec_is_closing_glue(
            c[cut_point(c, start, th)],
        ),
{
    let total = c.len() as int;
    let limit = start + th;
    lemma_last_strong_cut(c, start, limit);
    lemma_first_secondary_cut(c, limit, min_int(limit + th, total));
    let cut = match last_strong_cut(c, start, limit) {
        Some(i) => Some(i),
        None => first_secondary_cut(c, limit, min_int(limit + th, total)),
    };
    let c0 = match cut {
        Some(x) => x,
        None => limit,
    };
    let c1 = if c0 > 0 && c0 < total && c[c0 - 1] == '…' && c[c0] == '…' {
        c0 + 1
    } else {
        c0
    };
    lemma_skip_glue(c, c1);
}

/// Index of the last strong cut in `(lo, hi]`, computed like the spec.
fn find_last_strong_cut(chars: &[char], lo: usize, hi: usize) -> (r: Option<usize>)
    requires
        lo <= hi < chars@.len(),
    ensures
        rview_opt(r) == last_strong_cut(chars@, lo as int, hi as int),
{
    let total = chars.len();
    let mut i = hi;
    while i > lo
        invariant
            lo <= i <= hi < chars@.len(),
            total == chars@.len(),
            last_strong_cut(chars@, lo as int, hi as int) == last_strong_cut(
                chars@,
                lo as int,
                i as int,
            ),
        decreases i - lo,
    {
        let p = chars[i - 1];
        if is_strong_punct(p) && !(p == '…' && i < total && chars[i] == '…') {
            return Some(i);
        }
        i = i - 1;
    }
    None
}

pub open spec fn rview_opt(r: Option<usize>) -> Option<int> {
    match r {
        Some(x) => Some(x as int),
        None => None,
    }
}

/// One past the first secondary punctuation in `[lo, ext)`.
fn find_first_secondary_cut(chars: &[char], lo: usize, ext: usize) -> (r: Option<usize>)
    requires
        lo <= ext <= chars@.len(),
    ensures
        rview_opt(r) == first_secondary_cut(chars@, lo as int, ext as int),
{
    let mut i = lo;
    while i < ext
        invariant
            lo <= i <= ext <= chars@.len(),
            first_secondary_cut(chars@, lo as int, ext as int) == first_secondary_cut(
                chars@,
                i as int,
                ext as int,
            ),
        decreases ext - i,
    {
        if is_secondary_punct(chars[i]) {
            return Some(i + 1);
        }
        i = i + 1;
    }
    None
}

/// The cut for the window that starts at `start`.
fn compute_cut(chars: &[char], start: usize, threshold: usize) -> (k: usize)
    requires
        threshold > 0,
        chars@.len() - start > threshold,
    ensures
        k as int == cut_point(chars@, start as int, threshold as int),
        start < k <= chars@.len(),
{
    let total = chars.len();
    let limit = start + threshold;
    let mut cut = find_last_strong_cut(chars, start, limit);
    if cut.is_none() {
        let ext = if threshold < total - limit {
            limit + threshold
        } else {
            total
        };
        cut = find_first_secondary_cut(chars, limit, ext);
    }
    let mut c = match cut {
        Some(x) => x,
        None => limit,
    };
    proof {
        lemma_last_strong_cut(chars@, start as int, limit as int);
        lemma_first_secondary_cut(
            chars@,
            limit as int,
            min_int(limit + threshold, total as int),
        );
    }
    if c > 0 && c < total && chars[c - 1] == '…' && chars[c] == '…' {
        c = c + 1;
    }
    let ghost c1 = c as int;
    while c < total && is_closing_glue(chars[c])
        invariant
            c <= total == chars@.len(),
            skip_glue(chars@, c1) == skip_glue(chars@, c as int),
        decreases total - c,
    {
        c = c + 1;
    }
    proof {
        lemma_cut_point_bounds(chars@, start as int, threshold as int);
    }
    c
}

/// `split_ranges` on a character sequence.
pub fn split_ranges_chars(chars: &[char], threshold: usize) -> (r: Vec<(usize, usize)>)
    ensures
        rview(r@) == split_ranges_spec(chars@, threshold as int),
{
    let total = chars.len();
    if threshold == 0 || total <= threshold {
        let r = vec![(0usize, total)];
        assert(rview(r@) =~= seq![(0int, total as int)]);
        return r;
    }
    let mut out: Vec<(usize, usize)> = Vec::new();
    let mut start: usize = 0;
    while total - start > threshold
        invariant
            start <= total == chars@.len(),
            threshold > 0,
            rview(out@) + cut_loop(chars@, start as int, threshold as int) == cut_loop(
                chars@,
                0,
                threshold as int,
            ),
            cut_loop_end(chars@, start as int, threshold as int) == cut_loop_end(
                chars@,
                0,
                threshold as int,
            ),
        decreases total - start,
    {
        let c = compute_cut(chars, start, threshold);
        proof {
            let rest = cut_loop(chars@, c as int, threshold as int);
            assert(cut_loop(chars@, start as int, threshold as int) == seq![
                (start as int, c as int),
            ] + rest);
            assert(rview(out@.push((start, c))) =~= rview(out@).push((start as int, c as int)));
            assert(rview(out@).push((start as int, c as int)) + rest =~= rview(out@) + (seq![
                (start as int, c as int),
            ] + rest));
        }
        out.push((start, c));
        start = c;
    }
    proof {
        assert(cut_loop(chars@, start as int, threshold as int) =~= Seq::<(int, int)>::empty());
        assert(rview(out@) =~= cut_loop(chars@, 0, threshold as int));
    }
    if start < total {
        out.push((start, total));
    }
    let ghost out2 = rview(out@);
    assert(out2 =~= pre_rebalance(chars@, threshold as int));
    proof {
        lemma_pre_rebalance_cover(chars@, threshold as int);
        if out@.len() >= 2 {
            assert(out2[out2.len() - 1] == (out@[out@.len() - 1].0 as int, out@[out@.len() - 1].1 as int));
            assert(out2[out2.len() - 2] == (out@[out@.len() - 2].0 as int, out@[out@.len() - 2].1 as int));
        }
    }
    let n = out.len();
    if n >= 2 {
        let last = out[n - 1];
        let prev = out[n - 2];
        let last_len = last.1 as u128 - last.0 as u128;
        let prev_len = prev.1 as u128 - prev.0 as u128;
        if last_len * 5 < threshold as u128 && (prev_len + last_len) * 10 <= (threshold as u128)
            * 12 {
            out.pop();
            let m = out.len();
            let first = out[m - 1].0;
            out.set(m - 1, (first, total));
            assert(rview(out@) =~= rebalance(out2, threshold as int, total as int));
        }
    }
    out
}

/// Cuts `text` into character ranges: ascending, contiguous, covering the whole
/// text; a single range when the text is not longer than `threshold`.
pub fn split_ranges(text: &str, threshold: usize) -> (r: Vec<(usize, usize)>)
    ensures
        rview(r@) == split_ranges_spec(text@, threshold as int),
{
    let chars = chars_of(text);
    split_ranges_chars(chars.as_slice(), threshold)
}

/// The pieces of `text` given by `split_ranges`.
pub fn split_pieces(text: &str, threshold: usize) -> (r: Vec<String>)
    ensures
        r@.len() == split_ranges_spec(text@, threshold as int).len(),
        forall|i: int|
            0 <= i < r@.len() ==> #[trigger] r@[i]@ == text@.subrange(
                split_ranges_spec(text@, threshold as int)[i].0,
                split_ranges_spec(text@, threshold as int)[i].1,
            ),
{
    let chars = chars_of(text);
    let ranges = split_ranges_chars(chars.as_slice(), threshold);
    proof {
        lemma_split_ranges_cover(chars@, threshold as int);
    }
    let mut out: Vec<String> = Vec::new();
    let mut k: usize = 0;
    while k < ranges.len()
        invariant
            k <= ranges@.len(),
            chars@ == text@,
            rview(ranges@) == split_ranges_spec(text@, threshold as int),
            ranges_cover(rview(ranges@), text@.len() as int),
            out@.len() == k,
            forall|i: int|
                0 <= i < k ==> #[trigger] out@[i]@ == text@.subrange(
                    rview(ranges@)[i].0,
                    rview(ranges@)[i].1,
                ),
        decreases ranges@.len() - k,
    {
        let (s, e) = ranges[k];
        proof {
            assert(rview(ranges@)[k as int] == (s as int, e as int));
            lemma_range_in_bounds(rview(ranges@), text@.len() as int, k as int);
        }
        let piece = string_from_chars(slice_range(chars.as_slice(), s, e).as_slice());
        out.push(piece);
        k = k + 1;
    }
    out
}

/// The characters `s[lo..hi]`.
pub fn slice_range(s: &[char], lo: usize, hi: usize) -> (r: Vec<char>)
    requires
        lo <= hi <= s@.len(),
    ensures
        r@ == s@.subrange(lo as int, hi as int),
{
    let mut r: Vec<char> = Vec::new();
    let mut i = lo;
    while i < hi
        invariant
            lo <= i <= hi <= s@.len(),
            r@ == s@.subrange(lo as int, i as int),
        decreases hi - i,
    {
        r.push(s[i]);
        proof {
            assert(s@.subrange(lo as int, i + 1) =~= s@.subrange(lo as int, i as int).push(
                s@[i as int],
            ));
        }
        i = i + 1;
    }
    r
}

// ───────────────────────── laws ─────────────────────────

/// Ranges that start at 0, follow one another without gap or overlap, and end at
/// `total`.
pub open spec fn ranges_cover(r: Seq<(int, int)>, total: int) -> bool {
    &&& r.len() >= 1
    &&& r[0].0 == 0
    &&& r.last().1 == total
    &&& forall|i: int| 0 <= i < r.len() - 1 ==> #[trigger] r[i].1 == r[i + 1].0
    &&& forall|i: int| 0 <= i < r.len() ==> #[trigger] r[i].0 <= r[i].1
}

/// Every range holds at least one character.
pub open spec fn ranges_nonempty(r: Seq<(int, int)>) -> bool {
    forall|i: int| 0 <= i < r.len() ==> #[trigger] r[i].0 < r[i].1
}

proof fn lemma_range_in_bounds(r: Seq<(int, int)>, total: int, k: int)
    requires
        ranges_cover(r, total),
        0 <= k < r.len(),
    ensures
        0 <= r[k].0 <= r[k].1 <= total,
    decreases r.len() - k,
{
    lemma_range_lower(r, total, k);
    if k < r.len() - 1 {
        lemma_range_in_bounds(r, total, k + 1);
        assert(r[k].1 == r[k + 1].0);
    }
}

proof fn lemma_range_lower(r: Seq<(int, int)>, total: int, k: int)
    requires
        ranges_cover(r, total),
        0 <= k < r.len(),
    ensures
        0 <= r[k].0,
    decreases k,
{
    if k > 0 {
        lemma_range_lower(r, total, k - 1);
        assert(r[k - 1].1 == r[k].0);
    }
}

proof fn lemma_cut_loop_shape(c: Seq<char>, start: int, th: int)
    requires
        0 <= start <= c.len(),
    ensures
        start <= cut_loop_end(c, start, th) <= c.len(),
        cut_loop(c, start, th).len() > 0 ==> cut_loop(c, start, th)[0].0 == start,
        cut_loop(c, start, th).len() > 0 ==> cut_loop(c, start, th).last().1 == cut_loop_end(
            c,
            start,
            th,
        ),
        cut_loop(c, start, th).len() == 0 ==> cut_loop_end(c, start, th) == start,
        forall|i: int|
            0 <= i < cut_loop(c, start, th).len() - 1 ==> #[trigger] cut_loop(c, start, th)[i].1
                == cut_loop(c, start, th)[i + 1].0,
        ranges_nonempty(cut_loop(c, start, th)),
        forall|i: int|
            0 <= i < cut_loop(c, start, th).len() && cut_loop(c, start, th)[i].1 < c.len()
                ==> !spec_is_closing_glue(c[#[trigger] cut_loop(c, start, th)[i].1]),
    decreases c.len() - start,
{
    let k = cut_point(c, start, th);
    if th > 0 && c.len() - start > th && start < k <= c.len() {
        lemma_cut_loop_shape(c, k, th);
        lemma_cut_point_bounds(c, start, th);
        let rest = cut_loop(c, k, th);
        let all = cut_loop(c, start, th);
        assert(all == seq![(start, k)] + rest);
        assert forall|i: int| 0 <= i < all.len() - 1 implies #[trigger] all[i].1 == all[i
            + 1].0 by {
            if i > 0 {
                assert(all[i] == rest[i - 1]);
                assert(all[i + 1] == rest[i]);
            } else {
                assert(all[1] == rest[0]);
            }
        }
        assert forall|i: int| 0 <= i < all.len() implies #[trigger] all[i].0 < all[i].1 by {
            if i > 0 {
                assert(all[i] == rest[i - 1]);
            }
        }
        assert forall|i: int| 0 <= i < all.len() && all[i].1 < c.len() implies !spec_is_closing_glue(
            c[#[trigger] all[i].1],
        ) by {
            if i > 0 {
                assert(all[i] == rest[i - 1]);
            }
        }
        if rest.len() > 0 {
            assert(all.last() == rest.last());
        }
    }
}

proof fn lemma_pre_rebalance_cover(c: Seq<char>, th: int)
    requires
        th > 0,
        c.len() > th,
    ensures
        ranges_cover(pre_rebalance(c, th), c.len() as int),
        ranges_nonempty(pre_rebalance(c, th)),
        pre_rebalance(c, th).len() >= 1,
{
    let total = c.len() as int;
    lemma_cut_loop_shape(c, 0, th);
    let out = cut_loop(c, 0, th);
    let s = cut_loop_end(c, 0, th);
    let out2 = pre_rebalance(c, th);
    assert(out.len() > 0) by {
        lemma_cut_point_bounds(c, 0, th);
    }
    if s < total {
        assert forall|i: int| 0 <= i < out2.len() - 1 implies #[trigger] out2[i].1 == out2[i
            + 1].0 by {
            if i < out.len() - 1 {
                assert(out2[i] == out[i] && out2[i + 1] == out[i + 1]);
            }
        }
    }
    assert forall|i: int| 0 <= i < out2.len() implies #[trigger] out2[i].0 < out2[i].1 by {
        if i < out.len() {
            assert(out2[i] == out[i]);
        }
    }
}

/// The ranges of `split_ranges` start at 0, follow one another without gap or
/// overlap, cover the whole text, and (for a non-empty text) are never empty.
pub proof fn lemma_split_ranges_cover(c: Seq<char>, th: int)
    requires
        th >= 0,
    ensures
        ranges_cover(split_ranges_spec(c, th), c.len() as int),
        c.len() > 0 ==> ranges_nonempty(split_ranges_spec(c, th)),
{
    let total = c.len() as int;
    if th == 0 || total <= th {
    } else {
        lemma_pre_rebalance_cover(c, th);
        let out2 = pre_rebalance(c, th);
        let r = rebalance(out2, th, total);
        if r != out2 {
            let o = out2.drop_last();
            assert(r == o.update(o.len() - 1, (o.last().0, total)));
            assert forall|i: int| 0 <= i < r.len() - 1 implies #[trigger] r[i].1 == r[i + 1].0 by {
                assert(r[i] == out2[i]);
                if i + 1 < r.len() - 1 {
                    assert(r[i + 1] == out2[i + 1]);
                } else {
                    assert(r[i + 1].0 == out2[i + 1].0);
                }
            }
            assert forall|i: int| 0 <= i < r.len() implies #[trigger] r[i].0 < r[i].1 by {
                if i < r.len() - 1 {
                    assert(r[i] == out2[i]);
                } else {
                    assert(out2[i].0 < out2[i].1);
                    lemma_range_in_bounds(out2, total, i + 1);
                }
            }
        }
    }
}

/// No range of `split_ranges` other than the first starts with a closing quote or
/// bracket: such marks stay with the text they close.
pub proof fn lemma_split_ranges_glue(c: Seq<char>, th: int, i: int)
    requires
        th >= 0,
        0 < i < split_ranges_spec(c, th).len(),
        split_ranges_spec(c, th)[i].0 < c.len(),
    ensures
        !spec_is_closing_glue(c[split_ranges_spec(c, th)[i].0]),
{
    let total = c.len() as int;
    if th == 0 || total <= th {
    } else {
        lemma_cut_loop_shape(c, 0, th);
        lemma_pre_rebalance_cover(c, th);
        let out = cut_loop(c, 0, th);
        let out2 = pre_rebalance(c, th);
        let r = rebalance(out2, th, total);
        assert(r[i].0 == out2[i].0);
        assert(out2[i].0 == out2[i - 1].1);
        assert(out2[i - 1] == out[i - 1]);
    }
}

/// A cut at `b` falls between the two characters of an ellipsis `……`.
pub open spec fn splits_ellipsis_pair(c: Seq<char>, b: int) -> bool {
    0 < b < c.len() && c[b - 1] == '…' && c[b] == '…'
}

proof fn lemma_skip_glue_last(c: Seq<char>, i: int)
    ensures
        skip_glue(c, i) == i || (0 <= i < skip_glue(c, i) <= c.len() && spec_is_closing_glue(
            c[skip_glue(c, i) - 1],
        )),
    decreases c.len() - i,
{
    if 0 <= i < c.len() && spec_is_closing_glue(c[i]) {
        lemma_skip_glue_last(c, i + 1);
    }
}

/// A chosen cut splits an ellipsis pair only inside a run of three or more `…`.
proof fn lemma_cut_point_ellipsis(c: Seq<char>, start: int, th: int)
    ensures
        splits_ellipsis_pair(c, cut_point(c, start, th)) ==> cut_point(c, start, th) >= 2 && c[cut_point(
            c,
            start,
            th,
        ) - 2] == '…',
{
    let total = c.len() as int;
    let limit = start + th;
    let cut = match last_strong_cut(c, start, limit) {
        Some(i) => Some(i),
        None => first_secondary_cut(c, limit, min_int(limit + th, total)),
    };
    let c0 = match cut {
        Some(x) => x,
        None => limit,
    };
    let c1 = if c0 > 0 && c0 < total && c[c0 - 1] == '…' && c[c0] == '…' {
        c0 + 1
    } else {
        c0
    };
    assert(cut_point(c, start, th) == skip_glue(c, c1));
    lemma_skip_glue_last(c, c1);
}

proof fn lemma_cut_loop_ellipsis(c: Seq<char>, start: int, th: int)
    ensures
        forall|i: int|
            0 <= i < cut_loop(c, start, th).len() && splits_ellipsis_pair(
                c,
                #[trigger] cut_loop(c, start, th)[i].1,
            ) ==> cut_loop(c, start, th)[i].1 >= 2 && c[cut_loop(c, start, th)[i].1 - 2] == '…',
    decreases c.len() - start,
{
    let k = cut_point(c, start, th);
    if th > 0 && c.len() - start > th && start < k <= c.len() {
        lemma_cut_loop_ellipsis(c, k, th);
        lemma_cut_point_ellipsis(c, start, th);
        let r = cut_loop(c, start, th);
        assert(r == seq![(start, k)] + cut_loop(c, k, th));
        assert forall|i: int|
            0 <= i < r.len() && splits_ellipsis_pair(c, #[trigger] r[i].1) implies r[i].1 >= 2
            && c[r[i].1 - 2] == '…' by {
            if i > 0 {
                assert(r[i] == cut_loop(c, k, th)[i - 1]);
            }
        }
    }
}

/// No cut of `split_ranges` falls between the two characters of an ellipsis `……`
/// except inside a run of three or more `…` (moving the cut one character on, as
/// the splitter does, cannot get out of such a run).
pub proof fn lemma_split_ranges_ellipsis(c: Seq<char>, th: int, i: int)
    requires
        th >= 0,
        0 < i < split_ranges_spec(c, th).len(),
    ensures
        splits_ellipsis_pair(c, split_ranges_spec(c, th)[i].0) ==> split_ranges_spec(c, th)[i].0
            >= 2 && c[split_ranges_spec(c, th)[i].0 - 2] == '…',
{
    let total = c.len() as int;
    if th == 0 || total <= th {
    } else {
        lemma_cut_loop_shape(c, 0, th);
        lemma_pre_rebalance_cover(c, th);
        lemma_cut_loop_ellipsis(c, 0, th);
        let out = cut_loop(c, 0, th);
        let out2 = pre_rebalance(c, th);
        let r = rebalance(out2, th, total);
        assert(r[i].0 == out2[i].0);
        assert(out2[i].0 == out2[i - 1].1);
        assert(out2[i - 1] == out[i - 1]);
    }
}

} // verus!
