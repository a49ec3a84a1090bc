//! Why restoring the tag placeholders gives the original text back.
//!
//! Protection replaces the `k`-th tag with `__HTML_PH_k__`; restoration replaces
//! each placeholder, in order, with its tag. When the text itself never contains
//! `HTML_PH_`, every occurrence of a placeholder in the protected text is the one
//! that protection put there, so each restoring step undoes exactly one
//! replacement.
use vstd::prelude::*;
use crate::content_preprocessor::{decimal, placeholder, html_prefix, gap, interleave_placeholders, restored};
use crate::pattern::woven;
use crate::text::replaced;

verus! {

// ───────────────────────── characters ─────────────────────────

pub open spec fn is_digit(c: char) -> bool {
    '0' <= c && c <= '9'
}

/// The marker inside every placeholder: `HTML_PH_`.
pub open spec fn tag_marker() -> Seq<char> {
    seq!['H', 'T', 'M', 'L', '_', 'P', 'H', '_']
}

/// `t` occurs nowhere in `s`.
pub open spec fn no_infix(s: Seq<char>, t: Seq<char>) -> bool {
    forall|i: int|
        #![trigger s.subrange(i, i + t.len())]
        0 <= i && i + t.len() <= s.len() ==> s.subrange(i, i + t.len()) != t
}

/// The `k`-th tag placeholder, `__HTML_PH_k__`.
pub open spec fn ph(k: nat) -> Seq<char> {
    placeholder(html_prefix(), k)
}

proof fn lemma_no_infix_at(s: Seq<char>, t: Seq<char>, i: int)
    requires
        no_infix(s, t),
        0 <= i,
        i + t.len() <= s.len(),
    ensures
        s.subrange(i, i + t.len()) != t,
{
}

/// Text without `t` stays without it when cut in two.
proof fn lemma_no_infix_concat(x: Seq<char>, y: Seq<char>, t: Seq<char>)
    requires
        no_infix(x + y, t),
    ensures
        no_infix(x, t),
        no_infix(y, t),
{
    assert forall|i: int| 0 <= i && i + t.len() <= x.len() implies #[trigger] x.subrange(
        i,
        i + t.len(),
    ) != t by {
        assert(x.subrange(i, i + t.len()) =~= (x + y).subrange(i, i + t.len()));
        lemma_no_infix_at(x + y, t, i);
    }
    assert forall|i: int| 0 <= i && i + t.len() <= y.len() implies #[trigger] y.subrange(
        i,
        i + t.len(),
    ) != t by {
        assert(y.subrange(i, i + t.len()) =~= (x + y).subrange(x.len() + i, x.len() + i + t.len()));
        lemma_no_infix_at(x + y, t, x.len() + i);
    }
}

proof fn lemma_marker_chars()
    ensures
        tag_marker().len() == 8,
        tag_marker()[0] == 'H',
        tag_marker()[1] == 'T',
        tag_marker()[2] == 'M',
        tag_marker()[3] == 'L',
        tag_marker()[4] == '_',
        tag_marker()[5] == 'P',
        tag_marker()[6] == 'H',
        tag_marker()[7] == '_',
{
}

proof fn lemma_digit_char(x: nat)
    requires
        x < 10,
    ensures
        ((((x + 48) as u8) as char) as u32) == x + 48,
{
}

proof fn lemma_decimal_digits(n: nat)
    ensures
        decimal(n).len() >= 1,
        forall|i: int| 0 <= i < decimal(n).len() ==> is_digit(#[trigger] decimal(n)[i]),
    decreases n,
{
    if n >= 10 {
        lemma_decimal_digits(n / 10);
        let d = (((n % 10) + 48) as u8) as char;
        assert(is_digit(d));
        assert forall|i: int| 0 <= i < decimal(n).len() implies is_digit(#[trigger] decimal(n)[i]) by {
            if i < decimal(n / 10).len() {
                assert(decimal(n)[i] == decimal(n / 10)[i]);
            }
        }
    } else {
        let d = ((n + 48) as u8) as char;
        assert(is_digit(d));
    }
}

/// Different numbers have different decimal digits.
proof fn lemma_decimal_injective(a: nat, b: nat)
    requires
        decimal(a) == decimal(b),
    ensures
        a == b,
    decreases a,
{
    lemma_decimal_digits(a);
    lemma_decimal_digits(b);
    if a < 10 && b < 10 {
        assert(decimal(a)[0] == decimal(b)[0]);
        assert(decimal(a)[0] == ((a + 48) as u8) as char);
        assert(decimal(b)[0] == ((b + 48) as u8) as char);
        lemma_digit_char(a);
        lemma_digit_char(b);
    } else if a < 10 {
        lemma_decimal_digits(b / 10);
        assert(decimal(b).len() >= 2);
    } else if b < 10 {
        lemma_decimal_digits(a / 10);
        assert(decimal(a).len() >= 2);
    } else {
        assert(decimal(a).drop_last() =~= decimal(a / 10));
        assert(decimal(b).drop_last() =~= decimal(b / 10));
        lemma_decimal_injective(a / 10, b / 10);
        assert(decimal(a).last() == decimal(b).last());
        assert(decimal(a).last() == (((a % 10) + 48) as u8) as char);
        assert(decimal(b).last() == (((b % 10) + 48) as u8) as char);
        lemma_digit_char(a % 10);
        lemma_digit_char(b % 10);
        assert(a == 10 * (a / 10) + a % 10);
        assert(b == 10 * (b / 10) + b % 10);
    }
}

/// The characters of a placeholder: `__`, the marker, the digits, `__`.
proof fn lemma_ph_shape(k: nat)
    ensures
        ph(k).len() == 12 + decimal(k).len(),
        ph(k).len() >= 13,
        ph(k)[0] == '_',
        ph(k)[1] == '_',
        forall|t: int| 2 <= t < 10 ==> #[trigger] ph(k)[t] == tag_marker()[t - 2],
        forall|t: int|
            10 <= t < 10 + decimal(k).len() ==> is_digit(#[trigger] ph(k)[t]) && ph(k)[t]
                == decimal(k)[t - 10],
        ph(k)[10 + decimal(k).len() as int] == '_',
        ph(k)[11 + decimal(k).len() as int] == '_',
{
    lemma_decimal_digits(k);
    lemma_marker_chars();
    let d = decimal(k);
    assert(ph(k) == html_prefix() + d + seq!['_', '_']);
    assert forall|t: int| 10 <= t < 10 + d.len() implies is_digit(#[trigger] ph(k)[t]) && ph(k)[t]
        == d[t - 10] by {
        assert(ph(k)[t] == d[t - 10]);
    }
}

// ───────────────────────── where the marker can be ─────────────────────────

/// The ends of a placeholder are underscores.
proof fn lemma_ph_ends(k: nat)
    ensures
        ph(k).len() >= 13,
        ph(k)[0] == '_',
        ph(k)[1] == '_',
        ph(k)[ph(k).len() - 2] == '_',
        ph(k)[ph(k).len() - 1] == '_',
{
    lemma_decimal_digits(k);
    assert(ph(k) == html_prefix() + decimal(k) + seq!['_', '_']);
}

/// The marker cannot start at or just after a marker-free text followed by a
/// placeholder, except seven characters before the placeholder (the text ending in
/// `HTML_PH`, the placeholder giving the last `_`).
proof fn lemma_marker_near_placeholder(a: Seq<char>, j: nat, rest: Seq<char>, q: int)
    requires
        no_infix(a, tag_marker()),
        0 <= q <= a.len() + 1,
        q + 8 <= (a + ph(j) + rest).len(),
        (a + ph(j) + rest).subrange(q, q + 8) == tag_marker(),
    ensures
        q == a.len() - 7,
{
    let t = a + ph(j) + rest;
    let w = t.subrange(q, q + 8);
    lemma_ph_ends(j);
    lemma_marker_chars();
    if q + 8 <= a.len() {
        assert(a.subrange(q, q + 8) =~= w);
        lemma_no_infix_at(a, tag_marker(), q);
    } else if q >= a.len() {
        assert(w[0] == t[q]);
        assert(t[q] == ph(j)[q - a.len()]);
    } else {
        let d = a.len() - q;
        assert(w[d] == t[a.len() as int]);
        assert(t[a.len() as int] == ph(j)[0]);
        assert(d == 1 || d == 2 || d == 3 || d == 4 || d == 5 || d == 6 || d == 7);
        if d == 4 {
            assert(w[5] == t[a.len() + 1int]);
            assert(t[a.len() + 1int] == ph(j)[1]);
        }
    }
}

/// A placeholder cannot start inside a marker-free text that a placeholder follows.
proof fn lemma_no_start_in_text(a: Seq<char>, j: nat, rest: Seq<char>, k: nat, i: int)
    requires
        no_infix(a, tag_marker()),
        0 <= i < a.len(),
        i + ph(k).len() <= (a + ph(j) + rest).len(),
    ensures
        (a + ph(j) + rest).subrange(i, i + ph(k).len()) != ph(k),
{
    let t = a + ph(j) + rest;
    lemma_ph_shape(k);
    lemma_ph_shape(j);
    lemma_marker_chars();
    if t.subrange(i, i + ph(k).len()) == ph(k) {
        assert forall|u: int| 0 <= u < ph(k).len() implies t[i + u] == #[trigger] ph(k)[u] by {
            assert(t.subrange(i, i + ph(k).len())[u] == t[i + u]);
        }
        assert(t.subrange(i + 2, i + 10) =~= tag_marker()) by {
            assert forall|u: int| 0 <= u < 8 implies t.subrange(i + 2, i + 10)[u]
                == tag_marker()[u] by {
                assert(ph(k)[2 + u] == tag_marker()[u]);
                assert(t[i + (2 + u)] == ph(k)[2 + u]);
            }
        }
        lemma_marker_near_placeholder(a, j, rest, i + 2);
        assert(t[i + 10] == ph(k)[10]);
        assert(t[i + 10] == ph(j)[1]);
        assert(is_digit(ph(k)[10]));
    }
}

/// The placeholders and gaps from gap `j` on: `gaps[j] ph(j) ... ph(n-1) gaps[n]`.
pub open spec fn ph_tail(g: Seq<Seq<char>>, j: int, n: int) -> Seq<char>
    decreases n - j,
{
    if j >= n {
        gap(g, n)
    } else {
        gap(g, j) + ph(j as nat) + ph_tail(g, j + 1, n)
    }
}

/// A placeholder occurrence inside a marker-free text is impossible.
proof fn lemma_no_ph_in_plain(s: Seq<char>, k: nat)
    requires
        no_infix(s, tag_marker()),
    ensures
        no_infix(s, ph(k)),
{
    lemma_ph_shape(k);
    assert forall|i: int| 0 <= i && i + ph(k).len() <= s.len() implies #[trigger] s.subrange(
        i,
        i + ph(k).len(),
    ) != ph(k) by {
        if s.subrange(i, i + ph(k).len()) == ph(k) {
            assert(s.subrange(i + 2, i + 10) =~= tag_marker()) by {
                assert forall|u: int| 0 <= u < 8 implies s.subrange(i + 2, i + 10)[u]
                    == tag_marker()[u] by {
                    assert(s.subrange(i, i + ph(k).len())[2 + u] == s[i + 2 + u]);
                    assert(ph(k)[2 + u] == tag_marker()[u]);
                }
            }
            lemma_no_infix_at(s, tag_marker(), i + 2);
        }
    }
}

/// A placeholder `k` cannot start inside placeholder `j` (for `k < j`).
#[verifier::spinoff_prover]
#[verifier::rlimit(40)]
proof fn lemma_no_start_in_placeholder(g: Seq<Seq<char>>, j: int, n: int, k: nat, i: int)
    requires
        0 <= k < j < n,
        forall|t: int| j <= t <= n ==> no_infix(#[trigger] gap(g, t), tag_marker()),
        gap(g, j).len() <= i < gap(g, j).len() + ph(j as nat).len(),
        i + ph(k).len() <= ph_tail(g, j, n).len(),
    ensures
        ph_tail(g, j, n).subrange(i, i + ph(k).len()) != ph(k),
{
    let a = gap(g, j);
    let pj = ph(j as nat);
    let z = ph_tail(g, j + 1, n);
    let t = a + pj + z;
    assert(ph_tail(g, j, n) == t);
    lemma_ph_shape(k);
    lemma_ph_shape(j as nat);
    lemma_marker_chars();
    if t.subrange(i, i + ph(k).len()) == ph(k) {
        assert forall|u: int| 0 <= u < ph(k).len() implies t[i + u] == #[trigger] ph(k)[u] by {
            assert(t.subrange(i, i + ph(k).len())[u] == t[i + u]);
        }
        let o = i - a.len();
        assert forall|u: int| 0 <= u < pj.len() implies t[a.len() + u] == #[trigger] pj[u] by {}
        if o == 0 {
            let lk = decimal(k).len() as int;
            let lj = decimal(j as nat).len() as int;
            if lk < lj {
                assert(t[i + (10 + lk)] == ph(k)[10 + lk]);
                assert(t[a.len() + (10 + lk)] == pj[10 + lk]);
                assert(is_digit(pj[10 + lk]));
            } else if lk > lj {
                assert(t[i + (10 + lj)] == ph(k)[10 + lj]);
                assert(t[a.len() + (10 + lj)] == pj[10 + lj]);
                assert(is_digit(ph(k)[10 + lj]));
            } else {
                assert(decimal(k) =~= decimal(j as nat)) by {
                    assert forall|u: int| 0 <= u < lk implies decimal(k)[u] == decimal(
                        j as nat,
                    )[u] by {
                        assert(ph(k)[10 + u] == decimal(k)[u]);
                        assert(pj[10 + u] == decimal(j as nat)[u]);
                        assert(t[i + (10 + u)] == ph(k)[10 + u]);
                        assert(t[a.len() + (10 + u)] == pj[10 + u]);
                    }
                }
                lemma_decimal_injective(k, j as nat);
            }
        } else if o == 1 {
            assert(t[i + 1] == ph(k)[1]);
            assert(t[a.len() + 2int] == pj[2]);
        } else {
            let q = i + 2;
            assert forall|u: int| 0 <= u < 8 implies t[q + u] == #[trigger] tag_marker()[u] by {
                assert(t[i + (2 + u)] == ph(k)[2 + u]);
            }
            let end = a.len() + pj.len();
            if q + 8 <= end {
                // the marker would lie inside placeholder j, past its own marker
                let r = o + 2;
                assert(t[a.len() + r] == pj[r]);
                assert(t[a.len() + r + 1] == pj[r + 1]);
                assert(tag_marker()[0] == t[q + 0]);
                assert(tag_marker()[1] == t[q + 1]);
                if r < 10 {
                    assert(pj[r] == tag_marker()[r - 2]);
                    if r == 8 {
                        assert(pj[9] == tag_marker()[7]);
                    }
                } else if r < 10 + decimal(j as nat).len() {
                    assert(is_digit(pj[r]));
                }
            } else if q < end {
                // the marker would straddle the end of placeholder j
                let d = end - q;
                assert(t[end - 1] == pj[pj.len() - 1]);
                assert(tag_marker()[d - 1] == t[q + (d - 1)]);
                if d == 5 {
                    assert(t[end - 2] == pj[pj.len() - 2]);
                    assert(tag_marker()[3] == t[q + 3]);
                }
            } else {
                // the marker would start in what follows placeholder j
                let e = q - end;
                assert forall|u: int| 0 <= u < z.len() implies t[end + u] == #[trigger] z[u] by {}
                if j + 1 >= n {
                    assert(z == gap(g, n));
                    assert(z.subrange(e, e + 8) =~= tag_marker()) by {
                        assert forall|u: int| 0 <= u < 8 implies z.subrange(e, e + 8)[u]
                            == tag_marker()[u] by {
                            assert(t[end + (e + u)] == z[e + u]);
                            assert(t[q + u] == tag_marker()[u]);
                        }
                    }
                    lemma_no_infix_at(z, tag_marker(), e);
                } else {
                    let a2 = gap(g, j + 1);
                    let rest2 = ph_tail(g, j + 2, n);
                    assert(z == a2 + ph((j + 1) as nat) + rest2);
                    lemma_ph_shape((j + 1) as nat);
                    assert(z.subrange(e, e + 8) =~= tag_marker()) by {
                        assert forall|u: int| 0 <= u < 8 implies z.subrange(e, e + 8)[u]
                            == tag_marker()[u] by {
                            assert(t[end + (e + u)] == z[e + u]);
                            assert(t[q + u] == tag_marker()[u]);
                        }
                    }
                    lemma_marker_near_placeholder(a2, (j + 1) as nat, rest2, e);
                    assert(t[i + 10] == ph(k)[10]);
                    assert(t[end + (a2.len() + 1int)] == z[a2.len() + 1int]);
                    assert(z[a2.len() + 1int] == ph((j + 1) as nat)[1]);
                    assert(is_digit(ph(k)[10]));
                }
            }
        }
    }
}

/// No placeholder `k` occurs in the tail of placeholders after `k`.
proof fn lemma_tail_free(g: Seq<Seq<char>>, j: int, n: int, k: nat)
    requires
        0 <= k < j <= n,
        forall|t: int| j <= t <= n ==> no_infix(#[trigger] gap(g, t), tag_marker()),
    ensures
        no_infix(ph_tail(g, j, n), ph(k)),
    decreases n - j,
{
    if j >= n {
        assert(no_infix(gap(g, n), tag_marker()));
        lemma_no_ph_in_plain(gap(g, n), k);
    } else {
        lemma_tail_free(g, j + 1, n, k);
        let a = gap(g, j);
        let pj = ph(j as nat);
        let z = ph_tail(g, j + 1, n);
        let t = a + pj + z;
        assert(ph_tail(g, j, n) == t);
        assert(no_infix(a, tag_marker()));
        assert forall|i: int| 0 <= i && i + ph(k).len() <= t.len() implies #[trigger] t.subrange(
            i,
            i + ph(k).len(),
        ) != ph(k) by {
            if i < a.len() {
                lemma_no_start_in_text(a, j as nat, z, k, i);
            } else if i >= a.len() + pj.len() {
                let off = a.len() + pj.len();
                assert(t.subrange(i, i + ph(k).len()) =~= z.subrange(i - off, i - off + ph(k).len()));
                lemma_no_infix_at(z, ph(k), i - off);
            } else {
                lemma_no_start_in_placeholder(g, j, n, k, i);
            }
        }
    }
}

// ───────────────────────── str::replace facts ─────────────────────────

/// Replacing a pattern that does not occur changes nothing.
proof fn lemma_replaced_absent(s: Seq<char>, p: Seq<char>, r: Seq<char>)
    requires
        p.len() > 0,
        no_infix(s, p),
    ensures
        replaced(s, p, r) == s,
    decreases s.len(),
{
    if s.len() >= p.len() {
        assert(s.take(p.len() as int) == s.subrange(0, p.len() as int));
        lemma_no_infix_at(s, p, 0);
        assert forall|i: int| 0 <= i && i + p.len() <= s.drop_first().len() implies #[trigger] s.drop_first().subrange(
            i,
            i + p.len(),
        ) != p by {
            assert(s.drop_first().subrange(i, i + p.len()) =~= s.subrange(i + 1, i + 1 + p.len()));
            lemma_no_infix_at(s, p, i + 1);
        }
        lemma_replaced_absent(s.drop_first(), p, r);
        assert(seq![s[0]] + s.drop_first() =~= s);
    }
}

/// When the first occurrence of `p` is the one after `a`, replacing keeps `a`.
proof fn lemma_replaced_first(a: Seq<char>, p: Seq<char>, b: Seq<char>, r: Seq<char>)
    requires
        p.len() > 0,
        forall|i: int|
            0 <= i < a.len() ==> #[trigger] (a + p + b).subrange(i, i + p.len()) != p,
    ensures
        replaced(a + p + b, p, r) == a + r + replaced(b, p, r),
    decreases a.len(),
{
    let s = a + p + b;
    if a.len() == 0 {
        assert(s =~= p + b);
        assert(s.take(p.len() as int) =~= p);
        assert(s.skip(p.len() as int) =~= b);
        assert(a + r + replaced(b, p, r) =~= r + replaced(b, p, r));
    } else {
        assert(s.take(p.len() as int) == s.subrange(0, p.len() as int));
        assert(s.subrange(0, 0 + p.len() as int) != p);
        let a2 = a.drop_first();
        assert(s.drop_first() =~= a2 + p + b);
        assert forall|i: int| 0 <= i < a2.len() implies #[trigger] (a2 + p + b).subrange(
            i,
            i + p.len(),
        ) != p by {
            assert((a2 + p + b).subrange(i, i + p.len()) =~= s.subrange(i + 1, i + 1 + p.len()));
            assert(s.subrange(i + 1, (i + 1) + p.len()) != p);
        }
        lemma_replaced_first(a2, p, b, r);
        assert(seq![s[0]] + (a2 + r + replaced(b, p, r)) =~= a + r + replaced(b, p, r));
    }
}

// ───────────────────────── the round trip ─────────────────────────

/// The text before gap `k` is restored: `gaps[0] m[0] ... m[k-1] gaps[k]`.
pub open spec fn content_prefix(g: Seq<Seq<char>>, m: Seq<Seq<char>>, k: int) -> Seq<char> {
    woven(g.take(k + 1), m.take(k))
}

/// The text after restoring the first `k` placeholders.
pub open spec fn restored_upto(g: Seq<Seq<char>>, m: Seq<Seq<char>>, k: int) -> Seq<char> {
    if k < m.len() {
        content_prefix(g, m, k) + ph(k as nat) + ph_tail(g, k + 1, m.len() as int)
    } else {
        content_prefix(g, m, m.len() as int)
    }
}

proof fn lemma_prefix_step(g: Seq<Seq<char>>, m: Seq<Seq<char>>, k: int)
    requires
        g.len() == m.len() + 1,
        0 <= k < m.len(),
    ensures
        content_prefix(g, m, k + 1) == content_prefix(g, m, k) + m[k] + g[k + 1],
{
    assert(g.take(k + 2).drop_last() =~= g.take(k + 1));
    assert(m.take(k + 1).drop_last() =~= m.take(k));
    assert(m.take(k + 1).len() > 0);
}

/// Every restored prefix, and every gap, is free of the marker.
proof fn lemma_pieces_plain(g: Seq<Seq<char>>, m: Seq<Seq<char>>, k: int)
    requires
        g.len() == m.len() + 1,
        0 <= k <= m.len(),
        no_infix(woven(g, m), tag_marker()),
    ensures
        no_infix(content_prefix(g, m, k), tag_marker()),
        no_infix(gap(g, k), tag_marker()),
    decreases m.len() - k,
{
    if k == m.len() {
        assert(g.take(k + 1) =~= g);
        assert(m.take(k) =~= m);
    } else {
        lemma_pieces_plain(g, m, k + 1);
        lemma_prefix_step(g, m, k);
        lemma_no_infix_concat(content_prefix(g, m, k) + m[k], g[k + 1], tag_marker());
        lemma_no_infix_concat(content_prefix(g, m, k), m[k], tag_marker());
    }
    if k == 0 {
        assert(content_prefix(g, m, 0) == g[0]);
    } else {
        lemma_prefix_step(g, m, k - 1);
        lemma_no_infix_concat(content_prefix(g, m, k - 1) + m[k - 1], g[k], tag_marker());
    }
}

/// The protected text with none of its placeholders restored.
proof fn lemma_protected_is_tail(g: Seq<Seq<char>>, n: int, k: int)
    requires
        0 <= k <= n,
    ensures
        interleave_placeholders(html_prefix(), g, k as nat) + (if k < n {
            ph(k as nat) + ph_tail(g, k + 1, n)
        } else {
            Seq::<char>::empty()
        }) == ph_tail(g, 0, n),
    decreases k,
{
    if k > 0 {
        lemma_protected_is_tail(g, n, k - 1);
        assert(ph_tail(g, k, n) == gap(g, k) + (if k < n {
            ph(k as nat) + ph_tail(g, k + 1, n)
        } else {
            Seq::<char>::empty()
        }));
        assert(interleave_placeholders(html_prefix(), g, k as nat) == interleave_placeholders(
            html_prefix(),
            g,
            (k - 1) as nat,
        ) + ph((k - 1) as nat) + gap(g, k));
        assert(interleave_placeholders(html_prefix(), g, k as nat) + (if k < n {
            ph(k as nat) + ph_tail(g, k + 1, n)
        } else {
            Seq::<char>::empty()
        }) =~= interleave_placeholders(html_prefix(), g, (k - 1) as nat) + (ph((k - 1) as nat)
            + ph_tail(g, k, n)));
    } else {
        assert(ph_tail(g, 0, n) =~= gap(g, 0) + (if 0 < n {
            ph(0) + ph_tail(g, 1, n)
        } else {
            Seq::<char>::empty()
        }));
    }
}

/// The placeholder map of the round trip: placeholder `k` stands for match `k`.
pub open spec fn ph_map(m: Seq<Seq<char>>) -> Seq<(Seq<char>, Seq<char>)> {
    Seq::new(m.len(), |k: int| (ph(k as nat), m[k]))
}

proof fn lemma_restore_upto(g: Seq<Seq<char>>, m: Seq<Seq<char>>, k: int)
    requires
        g.len() == m.len() + 1,
        0 <= k <= m.len(),
        no_infix(woven(g, m), tag_marker()),
    ensures
        restored(interleave_placeholders(html_prefix(), g, m.len()), ph_map(m).take(k))
            == restored_upto(g, m, k),
    decreases k,
{
    let n = m.len() as int;
    if k == 0 {
        lemma_protected_is_tail(g, n, n);
        assert(ph_map(m).take(0) =~= Seq::<(Seq<char>, Seq<char>)>::empty());
        assert(content_prefix(g, m, 0) == g[0]);
        assert(g[0] == gap(g, 0));
        if n > 0 {
            assert(ph_tail(g, 0, n) == gap(g, 0) + ph(0) + ph_tail(g, 1, n));
        } else {
            assert(ph_tail(g, 0, n) == gap(g, 0));
        }
    } else {
        let i = k - 1;
        lemma_restore_upto(g, m, i);
        assert(ph_map(m).take(k).drop_last() =~= ph_map(m).take(i));
        assert(ph_map(m).take(k).last() == (ph(i as nat), m[i]));
        let a = content_prefix(g, m, i);
        let p = ph(i as nat);
        let b = ph_tail(g, i + 1, n);
        lemma_pieces_plain(g, m, i);
        lemma_ph_shape(i as nat);
        assert forall|x: int| 0 <= x < a.len() implies #[trigger] (a + p + b).subrange(x, x + p.len())
            != p by {
            if x + p.len() <= (a + p + b).len() {
                lemma_no_start_in_text(a, i as nat, b, i as nat, x);
            }
        }
        lemma_replaced_first(a, p, b, m[i]);
        assert forall|t: int| i + 1 <= t <= n implies no_infix(#[trigger] gap(g, t), tag_marker()) by {
            lemma_pieces_plain(g, m, t);
        }
        lemma_tail_free(g, i + 1, n, i as nat);
        lemma_replaced_absent(b, p, m[i]);
        lemma_prefix_step(g, m, i);
        if k < n {
            assert(b == gap(g, k) + ph(k as nat) + ph_tail(g, k + 1, n));
            assert(gap(g, k) == g[k]);
            assert(a + m[i] + b =~= content_prefix(g, m, k) + ph(k as nat) + ph_tail(g, k + 1, n));
        } else {
            assert(b == gap(g, n));
            assert(gap(g, n) == g[k]);
        }
    }
}

/// Restoring the placeholders of a protected text gives the text back, when the
/// text never contains `HTML_PH_`: `gaps` and `matches` are the pieces of the text
/// between and at the tags.
pub proof fn lemma_tag_round_trip(g: Seq<Seq<char>>, m: Seq<Seq<char>>)
    requires
        g.len() == m.len() + 1,
        no_infix(woven(g, m), tag_marker()),
    ensures
        restored(interleave_placeholders(html_prefix(), g, m.len()), ph_map(m)) == woven(g, m),
{
    lemma_restore_upto(g, m, m.len() as int);
    assert(ph_map(m).take(m.len() as int) =~= ph_map(m));
    assert(g.take(m.len() + 1int) =~= g);
    assert(m.take(m.len() as int) =~= m);
}

} // verus!
