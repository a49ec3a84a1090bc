//! Chapter titles: chapter numbers (Arabic or Chinese numerals) and the pure
//! chapter name without its numbering and bracketed notes.
use vstd::prelude::*;
use crate::text::{chars_of, string_from_chars, is_ws, is_whitespace};
use crate::pattern::{CompiledPattern, regex_valid, regex_group1, regex_replace_first, regex_replace_all};

verus! {

// ───────────────────────── full width → half width ─────────────────────────

/// Ideographic space becomes a space; full-width ASCII (U+FF01..U+FF5E) becomes ASCII.
pub open spec fn half_width_char(c: char) -> char {
    if c as u32 == 0x3000 {
        ' '
    } else if 0xFF01 <= c as u32 && c as u32 <= 0xFF5E {
        ((c as u32) - 0xFEE0) as char
    } else {
        c
    }
}

pub open spec fn half_width(s: Seq<char>) -> Seq<char> {
    s.map_values(|c: char| half_width_char(c))
}

fn half_width_one(c: char) -> (r: char)
    ensures
        r == half_width_char(c),
{
    let code = c as u32;
    if code == 0x3000 {
        ' '
    } else if 0xFF01 <= code && code <= 0xFF5E {
        let b = (code - 0xFEE0) as u8;
        b as char
    } else {
        c
    }
}

fn half_width_chars(s: &[char]) -> (r: Vec<char>)
    ensures
        r@ == half_width(s@),
{
    let mut r: Vec<char> = Vec::new();
    let mut i: usize = 0;
    while i < s.len()
        invariant
            i <= s@.len(),
            r@ == half_width(s@.take(i as int)),
        decreases s@.len() - i,
    {
        r.push(half_width_one(s[i]));
        proof {
            assert(half_width(s@.take(i + 1)) =~= half_width(s@.take(i as int)).push(
                half_width_char(s@[i as int]),
            ));
        }
        i = i + 1;
    }
    proof {
        assert(s@.take(s@.len() as int) =~= s@);
    }
    r
}

/// Full-width characters converted to half width.
pub fn full_to_half(s: &str) -> (r: String)
    ensures
        r@ == half_width(s@),
{
    let v = half_width_chars(chars_of(s).as_slice());
    string_from_chars(v.as_slice())
}

// ───────────────────────── whitespace removal ─────────────────────────

/// `s` without its whitespace characters.
pub open spec fn without_ws(s: Seq<char>) -> Seq<char>
    decreases s.len(),
{
    if s.len() == 0 {
        s
    } else if is_ws(s.last()) {
        without_ws(s.drop_last())
    } else {
        without_ws(s.drop_last()).push(s.last())
    }
}

fn remove_whitespace(s: &[char]) -> (r: Vec<char>)
    ensures
        r@ == without_ws(s@),
{
    let mut r: Vec<char> = Vec::new();
    let mut i: usize = 0;
    while i < s.len()
        invariant
            i <= s@.len(),
            r@ == without_ws(s@.take(i as int)),
        decreases s@.len() - i,
    {
        proof {
            assert(s@.take(i + 1).drop_last() =~= s@.take(i as int));
        }
        if !is_whitespace(s[i]) {
            r.push(s[i]);
        }
        i = i + 1;
    }
    proof {
        assert(s@.take(s@.len() as int) =~= s@);
    }
    r
}

// ───────────────────────── numbers ─────────────────────────

pub open spec fn is_ascii_digit(c: char) -> bool {
    '0' <= c && c <= '9'
}

/// Value of a string of decimal digits.
pub open spec fn digits_value(s: Seq<char>) -> int
    decreases s.len(),
{
    if s.len() == 0 {
        0
    } else {
        10 * digits_value(s.drop_last()) + (s.last() as int - '0' as int)
    }
}

/// The text after a leading `+` or `-`, if any.
pub open spec fn unsigned_part(s: Seq<char>) -> Seq<char> {
    if s.len() > 0 && (s[0] == '-' || s[0] == '+') {
        s.drop_first()
    } else {
        s
    }
}

/// What `str::parse::<i32>` accepts: an optional `+` or `-`, then one or more
/// ASCII digits, with a value in range.
pub open spec fn parse_i32_spec(s: Seq<char>) -> Option<i32> {
    let body = unsigned_part(s);
    let v = if s.len() > 0 && s[0] == '-' { -digits_value(body) } else { digits_value(body) };
    if body.len() > 0 && (forall|i: int| 0 <= i < body.len() ==> is_ascii_digit(#[trigger] body[i]))
        && i32::MIN <= v && v <= i32::MAX {
        Some(v as i32)
    } else {
        None
    }
}

proof fn lemma_digits_value_prefix(s: Seq<char>, k: int)
    requires
        0 <= k <= s.len(),
        forall|i: int| 0 <= i < s.len() ==> is_ascii_digit(#[trigger] s[i]),
    ensures
        0 <= digits_value(s.take(k)) <= digits_value(s),
    decreases s.len(),
{
    if k == s.len() {
        assert(s.take(k) =~= s);
        if s.len() > 0 {
            lemma_digits_value_prefix(s.drop_last(), k - 1);
            assert(s.drop_last().take(k - 1) =~= s.drop_last());
        }
    } else {
        let t = s.drop_last();
        assert forall|i: int| 0 <= i < t.len() implies is_ascii_digit(#[trigger] t[i]) by {
            assert(t[i] == s[i]);
        }
        lemma_digits_value_prefix(t, k);
        assert(t.take(k) =~= s.take(k));
        assert(is_ascii_digit(s[s.len() - 1]));
    }
}

/// `str::parse::<i32>`, the error dropped: an optional `+` or `-` sign followed
/// by digits only; anything else, or a value out of range, gives `None`.
fn parse_i32(s: &str) -> (r: Option<i32>)
    ensures
        r == parse_i32_spec(s@),
{
    let v = chars_of(s);
    let n = v.len();
    let neg = n > 0 && v[0] == '-';
    let start: usize = if n > 0 && (v[0] == '-' || v[0] == '+') { 1 } else { 0 };
    let ghost body = unsigned_part(s@);
    assert(v@ == s@);
    assert(neg == (s@.len() > 0 && s@[0] == '-'));
    if start >= n {
        return None;
    }
    let mut acc: i64 = 0;
    let mut big = false;
    let mut i: usize = start;
    while i < n
        invariant
            start <= i <= n == v@.len() == s@.len(),
            body == unsigned_part(s@),
            body.len() == n - start,
            forall|j: int| 0 <= j < body.len() ==> body[j] == v@[start + j],
            forall|j: int| 0 <= j < i - start ==> is_ascii_digit(#[trigger] body[j]),
            !big ==> 0 <= acc <= 2147483648 && acc == digits_value(body.take(i - start)),
            big ==> digits_value(body.take(i - start)) > 2147483648,
        decreases n - i,
    {
        let c = v[i];
        assert(body[i - start] == c);
        if !('0' <= c && c <= '9') {
            assert(!is_ascii_digit(body[i - start]));
            return None;
        }
        proof {
            let k = i - start;
            assert(body.take(k + 1).drop_last() =~= body.take(k));
            assert(body.take(k + 1).last() == c);
            if big {
                assert forall|j: int| 0 <= j < body.take(k).len() implies is_ascii_digit(
                    #[trigger] body.take(k)[j],
                ) by {
                    assert(body.take(k)[j] == body[j]);
                }
                assert(digits_value(body.take(k + 1)) == 10 * digits_value(body.take(k)) + (c as int
                    - '0' as int));
            }
        }
        if !big {
            let d = (c as u32 - '0' as u32) as i64;
            let nv = acc * 10 + d;
            if nv > 2147483648 {
                big = true;
            } else {
                acc = nv;
            }
        }
        i = i + 1;
    }
    proof {
        assert(body.take(n - start) =~= body);
        if big {
            lemma_digits_value_prefix(body, body.len() as int);
        }
    }
    if big {
        return None;
    }
    if neg {
        Some((-acc) as i32)
    } else if acc > 2147483647 {
        None
    } else {
        Some(acc as i32)
    }
}

/// Digit value of a Chinese numeral character (一..九 and their financial forms), else 0.
pub open spec fn cn_digit(c: char) -> i32 {
    if c == '一' || c == '壹' {
        1
    } else if c == '二' || c == '两' || c == '贰' {
        2
    } else if c == '三' || c == '叁' {
        3
    } else if c == '四' || c == '肆' {
        4
    } else if c == '五' || c == '伍' {
        5
    } else if c == '六' || c == '陆' {
        6
    } else if c == '七' || c == '柒' {
        7
    } else if c == '八' || c == '捌' {
        8
    } else if c == '九' || c == '玖' {
        9
    } else {
        0
    }
}

/// Multiplier of a unit inside a section (十, 百, 千), else 0.
pub open spec fn cn_unit(c: char) -> i32 {
    if c == '十' || c == '拾' {
        10
    } else if c == '百' || c == '佰' {
        100
    } else if c == '千' || c == '仟' {
        1000
    } else {
        0
    }
}

/// Multiplier of a section mark (万, 亿), else 0.
pub open spec fn cn_section(c: char) -> i32 {
    if c == '万' {
        10000
    } else if c == '亿' {
        100000000
    } else {
        0
    }
}

/// Reading state: (total of finished sections, current section, pending digit).
/// Arithmetic wraps on `i32` overflow.
pub open spec fn cn_step(st: (i32, i32, i32), c: char) -> (i32, i32, i32) {
    let (total, section, digit) = st;
    if c == '零' || c == '〇' {
        (total, section, 0)
    } else if cn_digit(c) != 0 {
        (total, section, cn_digit(c))
    } else if cn_unit(c) != 0 {
        let d = if digit == 0 { 1i32 } else { digit };
        (total, section.wrapping_add(d.wrapping_mul(cn_unit(c))), 0)
    } else if cn_section(c) != 0 {
        let s1 = if digit > 0 { section.wrapping_add(digit) } else { section };
        let s2 = if s1 == 0 { 1i32 } else { s1 };
        (total.wrapping_add(s2.wrapping_mul(cn_section(c))), 0, 0)
    } else {
        st
    }
}

pub open spec fn cn_read(s: Seq<char>) -> (i32, i32, i32)
    decreases s.len(),
{
    if s.len() == 0 {
        (0, 0, 0)
    } else {
        cn_step(cn_read(s.drop_last()), s.last())
    }
}

/// The number a numeral string denotes: a plain `i32` if it parses as one, else the
/// Chinese reading, with -1 for a reading of 0.
pub open spec fn chinese_number(s: Seq<char>) -> i32 {
    match parse_i32_spec(s) {
        Some(n) => n,
        None => {
            let (total, section, digit) = cn_read(s);
            let v = total.wrapping_add(section.wrapping_add(digit));
            if v == 0 {
                -1i32
            } else {
                v
            }
        },
    }
}

/// The common Chinese digit character for `d` in `1..=9` (一 to 九).
pub open spec fn cn_digit_char(d: int) -> char {
    if d == 1 { '一' } else if d == 2 { '二' } else if d == 3 { '三' } else if d == 4 { '四' }
    else if d == 5 { '五' } else if d == 6 { '六' } else if d == 7 { '七' } else if d == 8 { '八' }
    else { '九' }
}

/// The financial Chinese digit character for `d` in `1..=9` (壹 to 玖).
pub open spec fn cn_financial_char(d: int) -> char {
    if d == 1 { '壹' } else if d == 2 { '贰' } else if d == 3 { '叁' } else if d == 4 { '肆' }
    else if d == 5 { '伍' } else if d == 6 { '陆' } else if d == 7 { '柒' } else if d == 8 { '捌' }
    else { '玖' }
}

proof fn lemma_cn_digit_char(d: int)
    requires
        1 <= d <= 9,
    ensures
        cn_digit(cn_digit_char(d)) == d,
        cn_digit(cn_financial_char(d)) == d,
        cn_digit_char(d) != '零' && cn_digit_char(d) != '〇',
        cn_financial_char(d) != '零' && cn_financial_char(d) != '〇',
        !is_ascii_digit(cn_digit_char(d)) && cn_digit_char(d) != '-' && cn_digit_char(d) != '+',
        !is_ascii_digit(cn_financial_char(d)) && cn_financial_char(d) != '-' && cn_financial_char(d)
            != '+',
{
}

proof fn lemma_not_plain_number(s: Seq<char>)
    requires
        s.len() > 0,
        !is_ascii_digit(s[0]) && s[0] != '-' && s[0] != '+',
    ensures
        parse_i32_spec(s) is None,
{
    assert(unsigned_part(s) == s);
    assert(!is_ascii_digit(unsigned_part(s)[0]));
}

/// Chinese numerals read as their place values: a digit character (common or
/// financial) denotes its digit, `d十e` denotes `10d + e`, `d十` denotes `10d`,
/// `十e` denotes `10 + e`, and `d百e十` denotes `100d + 10e`.
pub proof fn lemma_chinese_numerals(d: int, e: int)
    requires
        1 <= d <= 9,
        1 <= e <= 9,
    ensures
        chinese_number(seq![cn_digit_char(d)]) == d,
        chinese_number(seq![cn_financial_char(d)]) == d,
        chinese_number(seq![cn_digit_char(d), '十']) == 10 * d,
        chinese_number(seq!['十', cn_digit_char(e)]) == 10 + e,
        chinese_number(seq![cn_digit_char(d), '十', cn_digit_char(e)]) == 10 * d + e,
        chinese_number(seq![cn_digit_char(d), '百', cn_digit_char(e), '十']) == 100 * d + 10 * e,
        chinese_number(seq![cn_digit_char(d), '百', '零', cn_digit_char(e)]) == 100 * d + e,
        chinese_number(seq![cn_digit_char(d), '千']) == 1000 * d,
        chinese_number(seq![cn_digit_char(d), '万']) == 10000 * d,
        chinese_number(seq![cn_financial_char(d), '拾', cn_financial_char(e)]) == 10 * d + e,
        chinese_number(seq!['两']) == 2,
{
    lemma_cn_digit_char(d);
    lemma_cn_digit_char(e);
    let a = cn_digit_char(d);
    let b = cn_digit_char(e);
    let f = cn_financial_char(d);
    let s1 = seq![a];
    assert(s1.drop_last() =~= Seq::<char>::empty());
    lemma_not_plain_number(s1);
    let s2 = seq![f];
    assert(s2.drop_last() =~= Seq::<char>::empty());
    lemma_not_plain_number(s2);
    let s3 = seq![a, '十'];
    assert(s3.drop_last() =~= s1);
    lemma_not_plain_number(s3);
    let s4 = seq!['十', b];
    assert(s4.drop_last() =~= seq!['十']);
    assert(seq!['十'].drop_last() =~= Seq::<char>::empty());
    lemma_not_plain_number(s4);
    let s5 = seq![a, '十', b];
    assert(s5.drop_last() =~= s3);
    lemma_not_plain_number(s5);
    let s6 = seq![a, '百', b, '十'];
    assert(s6.drop_last() =~= seq![a, '百', b]);
    assert(seq![a, '百', b].drop_last() =~= seq![a, '百']);
    assert(seq![a, '百'].drop_last() =~= s1);
    lemma_not_plain_number(s6);
    assert(cn_read(Seq::<char>::empty()) == (0i32, 0i32, 0i32));
    assert(cn_read(s1.drop_last()) == (0i32, 0i32, 0i32));
    assert(s1.last() == a);
    assert(cn_read(s1) == cn_step((0i32, 0i32, 0i32), a));
    assert(cn_read(s1) == (0i32, 0i32, d as i32));
    assert(cn_read(s2) == (0i32, 0i32, d as i32));
    assert(cn_read(s3) == (0i32, (10 * d) as i32, 0i32));
    assert(cn_read(seq!['十'].drop_last()) == (0i32, 0i32, 0i32));
    assert(cn_read(seq!['十']) == cn_step((0i32, 0i32, 0i32), '十'));
    assert(cn_read(seq!['十']) == (0i32, 10i32, 0i32));
    assert(cn_read(s4) == (0i32, 10i32, e as i32));
    assert(cn_read(s5) == (0i32, (10 * d) as i32, e as i32));
    assert(cn_read(seq![a, '百']) == (0i32, (100 * d) as i32, 0i32));
    assert(cn_read(seq![a, '百', b]) == (0i32, (100 * d) as i32, e as i32));
    assert(cn_read(s6) == (0i32, (100 * d + 10 * e) as i32, 0i32));
    let s7 = seq![a, '百', '零', b];
    assert(s7.drop_last() =~= seq![a, '百', '零']);
    assert(seq![a, '百', '零'].drop_last() =~= seq![a, '百']);
    lemma_not_plain_number(s7);
    assert(cn_read(seq![a, '百', '零']) == (0i32, (100 * d) as i32, 0i32));
    assert(cn_read(s7) == (0i32, (100 * d) as i32, e as i32));
    let s8 = seq![a, '千'];
    assert(s8.drop_last() =~= s1);
    lemma_not_plain_number(s8);
    assert(cn_read(s8) == (0i32, (1000 * d) as i32, 0i32));
    let s9 = seq![a, '万'];
    assert(s9.drop_last() =~= s1);
    lemma_not_plain_number(s9);
    assert(cn_read(s9) == ((10000 * d) as i32, 0i32, 0i32));
    let g = cn_financial_char(e);
    let s10 = seq![f, '拾', g];
    assert(s10.drop_last() =~= seq![f, '拾']);
    assert(seq![f, '拾'].drop_last() =~= s2);
    lemma_not_plain_number(s10);
    assert(cn_read(seq![f, '拾']) == (0i32, (10 * d) as i32, 0i32));
    assert(cn_read(s10) == (0i32, (10 * d) as i32, e as i32));
    let s11 = seq!['两'];
    assert(s11.drop_last() =~= Seq::<char>::empty());
    assert(!is_ascii_digit(s11[0]));
    lemma_not_plain_number(s11);
    assert(cn_read(s11) == cn_step((0i32, 0i32, 0i32), '两'));
    assert(cn_read(s11) == (0i32, 0i32, 2i32));
}

fn cn_step_exec(st: (i32, i32, i32), c: char) -> (r: (i32, i32, i32))
    ensures
        r == cn_step(st, c),
{
    let (total, section, digit) = st;
    let d: i32 = if c == '一' || c == '壹' {
        1
    } else if c == '二' || c == '两' || c == '贰' {
        2
    } else if c == '三' || c == '叁' {
        3
    } else if c == '四' || c == '肆' {
        4
    } else if c == '五' || c == '伍' {
        5
    } else if c == '六' || c == '陆' {
        6
    } else if c == '七' || c == '柒' {
        7
    } else if c == '八' || c == '捌' {
        8
    } else if c == '九' || c == '玖' {
        9
    } else {
        0
    };
    let unit: i32 = if c == '十' || c == '拾' {
        10
    } else if c == '百' || c == '佰' {
        100
    } else if c == '千' || c == '仟' {
        1000
    } else {
        0
    };
    let mark: i32 = if c == '万' {
        10000
    } else if c == '亿' {
        100000000
    } else {
        0
    };
    if c == '零' || c == '〇' {
        (total, section, 0)
    } else if d != 0 {
        (total, section, d)
    } else if unit != 0 {
        let m = if digit == 0 { 1i32 } else { digit };
        (total, section.wrapping_add(m.wrapping_mul(unit)), 0)
    } else if mark != 0 {
        let s1 = if digit > 0 { section.wrapping_add(digit) } else { section };
        let s2 = if s1 == 0 { 1i32 } else { s1 };
        (total.wrapping_add(s2.wrapping_mul(mark)), 0, 0)
    } else {
        st
    }
}

/// Converts a numeral string (Arabic digits or Chinese numerals) to an integer;
/// -1 when it denotes nothing.
pub fn chinese_num_to_int(s: &str) -> (r: i32)
    ensures
        r == chinese_number(s@),
{
    if let Some(n) = parse_i32(s) {
        return n;
    }
    let chars = chars_of(s);
    let mut st: (i32, i32, i32) = (0, 0, 0);
    let mut i: usize = 0;
    while i < chars.len()
        invariant
            i <= chars@.len(),
            chars@ == s@,
            st == cn_read(chars@.take(i as int)),
        decreases chars@.len() - i,
    {
        proof {
            assert(chars@.take(i + 1).drop_last() =~= chars@.take(i as int));
        }
        st = cn_step_exec(st, chars[i]);
        i = i + 1;
    }
    proof {
        assert(chars@.take(chars@.len() as int) =~= chars@);
    }
    let (total, section, digit) = st;
    let v = total.wrapping_add(section.wrapping_add(digit));
    if v == 0 {
        -1
    } else {
        v
    }
}

// ───────────────────────── bracketed notes ─────────────────────────

/// Index of the first `c` in `s` at or after `from`; -1 when there is none.
pub open spec fn index_from(s: Seq<char>, c: char, from: int) -> int
    decreases s.len() - from,
{
    if from < 0 || from >= s.len() {
        -1
    } else if s[from] == c {
        from
    } else {
        index_from(s, c, from + 1)
    }
}

pub proof fn lemma_index_from(s: Seq<char>, c: char, from: int)
    requires
        0 <= from,
    ensures
        index_from(s, c, from) == -1 || (from <= index_from(s, c, from) < s.len() && s[index_from(
            s,
            c,
            from,
        )] == c),
        index_from(s, c, from) == -1 ==> forall|k: int| from <= k < s.len() ==> s[k] != c,
        index_from(s, c, from) != -1 ==> forall|k: int|
            from <= k < index_from(s, c, from) ==> s[k] != c,
    decreases s.len() - from,
{
    if from < s.len() && s[from] != c {
        lemma_index_from(s, c, from + 1);
    }
}

/// Repeatedly removes the text from the first `open` through the first `close`
/// after it, while both occur.
pub open spec fn strip_bracketed(s: Seq<char>, open: char, close: char) -> Seq<char>
    decreases s.len(),
{
    let i = index_from(s, open, 0);
    if i < 0 {
        s
    } else {
        let j = index_from(s, close, i);
        if j < 0 {
            s
        } else {
            proof {
                lemma_index_from(s, open, 0);
                lemma_index_from(s, close, i);
            }
            strip_bracketed(s.take(i) + s.skip(j + 1), open, close)
        }
    }
}

/// The bracket pairs removed from chapter names, in the order they are handled.
pub open spec fn bracket_pairs() -> Seq<(char, char)> {
    seq![('【', '】'), ('〖', '〗'), ('《', '》'), ('〔', '〕'), ('[', ']'), ('{', '}'), ('(', ')')]
}

/// `strip_bracketed` with each of the first `k` pairs in turn.
pub open spec fn strip_brackets_upto(s: Seq<char>, k: int) -> Seq<char>
    decreases k,
{
    if k <= 0 {
        s
    } else {
        let (o, c) = bracket_pairs()[k - 1];
        strip_bracketed(strip_brackets_upto(s, k - 1), o, c)
    }
}

fn find_from(s: &Vec<char>, c: char, from: usize) -> (r: Option<usize>)
    requires
        from <= s@.len(),
    ensures
        match r {
            Some(i) => i as int == index_from(s@, c, from as int),
            None => index_from(s@, c, from as int) == -1,
        },
{
    proof {
        lemma_index_from(s@, c, from as int);
    }
    let mut i = from;
    while i < s.len()
        invariant
            from <= i <= s@.len(),
            forall|k: int| from <= k < i ==> s@[k] != c,
            index_from(s@, c, from as int) == index_from(s@, c, i as int),
        decreases s@.len() - i,
    {
        if s[i] == c {
            return Some(i);
        }
        i = i + 1;
    }
    None
}

fn strip_pair(s: Vec<char>, open: char, close: char) -> (r: Vec<char>)
    ensures
        r@ == strip_bracketed(s@, open, close),
{
    let mut cur = s;
    loop
        invariant
            strip_bracketed(cur@, open, close) == strip_bracketed(s@, open, close),
        decreases cur@.len(),
    {
        let i = match find_from(&cur, open, 0) {
            Some(i) => i,
            None => {
                return cur;
            },
        };
        proof {
            lemma_index_from(cur@, open, 0);
        }
        let j = match find_from(&cur, close, i) {
            Some(j) => j,
            None => {
                return cur;
            },
        };
        proof {
            lemma_index_from(cur@, close, i as int);
        }
        assert(i <= j < cur@.len());
        let mut next: Vec<char> = Vec::new();
        let mut k: usize = 0;
        while k < i
            invariant
                k <= i <= j < cur@.len(),
                next@ == cur@.take(k as int),
            decreases i - k,
        {
            next.push(cur[k]);
            proof {
                assert(cur@.take(k + 1) =~= cur@.take(k as int).push(cur@[k as int]));
            }
            k = k + 1;
        }
        let len = cur.len();
        assert(j < len);
        let mut k = j + 1;
        while k < cur.len()
            invariant
                i <= j < k <= cur@.len(),
                next@ == cur@.take(i as int) + cur@.subrange(j + 1, k as int),
            decreases cur@.len() - k,
        {
            next.push(cur[k]);
            proof {
                assert(cur@.subrange(j + 1, k + 1) =~= cur@.subrange(j + 1, k as int).push(
                    cur@[k as int],
                ));
            }
            k = k + 1;
        }
        proof {
            assert(cur@.subrange(j + 1, cur@.len() as int) =~= cur@.skip(j + 1));
        }
        cur = next;
    }
}

fn strip_brackets(s: Vec<char>) -> (r: Vec<char>)
    ensures
        r@ == strip_brackets_upto(s@, 7),
{
    let ghost s0 = s@;
    let pairs: [(char, char); 7] = [
        ('【', '】'),
        ('〖', '〗'),
        ('《', '》'),
        ('〔', '〕'),
        ('[', ']'),
        ('{', '}'),
        ('(', ')'),
    ];
    assert(pairs@ == bracket_pairs());
    let mut cur = s;
    let mut k: usize = 0;
    while k < 7
        invariant
            k <= 7,
            pairs@ == bracket_pairs(),
            cur@ == strip_brackets_upto(s0, k as int),
        decreases 7 - k,
    {
        let (o, c) = pairs[k];
        cur = strip_pair(cur, o, c);
        k = k + 1;
    }
    cur
}

// ───────────────────────── chapter titles ─────────────────────────

/// 第 N 章 / 节 / 篇 / 回 / 集 / 话, the numeral captured.
pub const CHAPTER_NUMBER_PATTERN: &'static str =
    r"第([\d零〇一二两三四五六七八九十百千万壹贰叁肆伍陆柒捌玖拾佰仟]+)[章节篇回集话]";

/// A leading list number such as `001、` or `042：`, the last numeral captured.
pub const LIST_NUMBER_PATTERN: &'static str =
    r"^(?:[\d零〇一二两三四五六七八九十百千万壹贰叁肆伍陆柒捌玖拾佰仟]+[,:、])*([\d零〇一二两三四五六七八九十百千万壹贰叁肆伍陆柒捌玖拾佰仟]+)[,:、：]";

/// Everything up to and including the first 第 N 章 marker.
pub const CHAPTER_PREFIX_PATTERN: &'static str =
    r"^.*?第[\d零〇一二两三四五六七八九十百千万壹贰叁肆伍陆柒捌玖拾佰仟]+[章节篇回集话]\s*";

/// A leading list number with its separator.
pub const NUMBER_PREFIX_PATTERN: &'static str =
    r"^[\d零〇一二两三四五六七八九十百千万壹贰叁肆伍陆柒捌玖拾佰仟]+[,:、：]\s*";

/// A character that is neither a word character nor a CJK ideograph.
pub const NON_NAME_CHAR_PATTERN: &'static str = r"[^\w\u4E00-\u9FEF〇\u3400-\u4DBF]";

/// Capture group 1 of the first match of `p` in `t` (none when `p` does not compile).
pub open spec fn group1_of(p: Seq<char>, t: Seq<char>) -> Option<Seq<char>> {
    if regex_valid(p) {
        regex_group1(p, t)
    } else {
        None
    }
}

/// `t` with the first match of `p` removed (unchanged when `p` does not compile).
pub open spec fn remove_first_of(p: Seq<char>, t: Seq<char>) -> Seq<char> {
    if regex_valid(p) {
        regex_replace_first(p, t, Seq::<char>::empty())
    } else {
        t
    }
}

/// `t` with every match of `p` removed (unchanged when `p` does not compile).
pub open spec fn remove_all_of(p: Seq<char>, t: Seq<char>) -> Seq<char> {
    if regex_valid(p) {
        regex_replace_all(p, t, Seq::<char>::empty())
    } else {
        t
    }
}

/// The title as the patterns see it: half width, whitespace removed.
pub open spec fn normalized_title(title: Seq<char>) -> Seq<char> {
    without_ws(half_width(title))
}

/// The chapter number of a title: the numeral of a 第 N 章 marker, else of a
/// leading list number, else -1.
pub open spec fn chapter_number(title: Seq<char>) -> i32 {
    let t = normalized_title(title);
    match group1_of(CHAPTER_NUMBER_PATTERN@, t) {
        Some(g) => chinese_number(g),
        None => match group1_of(LIST_NUMBER_PATTERN@, t) {
            Some(g) => chinese_number(g),
            None => -1i32,
        },
    }
}

/// The chapter name without numbering, bracketed notes and punctuation.
pub open spec fn pure_chapter_name(title: Seq<char>) -> Seq<char> {
    if title.len() == 0 {
        Seq::<char>::empty()
    } else {
        let t1 = remove_first_of(CHAPTER_PREFIX_PATTERN@, normalized_title(title));
        let t2 = remove_first_of(NUMBER_PREFIX_PATTERN@, t1);
        remove_all_of(NON_NAME_CHAR_PATTERN@, strip_brackets_upto(t2, 7))
    }
}

fn normalize_title(title: &str) -> (r: String)
    ensures
        r@ == normalized_title(title@),
{
    let v = remove_whitespace(half_width_chars(chars_of(title).as_slice()).as_slice());
    string_from_chars(v.as_slice())
}

fn numeral_of(pattern: &str, t: &str) -> (r: Option<String>)
    ensures
        match r {
            Some(g) => group1_of(pattern@, t@) == Some(g@),
            None => group1_of(pattern@, t@) is None,
        },
{
    match CompiledPattern::compile(pattern) {
        Ok(p) => p.group1(t),
        Err(_) => None,
    }
}

fn remove_first_match(pattern: &str, t: String) -> (r: String)
    ensures
        r@ == remove_first_of(pattern@, t@),
{
    proof {
        reveal_strlit("");
        assert(""@ =~= Seq::<char>::empty());
    }
    match CompiledPattern::compile(pattern) {
        Ok(p) => p.replace_first(t.as_str(), ""),
        Err(_) => t,
    }
}

fn remove_all_matches(pattern: &str, t: String) -> (r: String)
    ensures
        r@ == remove_all_of(pattern@, t@),
{
    proof {
        reveal_strlit("");
        assert(""@ =~= Seq::<char>::empty());
    }
    match CompiledPattern::compile(pattern) {
        Ok(p) => p.replace_all(t.as_str(), ""),
        Err(_) => t,
    }
}

/// Chapter number of a title (第123章, 第一百二十三章, 001、...); -1 when it has none.
pub fn extract_chapter_number(title: &str) -> (r: i32)
    ensures
        r == chapter_number(title@),
{
    let t = normalize_title(title);
    if let Some(g) = numeral_of(CHAPTER_NUMBER_PATTERN, t.as_str()) {
        return chinese_num_to_int(g.as_str());
    }
    if let Some(g) = numeral_of(LIST_NUMBER_PATTERN, t.as_str()) {
        return chinese_num_to_int(g.as_str());
    }
    -1
}

/// The chapter name without its number prefix, bracketed notes and punctuation.
pub fn get_pure_chapter_name(title: &str) -> (r: String)
    ensures
        r@ == pure_chapter_name(title@),
{
    if chars_of(title).len() == 0 {
        return String::new();
    }
    let t = normalize_title(title);
    let t = remove_first_match(CHAPTER_PREFIX_PATTERN, t);
    let t = remove_first_match(NUMBER_PREFIX_PATTERN, t);
    let v = strip_brackets(chars_of(t.as_str()));
    let t = string_from_chars(v.as_slice());
    remove_all_matches(NON_NAME_CHAR_PATTERN, t)
}

/// A chapter title with its pure name and number.
pub struct ChapterInfo {
    pub title: String,
    pub pure_title: String,
    pub chapter_number: i32,
}

impl ChapterInfo {
    pub fn new(title: String) -> (r: ChapterInfo)
        ensures
            r.title@ == title@,
            r.pure_title@ == pure_chapter_name(title@),
            r.chapter_number == chapter_number(title@),
    {
        let pure_title = get_pure_chapter_name(title.as_str());
        let chapter_number = extract_chapter_number(title.as_str());
        ChapterInfo { title, pure_title, chapter_number }
    }
}

} // verus!
