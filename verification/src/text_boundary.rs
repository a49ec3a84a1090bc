//! Safe character / byte / grapheme boundary arithmetic over UTF-8 text.
//!
//! A handler is built once from a text and maps character indices to byte
//! offsets and back; byte offsets are those of the text's UTF-8 encoding.
use vstd::prelude::*;
use vstd::utf8::{
    encode_utf8, encode_scalar, decode_utf8, encode_utf8_decode_utf8, is_continuation_byte,
    has_width_1_encoding, has_width_2_encoding, has_width_3_encoding, has_width_4_encoding,
    char_is_scalar,
};
use crate::text::chars_of;
use vstd::string::StringSliceAdditionalSpecFns;
use unicode_segmentation::UnicodeSegmentation;

verus! {

/// Byte offset (in the UTF-8 encoding of `s`) at which character `i` starts.
pub open spec fn char_start(s: Seq<char>, i: int) -> int {
    encode_utf8(s.take(i)).len() as int
}

/// Length of the UTF-8 encoding of `s`.
pub open spec fn byte_length(s: Seq<char>) -> int {
    encode_utf8(s).len() as int
}

/// Byte offsets at which the extended grapheme clusters of `s` start
/// (`unicode_segmentation::UnicodeSegmentation::grapheme_indices(s, true)`).
pub uninterp spec fn grapheme_starts(s: Seq<char>) -> Seq<int>;

/// Strictly increasing sequence.
pub open spec fn strictly_increasing(g: Seq<int>) -> bool {
    forall|i: int, j: int| 0 <= i < j < g.len() ==> #[trigger] g[i] < #[trigger] g[j]
}

pub proof fn lemma_encode_concat(a: Seq<char>, b: Seq<char>)
    ensures
        encode_utf8(a + b) == encode_utf8(a) + encode_utf8(b),
    decreases a.len(),
{
    if a.len() == 0 {
        assert(a + b =~= b);
        assert(encode_utf8(a) + encode_utf8(b) =~= encode_utf8(b));
    } else {
        lemma_encode_concat(a.drop_first(), b);
        assert((a + b).drop_first() =~= a.drop_first() + b);
        assert((a + b)[0] == a[0]);
        assert(encode_utf8(a + b) =~= encode_scalar(a[0] as u32) + encode_utf8(a.drop_first() + b));
    }
}

pub open spec fn width(c: char) -> int {
    encode_scalar(c as u32).len() as int
}

proof fn lemma_width(c: char)
    ensures
        1 <= width(c) <= 4,
        width(c) == if (c as u32) <= 0x7f {
            1int
        } else if (c as u32) <= 0x7ff {
            2int
        } else if (c as u32) <= 0xffff {
            3int
        } else {
            4int
        },
{
    char_is_scalar(c);
}

pub proof fn lemma_char_start_step(s: Seq<char>, i: int)
    requires
        0 <= i < s.len(),
    ensures
        char_start(s, i + 1) == char_start(s, i) + width(s[i]),
{
    assert(s.take(i + 1) =~= s.take(i) + seq![s[i]]);
    lemma_encode_concat(s.take(i), seq![s[i]]);
    let one = seq![s[i]];
    assert(one.drop_first() =~= Seq::<char>::empty());
    assert(one[0] == s[i]);
    assert(encode_utf8(Seq::<char>::empty()) =~= Seq::<u8>::empty());
    assert(encode_utf8(one) == encode_scalar(s[i] as u32) + encode_utf8(one.drop_first()));
    assert(encode_utf8(one) =~= encode_scalar(s[i] as u32));
}

pub proof fn lemma_char_start_mono(s: Seq<char>, i: int, j: int)
    requires
        0 <= i <= j <= s.len(),
    ensures
        char_start(s, i) + (j - i) <= char_start(s, j),
        i < j ==> char_start(s, i) < char_start(s, j),
    decreases j - i,
{
    if i < j {
        lemma_char_start_mono(s, i, j - 1);
        lemma_char_start_step(s, j - 1);
        lemma_width(s[j - 1]);
    }
}

pub proof fn lemma_char_start_end(s: Seq<char>)
    ensures
        char_start(s, s.len() as int) == byte_length(s),
        char_start(s, 0) == 0,
{
    assert(s.take(s.len() as int) =~= s);
    assert(s.take(0) =~= Seq::<char>::empty());
}

/// Number of bytes of the UTF-8 encoding of `c` (`char::len_utf8`).
pub(crate) fn utf8_width(c: char) -> (w: usize)
    ensures
        w as int == width(c),
{
    proof {
        lemma_width(c);
    }
    let v = c as u32;
    if v <= 0x7f {
        1
    } else if v <= 0x7ff {
        2
    } else if v <= 0xffff {
        3
    } else {
        4
    }
}

/// `unicode_segmentation` grapheme cluster start offsets, converted to a vector.
#[verifier::external_body]
fn grapheme_starts_exec(text: &str) -> (r: Vec<usize>)
    ensures
        r@.map_values(|x: usize| x as int) == grapheme_starts(text@),
        strictly_increasing(r@.map_values(|x: usize| x as int)),
        forall|i: int| 0 <= i < r@.len() ==> #[trigger] r@[i] < byte_length(text@),
        text@.len() > 0 ==> r@.len() > 0 && r@[0] == 0,
{
    UnicodeSegmentation::grapheme_indices(text, true).map(|(i, _)| i).collect()
}

/// Character, byte and grapheme boundary maps of one text.
pub struct TextBoundaryHandler {
    /// Character index → byte offset, with the byte length as end sentinel.
    char_to_byte_map: Vec<usize>,
    /// Byte offset → index of the character holding that byte.
    byte_to_char_map: Vec<usize>,
    /// Byte offsets at which grapheme clusters start.
    grapheme_boundaries: Vec<usize>,
    byte_len: usize,
    char_count: usize,
    text: Ghost<Seq<char>>,
}

/// The first element of `g` from index `i` on that is greater than `b`, else `end`.
pub open spec fn first_gt(g: Seq<int>, b: int, i: int, end: int) -> int
    decreases g.len() - i,
{
    if i < 0 || i >= g.len() {
        end
    } else if g[i] > b {
        g[i]
    } else {
        first_gt(g, b, i + 1, end)
    }
}

/// The last element of `g` before index `i` that is less than `b`, else 0.
pub open spec fn last_lt(g: Seq<int>, b: int, i: int) -> int
    decreases i,
{
    if i <= 0 || i > g.len() {
        0
    } else if g[i - 1] < b {
        g[i - 1]
    } else {
        last_lt(g, b, i - 1)
    }
}

impl TextBoundaryHandler {
    /// The text the handler was built from.
    pub closed spec fn text(&self) -> Seq<char> {
        self.text@
    }

    pub closed spec fn wf(&self) -> bool {
        let s = self.text@;
        &&& self.char_count == s.len()
        &&& self.byte_len == byte_length(s)
        &&& self.char_to_byte_map@.len() == s.len() + 1
        &&& forall|i: int|
            0 <= i <= s.len() ==> #[trigger] self.char_to_byte_map@[i] == char_start(s, i)
        &&& self.byte_to_char_map@.len() == byte_length(s)
        &&& forall|b: int|
            0 <= b < byte_length(s) ==> {
                let i = #[trigger] self.byte_to_char_map@[b] as int;
                0 <= i < s.len() && char_start(s, i) <= b < char_start(s, i + 1)
            }
        &&& self.grapheme_boundaries@.map_values(|x: usize| x as int) == grapheme_starts(s)
        &&& strictly_increasing(grapheme_starts(s))
    }

    /// Builds the maps for `text`.
    pub fn from_str(text: &str) -> (h: TextBoundaryHandler)
        ensures
            h.wf(),
            h.text() == text@,
    {
        let chars = chars_of(text);
        let n = chars.len();
        let total_bytes = text.as_bytes().len();
        assert(total_bytes == byte_length(text@));
        let mut char_to_byte_map: Vec<usize> = Vec::new();
        let mut byte_to_char_map: Vec<usize> = Vec::new();
        let mut pos: usize = 0;
        let mut i: usize = 0;
        proof {
            lemma_char_start_end(chars@);
            lemma_encode_len_bound(chars@);
        }
        while i < n
            invariant
                i <= n == chars@.len(),
                chars@ == text@,
                pos as int == char_start(chars@, i as int),
                byte_length(chars@) <= usize::MAX,
                char_to_byte_map@.len() == i,
                forall|k: int|
                    0 <= k < i ==> #[trigger] char_to_byte_map@[k] == char_start(chars@, k),
                byte_to_char_map@.len() == pos,
                forall|b: int|
                    0 <= b < pos ==> {
                        let k = #[trigger] byte_to_char_map@[b] as int;
                        0 <= k < i && char_start(chars@, k) <= b < char_start(chars@, k + 1)
                    },
            decreases n - i,
        {
            char_to_byte_map.push(pos);
            let w = utf8_width(chars[i]);
            proof {
                lemma_char_start_step(chars@, i as int);
                lemma_char_start_mono(chars@, i + 1, n as int);
                lemma_char_start_end(chars@);
            }
            let mut t: usize = 0;
            while t < w
                invariant
                    t <= w,
                    i < n == chars@.len(),
                    pos + w == char_start(chars@, i + 1),
                    pos as int == char_start(chars@, i as int),
                    byte_to_char_map@.len() == pos + t,
                    forall|b: int|
                        0 <= b < pos + t ==> {
                            let k = #[trigger] byte_to_char_map@[b] as int;
                            0 <= k <= i && char_start(chars@, k) <= b < char_start(chars@, k + 1)
                        },
                decreases w - t,
            {
                byte_to_char_map.push(i);
                t = t + 1;
            }
            pos = pos + w;
            i = i + 1;
        }
        char_to_byte_map.push(pos);
        proof {
            lemma_char_start_end(chars@);
            assert forall|k: int| 0 <= k <= n implies #[trigger] char_to_byte_map@[k] == char_start(
                chars@,
                k,
            ) by {}
        }
        let grapheme_boundaries = grapheme_starts_exec(text);
        TextBoundaryHandler {
            char_to_byte_map,
            byte_to_char_map,
            grapheme_boundaries,
            byte_len: pos,
            char_count: n,
            text: Ghost(text@),
        }
    }

    /// Byte offset of character `char_index`; the byte length past the end.
    pub fn char_to_byte(&self, char_index: usize) -> (b: usize)
        requires
            self.wf(),
        ensures
            b as int == if char_index < self.text().len() {
                char_start(self.text(), char_index as int)
            } else {
                byte_length(self.text())
            },
    {
        if char_index >= self.char_count {
            self.byte_len
        } else {
            self.char_to_byte_map[char_index]
        }
    }

    /// Index of the character holding `byte_offset`; the character count past the end.
    pub fn byte_to_char(&self, byte_offset: usize) -> (c: usize)
        requires
            self.wf(),
        ensures
            byte_offset < byte_length(self.text()) ==> c < self.text().len() && char_start(
                self.text(),
                c as int,
            ) <= byte_offset < char_start(self.text(), c + 1),
            byte_offset >= byte_length(self.text()) ==> c == self.text().len(),
    {
        if byte_offset >= self.byte_len {
            self.char_count
        } else {
            self.byte_to_char_map[byte_offset]
        }
    }

    /// The characters `[start_char, end_char)` of `text` (clamped to its end);
    /// empty when the start lies after the end.
    pub fn get_char_range<'a>(&self, text: &'a str, start_char: usize, end_char: usize) -> (r:
        &'a str)
        requires
            self.wf(),
            text@ == self.text(),
        ensures
            ({
                let n = self.text().len() as int;
                let s = if start_char < n { start_char as int } else { n };
                let e = if end_char < n { end_char as int } else { n };
                r@ == if s <= e { text@.subrange(s, e) } else { Seq::<char>::empty() }
            }),
    {
        let start_byte = self.char_to_byte(start_char);
        let end_byte = self.char_to_byte(end_char);
        let bytes = text.as_bytes();
        let ghost n = self.text().len() as int;
        let ghost s = if start_char < n { start_char as int } else { n };
        let ghost e = if end_char < n { end_char as int } else { n };
        proof {
            lemma_char_start_end(text@);
            assert(start_byte == char_start(text@, s));
            assert(end_byte == char_start(text@, e));
            lemma_char_start_mono(text@, 0, s);
            lemma_char_start_mono(text@, 0, e);
            lemma_char_start_mono(text@, s, n);
            lemma_char_start_mono(text@, e, n);
            if s < n {
                lemma_boundary_not_continuation(text@, s);
            }
            if e < n {
                lemma_boundary_not_continuation(text@, e);
            }
        }
        let start_byte = find_char_boundary_forward(bytes, start_byte);
        let end_byte = find_char_boundary_backward(bytes, end_byte);
        if start_byte <= end_byte && end_byte <= text.len() {
            proof {
                if s > e {
                    lemma_char_start_mono(text@, e, s);
                }
            }
            proof {
                lemma_is_boundary(text@, e);
            }
            let (left, _) = text.split_at(end_byte);
            proof {
                lemma_substring_bytes(text@, 0, e);
                assert(text@.subrange(0, e) =~= text@.take(e));
                vstd::utf8::encode_utf8_decode_utf8(left@);
                vstd::utf8::encode_utf8_decode_utf8(text@.take(e));
                assert(left@ == text@.take(e));
                assert(left@.take(s) =~= text@.take(s));
                lemma_is_boundary(left@, s);
            }
            let (_, mid) = left.split_at(start_byte);
            proof {
                lemma_substring_bytes(text@, s, e);
                lemma_char_start_end(left@);
                assert(left.spec_bytes().len() == end_byte);
                assert(mid.spec_bytes() =~= encode_utf8(text@).subrange(
                    char_start(text@, s),
                    char_start(text@, e),
                ));

                vstd::utf8::encode_utf8_decode_utf8(mid@);
                vstd::utf8::encode_utf8_decode_utf8(text@.subrange(s, e));
                assert(mid.spec_bytes() =~= encode_utf8(text@.subrange(s, e)));
                assert(mid@ == text@.subrange(s, e));
            }
            mid
        } else {
            proof {
                if s <= e {
                    lemma_char_start_mono(text@, s, e);
                }
                reveal_strlit("");
            }
            assert(s > e);
            ""
        }
    }

    /// The first character boundary at or after `byte_offset` (the byte length past
    /// the end).
    pub fn find_boundary_forward(&self, byte_offset: usize) -> (r: usize)
        requires
            self.wf(),
        ensures
            byte_offset >= byte_length(self.text()) ==> r == byte_length(self.text()),
            byte_offset < byte_length(self.text()) ==> exists|i: int|
                0 <= i <= self.text().len() && r == #[trigger] char_start(self.text(), i) && (i > 0
                    ==> char_start(self.text(), i - 1) < byte_offset) && byte_offset <= r,
    {
        if byte_offset >= self.byte_len {
            return self.byte_len;
        }
        let char_idx = self.byte_to_char(byte_offset);
        let boundary = self.char_to_byte(char_idx);
        if boundary < byte_offset {
            let r = self.char_to_byte(char_idx + 1);
            proof {
                lemma_char_start_end(self.text());
                let i = char_idx + 1;
                assert(r == char_start(self.text(), i));
            }
            r
        } else {
            proof {
                let i = char_idx as int;
                if i > 0 {
                    lemma_char_start_mono(self.text(), i - 1, i);
                }
            }
            boundary
        }
    }

    /// The last character boundary at or before `byte_offset` (the byte length past
    /// the end).
    pub fn find_boundary_backward(&self, byte_offset: usize) -> (r: usize)
        requires
            self.wf(),
        ensures
            byte_offset == 0 ==> r == 0,
            byte_offset != 0 && byte_offset >= byte_length(self.text()) ==> r == byte_length(
                self.text(),
            ),
            0 < byte_offset < byte_length(self.text()) ==> exists|i: int|
                0 <= i < self.text().len() && r == #[trigger] char_start(self.text(), i) && r <= byte_offset
                    < char_start(self.text(), i + 1),
    {
        if byte_offset == 0 {
            return 0;
        }
        if byte_offset >= self.byte_len {
            return self.byte_len;
        }
        let char_idx = self.byte_to_char(byte_offset);
        self.char_to_byte(char_idx)
    }

    /// The first grapheme boundary after `byte_offset` (the byte length when none).
    pub fn next_grapheme_boundary(&self, byte_offset: usize) -> (r: usize)
        requires
            self.wf(),
        ensures
            r as int == first_gt(
                grapheme_starts(self.text()),
                byte_offset as int,
                0,
                byte_length(self.text()),
            ),
    {
        let ghost g = grapheme_starts(self.text());
        let p = self.upper_bound(byte_offset);
        proof {
            lemma_first_gt(g, byte_offset as int, 0, p as int, byte_length(self.text()));
        }
        if p < self.grapheme_boundaries.len() {
            self.grapheme_boundaries[p]
        } else {
            self.byte_len
        }
    }

    /// The last grapheme boundary before `byte_offset` (0 when none).
    pub fn prev_grapheme_boundary(&self, byte_offset: usize) -> (r: usize)
        requires
            self.wf(),
        ensures
            r as int == last_lt(
                grapheme_starts(self.text()),
                byte_offset as int,
                grapheme_starts(self.text()).len() as int,
            ),
    {
        let ghost g = grapheme_starts(self.text());
        let p = self.lower_bound(byte_offset);
        proof {
            lemma_last_lt(g, byte_offset as int, g.len() as int, p as int);
        }
        if p > 0 {
            self.grapheme_boundaries[p - 1]
        } else {
            0
        }
    }

    /// Number of characters.
    pub fn char_count(&self) -> (n: usize)
        requires
            self.wf(),
        ensures
            n == self.text().len(),
    {
        self.char_count
    }

    /// Number of bytes of the UTF-8 encoding.
    pub fn byte_len(&self) -> (n: usize)
        requires
            self.wf(),
        ensures
            n == byte_length(self.text()),
    {
        self.byte_len
    }

    /// Number of grapheme clusters.
    pub fn grapheme_count(&self) -> (n: usize)
        requires
            self.wf(),
        ensures
            n == grapheme_starts(self.text()).len(),
    {
        self.grapheme_boundaries.len()
    }

    /// Whether `byte_offset` is a character boundary (0 and the byte length included).
    pub fn is_char_boundary(&self, byte_offset: usize) -> (b: bool)
        requires
            self.wf(),
        ensures
            b == (exists|i: int|
                0 <= i <= self.text().len() && #[trigger] char_start(self.text(), i)
                    == byte_offset),
    {
        proof {
            lemma_char_start_end(self.text());
        }
        if byte_offset == 0 || byte_offset == self.byte_len {
            return true;
        }
        if byte_offset < self.byte_len {
            let c = self.byte_to_char_map[byte_offset];
            let r = self.char_to_byte_map[c] == byte_offset;
            proof {
                if !r {
                    assert forall|i: int| 0 <= i <= self.text().len() implies #[trigger] char_start(
                        self.text(),
                        i,
                    ) != byte_offset by {
                        if i <= c {
                            lemma_char_start_mono(self.text(), i, c as int);
                        } else {
                            lemma_char_start_mono(self.text(), c + 1, i);
                        }
                    }
                }
            }
            r
        } else {
            proof {
                assert forall|i: int| 0 <= i <= self.text().len() implies #[trigger] char_start(
                    self.text(),
                    i,
                ) != byte_offset by {
                    lemma_char_start_mono(self.text(), i, self.text().len() as int);
                }
            }
            false
        }
    }

    /// Whether a grapheme cluster starts at `byte_offset`.
    pub fn is_grapheme_boundary(&self, byte_offset: usize) -> (b: bool)
        requires
            self.wf(),
        ensures
            b == grapheme_starts(self.text()).contains(byte_offset as int),
    {
        let ghost g = grapheme_starts(self.text());
        let mut i: usize = 0;
        while i < self.grapheme_boundaries.len()
            invariant
                self.wf(),
                g == grapheme_starts(self.text()),
                i <= g.len(),
                forall|k: int| 0 <= k < i ==> g[k] != byte_offset,
            decreases g.len() - i,
        {
            assert(g[i as int] == self.grapheme_boundaries@[i as int]);
            if self.grapheme_boundaries[i] == byte_offset {
                return true;
            }
            i = i + 1;
        }
        false
    }

    /// The number of grapheme starts that are at most `b`.
    fn upper_bound(&self, b: usize) -> (p: usize)
        requires
            self.wf(),
        ensures
            p <= grapheme_starts(self.text()).len(),
            forall|k: int| 0 <= k < p ==> grapheme_starts(self.text())[k] <= b,
            p < grapheme_starts(self.text()).len() ==> grapheme_starts(self.text())[p as int] > b,
    {
        let ghost g = grapheme_starts(self.text());
        let mut lo: usize = 0;
        let mut hi: usize = self.grapheme_boundaries.len();
        while lo < hi
            invariant
                self.wf(),
                g == grapheme_starts(self.text()),
                lo <= hi <= g.len(),
                forall|k: int| 0 <= k < lo ==> g[k] <= b,
                forall|k: int| hi <= k < g.len() ==> g[k] > b,
            decreases hi - lo,
        {
            let mid = lo + (hi - lo) / 2;
            assert(g[mid as int] == self.grapheme_boundaries@[mid as int]);
            if self.grapheme_boundaries[mid] <= b {
                lo = mid + 1;
            } else {
                hi = mid;
            }
        }
        lo
    }

    /// The number of grapheme starts that are less than `b`.
    fn lower_bound(&self, b: usize) -> (p: usize)
        requires
            self.wf(),
        ensures
            p <= grapheme_starts(self.text()).len(),
            forall|k: int| 0 <= k < p ==> grapheme_starts(self.text())[k] < b,
            p < grapheme_starts(self.text()).len() ==> grapheme_starts(self.text())[p as int] >= b,
    {
        let ghost g = grapheme_starts(self.text());
        let mut lo: usize = 0;
        let mut hi: usize = self.grapheme_boundaries.len();
        while lo < hi
            invariant
                self.wf(),
                g == grapheme_starts(self.text()),
                lo <= hi <= g.len(),
                forall|k: int| 0 <= k < lo ==> g[k] < b,
                forall|k: int| hi <= k < g.len() ==> g[k] >= b,
            decreases hi - lo,
        {
            let mid = lo + (hi - lo) / 2;
            assert(g[mid as int] == self.grapheme_boundaries@[mid as int]);
            if self.grapheme_boundaries[mid] < b {
                lo = mid + 1;
            } else {
                hi = mid;
            }
        }
        lo
    }
}

proof fn lemma_first_gt(g: Seq<int>, b: int, i: int, p: int, end: int)
    requires
        0 <= i <= p <= g.len(),
        forall|k: int| 0 <= k < p ==> g[k] <= b,
        p < g.len() ==> g[p] > b,
    ensures
        first_gt(g, b, i, end) == if p < g.len() { g[p] } else { end },
    decreases p - i,
{
    if i < p {
        lemma_first_gt(g, b, i + 1, p, end);
    }
}

proof fn lemma_last_lt(g: Seq<int>, b: int, i: int, p: int)
    requires
        0 <= p <= i <= g.len(),
        strictly_increasing(g),
        forall|k: int| 0 <= k < p ==> g[k] < b,
        p < g.len() ==> g[p] >= b,
    ensures
        last_lt(g, b, i) == if p > 0 { g[p - 1] } else { 0 },
    decreases i,
{
    if i > p {
        assert(g[i - 1] >= b) by {
            if i - 1 > p {
                assert(g[p] < g[i - 1]);
            }
        }
        lemma_last_lt(g, b, i - 1, p);
    }
}

proof fn lemma_encode_len_bound(s: Seq<char>)
    ensures
        byte_length(s) <= 4 * s.len(),
    decreases s.len(),
{
    if s.len() > 0 {
        lemma_encode_len_bound(s.drop_first());
        lemma_width(s[0]);
    }
}

/// The bytes of characters `[s, e)` are the corresponding slice of the encoding.
proof fn lemma_substring_bytes(t: Seq<char>, s: int, e: int)
    requires
        0 <= s <= e <= t.len(),
    ensures
        encode_utf8(t).subrange(char_start(t, s), char_start(t, e)) == encode_utf8(t.subrange(s, e)),
{
    assert(t =~= t.take(e) + t.subrange(e, t.len() as int));
    lemma_encode_concat(t.take(e), t.subrange(e, t.len() as int));
    assert(t.take(e) =~= t.take(s) + t.subrange(s, e));
    lemma_encode_concat(t.take(s), t.subrange(s, e));
    assert(encode_utf8(t).subrange(char_start(t, s), char_start(t, e)) =~= encode_utf8(
        t.subrange(s, e),
    ));
}

/// The byte at a character start is not a continuation byte.
proof fn lemma_boundary_not_continuation(t: Seq<char>, i: int)
    requires
        0 <= i < t.len(),
    ensures
        !is_continuation_byte(encode_utf8(t)[char_start(t, i)]),
{
    assert(t =~= t.take(i) + t.subrange(i, t.len() as int));
    lemma_encode_concat(t.take(i), t.subrange(i, t.len() as int));
    let rest = t.subrange(i, t.len() as int);
    assert(rest[0] == t[i]);
    char_is_scalar(t[i]);
    assert(encode_utf8(rest)[0] == encode_scalar(t[i] as u32)[0]);
    let v = t[i] as u32;
    if has_width_1_encoding(v) {
        assert((v & 0x7F) as u8 <= 0x7F) by (bit_vector);
    } else if has_width_2_encoding(v) {
        assert(0xC0 | ((v >> 6) & 0x1F) as u8 >= 0xC0) by (bit_vector);
    } else if has_width_3_encoding(v) {
        assert(0xE0 | ((v >> 12) & 0x0F) as u8 >= 0xE0) by (bit_vector);
    } else {
        assert(0xF0 | ((v >> 18) & 0x7) as u8 >= 0xF0) by (bit_vector);
    }
}

/// Character starts are UTF-8 character boundaries of the encoding.
proof fn lemma_is_boundary(t: Seq<char>, i: int)
    requires
        0 <= i <= t.len(),
    ensures
        vstd::utf8::is_char_boundary(encode_utf8(t), char_start(t, i)),
{
    vstd::utf8::encode_utf8_valid_utf8(t);
    lemma_char_start_end(t);
    if i == t.len() {
        vstd::utf8::is_char_boundary_start_end_of_seq(encode_utf8(t));
    } else {
        lemma_char_start_mono(t, i, t.len() as int);
        lemma_boundary_not_continuation(t, i);
        vstd::utf8::is_char_boundary_iff_not_is_continuation_byte(encode_utf8(t), char_start(t, i));
    }
}

/// Round trip: the only character whose byte span holds the start of character
/// `i` is character `i` itself, so `byte_to_char(char_to_byte(i)) == i`.
pub proof fn lemma_char_byte_round_trip(s: Seq<char>, i: int, c: int)
    requires
        0 <= i < s.len(),
        0 <= c < s.len(),
        char_start(s, c) <= char_start(s, i) < char_start(s, c + 1),
    ensures
        c == i,
{
    if c < i {
        lemma_char_start_mono(s, c + 1, i);
    } else if c > i {
        lemma_char_start_mono(s, i, c);
    }
}

/// The first byte at or after `pos` that does not continue a character.
fn find_char_boundary_forward(data: &[u8], pos: usize) -> (r: usize)
    ensures
        pos >= data@.len() ==> r == data@.len(),
        pos < data@.len() && !is_continuation_byte(data@[pos as int]) ==> r == pos,
{
    if pos >= data.len() {
        return data.len();
    }
    let mut i = pos;
    while i < data.len() && (data[i] & 0xC0) == 0x80
        invariant
            pos <= i <= data@.len(),
            i > pos ==> is_continuation_byte(data@[pos as int]),
        decreases data@.len() - i,
    {
        let x = data[i];
        assert((x & 0xC0) == 0x80 ==> is_continuation_byte(x)) by (bit_vector);
        i = i + 1;
    }
    i
}

/// The last byte at or before `pos` that does not continue a character.
fn find_char_boundary_backward(data: &[u8], pos: usize) -> (r: usize)
    ensures
        pos >= data@.len() ==> r == data@.len(),
        pos < data@.len() && !is_continuation_byte(data@[pos as int]) ==> r == pos,
{
    if pos >= data.len() {
        return data.len();
    }
    let mut i = pos;
    while i > 0 && (data[i] & 0xC0) == 0x80
        invariant
            i <= pos < data@.len(),
            i < pos ==> is_continuation_byte(data@[pos as int]),
        decreases i,
    {
        let x = data[i];
        assert((x & 0xC0) == 0x80 ==> is_continuation_byte(x)) by (bit_vector);
        i = i - 1;
    }
    i
}

} // verus!
