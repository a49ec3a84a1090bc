//! Line-break rules applied to a line that was filled by width: a line may not
//! end with opening punctuation, the next line may not begin with closing
//! punctuation, and an ASCII word is not cut in two. The characters that break a
//! rule move from the end of the line to the start of the next one.
use vstd::prelude::*;
use crate::charsets::{
    spec_is_line_start_forbidden, spec_is_line_end_forbidden, spec_is_word_char,
    is_line_start_forbidden, is_line_end_forbidden, is_word_char,
};
use crate::text::{chars_of, string_from_chars};

verus! {

/// The run of word characters that ends `line`.
pub open spec fn trailing_word(line: Seq<char>) -> Seq<char>
    decreases line.len(),
{
    if line.len() == 0 || !spec_is_word_char(line.last()) {
        Seq::<char>::empty()
    } else {
        trailing_word(line.drop_last()).push(line.last())
    }
}

/// The characters pulled from the end of `line` to the next line, whose text is
/// `after` (non-empty): the last character when it is opening punctuation or when
/// `after` starts with closing punctuation; otherwise the trailing word when a word
/// runs across the break; otherwise nothing.
pub open spec fn pulled_back(line: Seq<char>, after: Seq<char>) -> Seq<char> {
    let next = after[0];
    let last = if line.len() > 0 {
        line.last()
    } else {
        ' '
    };
    if spec_is_line_end_forbidden(last) {
        seq![last]
    } else if spec_is_line_start_forbidden(next) {
        seq![last]
    } else if spec_is_word_char(next) && spec_is_word_char(last) {
        trailing_word(line)
    } else {
        Seq::<char>::empty()
    }
}

/// The committed line and the text handed to the next line (empty when nothing is
/// pulled back, the caller then continuing with `after` itself).
pub open spec fn line_break_result(line: Seq<char>, after: Seq<char>) -> (Seq<char>, Seq<char>) {
    if after.len() == 0 {
        (line, Seq::<char>::empty())
    } else {
        let p = pulled_back(line, after);
        if p.len() == 0 {
            (line, Seq::<char>::empty())
        } else {
            (line.take(line.len() - p.len()), p + after)
        }
    }
}

proof fn lemma_trailing_word_suffix(line: Seq<char>)
    ensures
        trailing_word(line).len() <= line.len(),
        line.take(line.len() - trailing_word(line).len()) + trailing_word(line) == line,
    decreases line.len(),
{
    if line.len() > 0 && spec_is_word_char(line.last()) {
        let d = line.drop_last();
        lemma_trailing_word_suffix(d);
        assert(line.take(line.len() - trailing_word(line).len()) =~= d.take(
            d.len() - trailing_word(d).len(),
        ));
        assert(line.take(line.len() - trailing_word(line).len()) + trailing_word(line) =~= (d.take(
            d.len() - trailing_word(d).len(),
        ) + trailing_word(d)).push(line.last()));
    } else {
        assert(line.take(line.len() as int) =~= line);
    }
}

/// The characters moved to the next line come from the end of the line: the
/// committed line followed by the handed-on text is the line followed by `after`,
/// so the break loses and repeats no character.
pub proof fn lemma_line_break_keeps_text(line: Seq<char>, after: Seq<char>)
    requires
        line.len() > 0,
        after.len() > 0,
        pulled_back(line, after).len() > 0,
    ensures
        line_break_result(line, after).0 + line_break_result(line, after).1 == line + after,
        pulled_back(line, after).len() <= line.len(),
{
    let p = pulled_back(line, after);
    if p == trailing_word(line) && !spec_is_line_end_forbidden(line.last())
        && !spec_is_line_start_forbidden(after[0]) {
        lemma_trailing_word_suffix(line);
    } else {
        assert(p == seq![line.last()]);
        assert(line.take(line.len() - 1) + seq![line.last()] =~= line);
    }
    assert(line.take(line.len() - p.len()) + (p + after) =~= (line.take(line.len() - p.len())
        + p) + after);
}

/// Applies the line-break rules to a line filled by width, `after` being the rest
/// of the paragraph; returns the committed line and the text for the next line.
pub fn apply_linebreak_rules(line_text: &str, after: &str) -> (r: (String, String))
    requires
        !(line_text@.len() == 0 && after@.len() > 0 && spec_is_line_start_forbidden(after@[0])),
    ensures
        (r.0@, r.1@) == line_break_result(line_text@, after@),
{
    let line = chars_of(line_text);
    let rest = chars_of(after);
    if rest.len() == 0 {
        return (string_from_chars(line.as_slice()), String::new());
    }
    let next = rest[0];
    let last = if line.len() > 0 {
        line[line.len() - 1]
    } else {
        ' '
    };
    let mut pull: usize = 0;
    if is_line_end_forbidden(last) || is_line_start_forbidden(next) {
        pull = 1;
    } else if is_word_char(next) && is_word_char(last) {
        let n = line.len();
        while pull < n && is_word_char(line[n - 1 - pull])
            invariant
                n == line@.len(),
                pull <= n,
                forall|j: int| n - pull <= j < n ==> spec_is_word_char(#[trigger] line@[j]),
            decreases n - pull,
        {
            pull = pull + 1;
        }
        proof {
            lemma_trailing_word_exact(line@, pull as int);
        }
    }
    if pull == 0 {
        return (string_from_chars(line.as_slice()), String::new());
    }
    let keep = line.len() - pull;
    let mut committed: Vec<char> = Vec::new();
    let mut i: usize = 0;
    while i < keep
        invariant
            keep <= line@.len(),
            i <= keep,
            committed@ == line@.take(i as int),
        decreases keep - i,
    {
        committed.push(line[i]);
        i = i + 1;
    }
    let mut handed: Vec<char> = Vec::new();
    let mut j: usize = keep;
    while j < line.len()
        invariant
            keep <= j <= line@.len(),
            handed@ == line@.subrange(keep as int, j as int),
        decreases line@.len() - j,
    {
        handed.push(line[j]);
        j = j + 1;
    }
    let mut k: usize = 0;
    let ghost h0 = handed@;
    while k < rest.len()
        invariant
            k <= rest@.len(),
            handed@ == h0 + rest@.take(k as int),
        decreases rest@.len() - k,
    {
        handed.push(rest[k]);
        k = k + 1;
    }
    proof {
        assert(rest@.take(rest@.len() as int) =~= rest@);
        let p = pulled_back(line@, rest@);
        if spec_is_line_end_forbidden(last) || spec_is_line_start_forbidden(next) {
            assert(p == seq![line@.last()]);
            assert(line@.subrange(keep as int, line@.len() as int) =~= p);
        } else {
            lemma_trailing_word_suffix(line@);
            assert(p == trailing_word(line@));
            assert(line@.subrange(keep as int, line@.len() as int) =~= p) by {
                assert(line@.take(line@.len() - p.len()) + p == line@);
                assert forall|x: int| 0 <= x < p.len() implies line@.subrange(
                    keep as int,
                    line@.len() as int,
                )[x] == p[x] by {
                    assert((line@.take(line@.len() - p.len()) + p)[keep + x] == p[x]);
                }
            }
        }
    }
    (string_from_chars(committed.as_slice()), string_from_chars(handed.as_slice()))
}

/// The trailing word is exactly the last `k` characters when they are word
/// characters and the one before them is not (or there is none).
proof fn lemma_trailing_word_exact(line: Seq<char>, k: int)
    requires
        0 <= k <= line.len(),
        forall|j: int| line.len() - k <= j < line.len() ==> spec_is_word_char(#[trigger] line[j]),
        k == line.len() || !spec_is_word_char(line[line.len() - 1 - k]),
    ensures
        trailing_word(line).len() == k,
    decreases k,
{
    if k > 0 {
        let d = line.drop_last();
        assert(spec_is_word_char(line[line.len() - 1]));
        assert forall|j: int| d.len() - (k - 1) <= j < d.len() implies spec_is_word_char(#[trigger] d[j]) by {
            assert(d[j] == line[j]);
        }
        if k < line.len() {
            assert(d[d.len() - 1 - (k - 1)] == line[line.len() - 1 - k]);
        }
        lemma_trailing_word_exact(d, k - 1);
    } else if line.len() > 0 {
        assert(line.last() == line[line.len() - 1]);
    }
}

} // verus!
