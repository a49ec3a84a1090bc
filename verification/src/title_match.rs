//! Recognising a chapter title repeated among the first lines of a chapter: titles
//! are compared without decorators and whitespace, for equality, containment or
//! edit distance (`strsim::levenshtein`).
use vstd::prelude::*;
use crate::text::{
    chars_of, string_from_chars, split_lines, lines, trim, is_ws, is_whitespace, trim_bounds, views,
    join, join_chars, push_all, occurs_at,
};
use crate::paragraph_splitter::slice_range;

verus! {

/// Brackets and punctuation left out when titles are compared.
pub open spec fn is_title_decorator(c: char) -> bool {
    ||| c == '【' || c == '】' || c == '「' || c == '」' || c == '《' || c == '》'
    ||| c == '『' || c == '』' || c == '[' || c == ']' || c == '(' || c == ')'
    ||| c == '<' || c == '>' || c == '{' || c == '}' || c == '：' || c == ':'
    ||| c == '。' || c == '.' || c == '！' || c == '!'
}

fn title_decorator(c: char) -> (b: bool)
    ensures
        b == is_title_decorator(c),
{
    c == '【' || c == '】' || c == '「' || c == '」' || c == '《' || c == '》' || c == '『' || c
        == '』' || c == '[' || c == ']' || c == '(' || c == ')' || c == '<' || c == '>' || c
        == '{' || c == '}' || c == '：' || c == ':' || c == '。' || c == '.' || c == '！' || c
        == '!'
}

/// The characters that title comparison keeps: neither whitespace nor decorators.
pub open spec fn title_keeps() -> spec_fn(char) -> bool {
    |c: char| !is_ws(c) && !is_title_decorator(c)
}

/// A title without its whitespace and decorators.
pub open spec fn cleaned_title(s: Seq<char>) -> Seq<char> {
    s.filter(title_keeps())
}

fn cleaned_chars(s: &[char]) -> (r: Vec<char>)
    ensures
        r@ == cleaned_title(s@),
{
    let mut r: Vec<char> = Vec::new();
    let mut i: usize = 0;
    while i < s.len()
        invariant
            i <= s@.len(),
            r@ == cleaned_title(s@.take(i as int)),
        decreases s@.len() - i,
    {
        proof {
            assert(s@.take(i + 1) =~= s@.take(i as int).push(s@[i as int]));
            s@.take(i as int).lemma_filter_push(s@[i as int], title_keeps());
        }
        let c = s[i];
        if !is_whitespace(c) && !title_decorator(c) {
            r.push(c);
        }
        i = i + 1;
    }
    proof {
        assert(s@.take(s@.len() as int) =~= s@);
    }
    r
}

/// The title without whitespace and decorators.
pub fn clean_title(title: &str) -> (r: String)
    ensures
        r@ == cleaned_title(title@),
{
    let v = chars_of(title);
    let c = cleaned_chars(v.as_slice());
    string_from_chars(c.as_slice())
}

/// `t` occurs in `s`.
pub open spec fn has_infix(s: Seq<char>, t: Seq<char>) -> bool {
    exists|i: int| 0 <= i && i + t.len() <= s.len() && #[trigger] s.subrange(i, i + t.len()) == t
}

fn contains_chars(s: &[char], t: &[char]) -> (b: bool)
    ensures
        b == has_infix(s@, t@),
{
    if t.len() > s.len() {
        return false;
    }
    let last = s.len() - t.len();
    let mut i: usize = 0;
    while i < last
        invariant
            i <= last,
            last + t@.len() == s@.len(),
            forall|j: int| 0 <= j < i ==> #[trigger] s@.subrange(j, j + t@.len()) != t@,
        decreases last - i,
    {
        if occurs_at(s, i, t) {
            return true;
        }
        i = i + 1;
    }
    occurs_at(s, last, t)
}

/// The Levenshtein distance between two texts: the least number of
/// single-character insertions, deletions and substitutions that turn `a` into `b`.
pub open spec fn edit_distance_of(a: Seq<char>, b: Seq<char>) -> nat
    decreases a.len() + b.len(),
{
    if a.len() == 0 {
        b.len()
    } else if b.len() == 0 {
        a.len()
    } else {
        let sub = edit_distance_of(a.drop_last(), b.drop_last()) + if a.last() == b.last() {
            0nat
        } else {
            1nat
        };
        let del = edit_distance_of(a.drop_last(), b) + 1;
        let ins = edit_distance_of(a, b.drop_last()) + 1;
        if sub <= del && sub <= ins {
            sub
        } else if del <= ins {
            del
        } else {
            ins
        }
    }
}

/// `strsim::levenshtein`: the Levenshtein distance over the characters of the two
/// texts.
#[verifier::external_body]
fn edit_distance(a: &str, b: &str) -> (d: usize)
    ensures
        d as nat == edit_distance_of(a@, b@),
{
    strsim::levenshtein(a, b)
}

/// How two cleaned titles compare.
#[derive(Debug, Clone, Copy, PartialEq, Eq, Structural)]
pub enum TitleSimilarity {
    /// The two titles are equal.
    Same,
    /// The titles differ and one of them is empty.
    Unrelated,
    /// The titles differ, neither is empty, and one occurs inside the other.
    Contained,
    /// Otherwise: the edit distance between the two titles.
    Distance(usize),
}

/// How `s1` and `s2` compare: equality first, then emptiness, then containment
/// either way, then the edit distance.
pub open spec fn title_similarity_of(s1: Seq<char>, s2: Seq<char>) -> TitleSimilarity {
    if s1 == s2 {
        TitleSimilarity::Same
    } else if s1.len() == 0 || s2.len() == 0 {
        TitleSimilarity::Unrelated
    } else if has_infix(s2, s1) || has_infix(s1, s2) {
        TitleSimilarity::Contained
    } else {
        TitleSimilarity::Distance(edit_distance_of(s1, s2) as usize)
    }
}

/// Compares two cleaned titles. A caller turns `Distance` into a similarity score
/// against the longer title.
pub fn title_similarity(s1: &str, s2: &str) -> (r: TitleSimilarity)
    ensures
        r == title_similarity_of(s1@, s2@),
{
    let a = chars_of(s1);
    let b = chars_of(s2);
    if a.len() == b.len() && contains_chars(a.as_slice(), b.as_slice()) {
        proof {
            let i = choose|i: int| 0 <= i && i + b@.len() <= a@.len() && #[trigger] a@.subrange(i, i + b@.len()) == b@;
            assert(i == 0);
            assert(a@.subrange(0, a@.len() as int) =~= a@);
        }
        return TitleSimilarity::Same;
    }
    proof {
        if a@ == b@ {
            assert(a@.subrange(0int, 0int + b@.len()) =~= b@);
            assert(has_infix(a@, b@));
        }
    }
    if a.len() == 0 || b.len() == 0 {
        return TitleSimilarity::Unrelated;
    }
    if contains_chars(b.as_slice(), a.as_slice()) || contains_chars(a.as_slice(), b.as_slice()) {
        return TitleSimilarity::Contained;
    }
    TitleSimilarity::Distance(edit_distance(s1, s2))
}

/// Index and cleaned text of each of the first `n` lines whose trimmed text is
/// not empty.
pub open spec fn candidates_in(ls: Seq<Seq<char>>, n: int) -> Seq<(int, Seq<char>)>
    decreases n,
{
    if n <= 0 {
        Seq::<(int, Seq<char>)>::empty()
    } else {
        let prev = candidates_in(ls, n - 1);
        if trim(ls[n - 1]).len() > 0 {
            prev.push((n - 1, cleaned_title(trim(ls[n - 1]))))
        } else {
            prev
        }
    }
}

/// The candidate lines for a repeated title: among the first `max_lines` lines of
/// the content, each that is not blank, with its cleaned text.
pub open spec fn title_candidates_of(content: Seq<char>, max_lines: int) -> Seq<(int, Seq<char>)> {
    let ls = lines(content);
    candidates_in(ls, if max_lines < ls.len() { max_lines } else { ls.len() as int })
}

/// View of candidate lines.
pub open spec fn candidate_views(v: Seq<(usize, String)>) -> Seq<(int, Seq<char>)> {
    v.map_values(|p: (usize, String)| (p.0 as int, p.1@))
}

/// The lines where a repeated title may stand: index and cleaned text of each
/// of the first `max_search_lines` lines that is not blank.
pub fn title_candidates(content: &str, max_search_lines: usize) -> (r: Vec<(usize, String)>)
    ensures
        candidate_views(r@) == title_candidates_of(content@, max_search_lines as int),
{
    let cv = chars_of(content);
    let ls = split_lines(cv.as_slice());
    let ghost lv = views(ls@);
    let n = if max_search_lines < ls.len() { max_search_lines } else { ls.len() };
    let mut r: Vec<(usize, String)> = Vec::new();
    let mut i: usize = 0;
    while i < n
        invariant
            i <= n <= ls@.len(),
            lv == views(ls@),
            candidate_views(r@) == candidates_in(lv, i as int),
        decreases n - i,
    {
        let line = &ls[i];
        assert(lv[i as int] == line@);
        let (a, b) = trim_bounds(line.as_slice(), 0, line.len());
        proof {
            assert(line@.subrange(0, line@.len() as int) =~= line@);
        }
        let ghost r0 = r@;
        if a < b {
            let t = slice_range(line.as_slice(), a, b);
            let c = cleaned_chars(t.as_slice());
            r.push((i, string_from_chars(c.as_slice())));
            proof {
                assert(candidate_views(r@) =~= candidate_views(r0).push((i as int, c@)));
            }
        }
        i = i + 1;
    }
    proof {
        assert(lv == lines(content@));
    }
    r
}

/// First index `>= j` whose trimmed line is not empty, else `ls.len()`.
pub open spec fn first_nonblank(ls: Seq<Seq<char>>, j: int) -> int
    decreases ls.len() - j,
{
    if j < 0 || j >= ls.len() {
        ls.len() as int
    } else if trim(ls[j]).len() > 0 {
        j
    } else {
        first_nonblank(ls, j + 1)
    }
}

/// The content after line `index`, the blank lines that follow it left out,
/// lines rejoined with `\n`.
pub open spec fn after_title_line(content: Seq<char>, index: int) -> Seq<char> {
    let ls = lines(content);
    join(ls.skip(first_nonblank(ls, index + 1)), seq!['\n'])
}

/// Drops line `index` with the blank lines that follow it, and everything before
/// it: what remains of the content once a title found at that line is removed.
pub fn drop_title_line(content: &str, index: usize) -> (r: String)
    ensures
        r@ == after_title_line(content@, index as int),
{
    let cv = chars_of(content);
    let ls = split_lines(cv.as_slice());
    let ghost lv = views(ls@);
    let n = ls.len();
    let mut j: usize = if index < n { index + 1 } else { n };
    proof {
        if index >= n {
            assert(first_nonblank(lv, index + 1) == n);
        }
    }
    let mut found = false;
    while j < n && !found
        invariant
            j <= n == ls@.len() == lv.len(),
            lv == views(ls@),
            first_nonblank(lv, index + 1) == first_nonblank(lv, j as int),
            found ==> j < n && trim(lv[j as int]).len() > 0,
        decreases n - j, if found { 0int } else { 1int },
    {
        let (a, b) = trim_bounds(ls[j].as_slice(), 0, ls[j].len());
        proof {
            assert(lv[j as int] == ls@[j as int]@);
            assert(ls@[j as int]@.subrange(0, ls@[j as int]@.len() as int) =~= ls@[j as int]@);
        }
        if a < b {
            found = true;
        } else {
            j = j + 1;
        }
    }
    proof {
        assert(first_nonblank(lv, j as int) == j);
    }
    let mut out: Vec<Vec<char>> = Vec::new();
    let from = j;
    while j < n
        invariant
            from <= j <= n == ls@.len(),
            lv == views(ls@),
            views(out@) == lv.subrange(from as int, j as int),
        decreases n - j,
    {
        let ghost o0 = out@;
        let mut line: Vec<char> = Vec::new();
        push_all(&mut line, ls[j].as_slice());
        out.push(line);
        proof {
            assert(lv[j as int] == ls@[j as int]@);
            assert(views(out@) =~= views(o0).push(lv[j as int]));
            assert(views(out@) =~= lv.subrange(from as int, j + 1));
        }
        j = j + 1;
    }
    proof {
        assert(lv.subrange(from as int, n as int) =~= lv.skip(from as int));
        assert(lv == lines(content@));
    }
    let nl = vec!['\n'];
    assert(nl@ =~= seq!['\n']);
    let joined = join_chars(&out, nl.as_slice());
    string_from_chars(joined.as_slice())
}

} // verus!
