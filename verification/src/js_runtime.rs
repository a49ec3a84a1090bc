//! Data exchanged with a script engine: the execution context of a script rule
//! and engine statistics.
use vstd::prelude::*;
use crate::text::{chars_of, string_from_chars};

verus! {

/// Execution context of a script: book and chapter metadata and the chapter text.
#[derive(Debug, Clone)]
pub struct JsExecContext {
    pub book_title: String,
    pub book_author: String,
    pub book_url: String,
    pub chapter_title: String,
    pub chapter_index: usize,
    pub chapter_url: String,
    pub chapter_content: String,
}

impl Default for JsExecContext {
    fn default() -> (c: JsExecContext)
        ensures
            c.book_title@.len() == 0,
            c.book_author@.len() == 0,
            c.book_url@.len() == 0,
            c.chapter_title@.len() == 0,
            c.chapter_index == 0,
            c.chapter_url@.len() == 0,
            c.chapter_content@.len() == 0,
    {
        JsExecContext {
            book_title: String::new(),
            book_author: String::new(),
            book_url: String::new(),
            chapter_title: String::new(),
            chapter_index: 0,
            chapter_url: String::new(),
            chapter_content: String::new(),
        }
    }
}

/// Statistics of one engine instance.
#[derive(Debug)]
pub struct JsRuntimeStats {
    pub usage_count: usize,
    pub age: std::time::Duration,
}

impl Clone for JsRuntimeStats {
    fn clone(&self) -> (r: JsRuntimeStats)
        ensures
            r == *self,
    {
        JsRuntimeStats { usage_count: self.usage_count, age: self.age }
    }
}

/// Statistics of an engine pool.
#[derive(Debug, Clone, Default)]
pub struct PoolStats {
    pub total_acquisitions: usize,
    pub total_releases: usize,
    pub cache_hits: usize,
    pub cache_misses: usize,
    pub max_wait_time_ms: u64,
}

/// Current state of an engine pool.
#[derive(Debug, Clone)]
pub struct PoolStatus {
    pub available: usize,
    pub created: usize,
    pub max_size: usize,
}

/// How one character is written inside a double-quoted script string literal.
pub open spec fn js_escaped_char(c: char) -> Seq<char> {
    if c == '\\' {
        seq!['\\', '\\']
    } else if c == '"' {
        seq!['\\', '"']
    } else if c == '\n' {
        seq!['\\', 'n']
    } else if c == '\r' {
        seq!['\\', 'r']
    } else if c == '\t' {
        seq!['\\', 't']
    } else {
        seq![c]
    }
}

/// The characters of `s`, each escaped.
pub open spec fn js_escaped(s: Seq<char>) -> Seq<char>
    decreases s.len(),
{
    if s.len() == 0 {
        s
    } else {
        js_escaped(s.drop_last()) + js_escaped_char(s.last())
    }
}

/// `s` as a double-quoted script string literal: backslash, double quote, line
/// feed, carriage return and tab escaped.
pub fn escape_js_string(s: &str) -> (r: String)
    ensures
        r@ == seq!['"'] + js_escaped(s@) + seq!['"'],
{
    let cs = chars_of(s);
    let mut out: Vec<char> = Vec::new();
    out.push('"');
    let mut i: usize = 0;
    proof {
        assert(cs@.take(0) =~= Seq::<char>::empty());
    }
    while i < cs.len()
        invariant
            i <= cs@.len(),
            out@ == seq!['"'] + js_escaped(cs@.take(i as int)),
        decreases cs@.len() - i,
    {
        proof {
            assert(cs@.take(i + 1).drop_last() =~= cs@.take(i as int));
        }
        let c = cs[i];
        let ghost before = out@;
        if c == '\\' {
            out.push('\\');
            out.push('\\');
        } else if c == '"' {
            out.push('\\');
            out.push('"');
        } else if c == '\n' {
            out.push('\\');
            out.push('n');
        } else if c == '\r' {
            out.push('\\');
            out.push('r');
        } else if c == '\t' {
            out.push('\\');
            out.push('t');
        } else {
            out.push(c);
        }
        proof {
            assert(out@ =~= before + js_escaped_char(c));
        }
        i = i + 1;
    }
    proof {
        assert(cs@.take(cs@.len() as int) =~= cs@);
    }
    out.push('"');
    string_from_chars(out.as_slice())
}

} // verus!
