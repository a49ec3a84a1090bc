//! Three-chapter sliding window of laid-out pages: previous, current and next
//! chapter. The window logic does not look into pages, so the page type is a
//! parameter.
use vstd::prelude::*;

verus! {

/// The pages of one chapter.
#[derive(Debug, Clone)]
pub struct CachedChapterPages<P> {
    pub chapter_index: usize,
    pub pages: Vec<P>,
    /// Total word count.
    pub word_count: usize,
}

impl<P> CachedChapterPages<P> {
    pub fn new(chapter_index: usize, pages: Vec<P>, word_count: usize) -> (c: CachedChapterPages<P>)
        ensures
            c.chapter_index == chapter_index,
            c.pages@ == pages@,
            c.word_count == word_count,
    {
        CachedChapterPages { chapter_index, pages, word_count }
    }

    /// Number of pages.
    pub fn page_count(&self) -> (n: usize)
        ensures
            n == self.pages@.len(),
    {
        self.pages.len()
    }

    /// Page `page_index`, if there is one.
    pub fn get_page(&self, page_index: usize) -> (r: Option<&P>)
        ensures
            page_index < self.pages@.len() ==> r == Some(&self.pages@[page_index as int]),
            page_index >= self.pages@.len() ==> r is None,
    {
        if page_index < self.pages.len() {
            Some(&self.pages[page_index])
        } else {
            None
        }
    }
}

/// Number of pages held by a slot.
pub open spec fn slot_pages<P>(s: Option<CachedChapterPages<P>>) -> nat {
    match s {
        Some(c) => c.pages@.len(),
        None => 0,
    }
}

/// `b` is `a` moved one chapter forward.
pub open spec fn moved_next<P>(a: ChapterCache<P>, b: ChapterCache<P>) -> bool {
    &&& b.prev == a.current
    &&& b.current == a.next
    &&& b.next is None
    &&& b.current_index == a.current_index + 1
}

/// `b` is `a` moved one chapter back.
pub open spec fn moved_prev<P>(a: ChapterCache<P>, b: ChapterCache<P>) -> bool {
    &&& b.next == a.current
    &&& b.current == a.prev
    &&& b.prev is None
    &&& b.current_index == if a.current_index > 0 { a.current_index - 1 } else { 0 }
}

/// A step forward then a step back brings back the current and next chapters
/// and the index; only the previous chapter is dropped.
pub proof fn lemma_forward_then_back<P>(a: ChapterCache<P>, b: ChapterCache<P>, c: ChapterCache<P>)
    requires
        moved_next(a, b),
        moved_prev(b, c),
    ensures
        c.current == a.current,
        c.next == a.next,
        c.prev is None,
        c.current_index == a.current_index,
{
}

/// Sliding window cache: previous chapter (full), current chapter (full), next
/// chapter (its first pages).
pub struct ChapterCache<P> {
    pub prev: Option<CachedChapterPages<P>>,
    pub current: Option<CachedChapterPages<P>>,
    pub next: Option<CachedChapterPages<P>>,
    pub current_index: usize,
}

impl<P> ChapterCache<P> {
    /// Pages held in the three slots together.
    pub open spec fn cached_pages(&self) -> nat {
        slot_pages(self.prev) + slot_pages(self.current) + slot_pages(self.next)
    }

    /// An empty window at chapter 0.
    pub fn new() -> (c: ChapterCache<P>)
        ensures
            c.prev is None,
            c.current is None,
            c.next is None,
            c.current_index == 0,
    {
        ChapterCache { prev: None, current: None, next: None, current_index: 0 }
    }

    /// Moves to the next chapter: the previous slot takes the current chapter, the
    /// current slot the next one; the next slot is emptied.
    pub fn move_to_next(&mut self)
        requires
            old(self).current_index < usize::MAX,
        ensures
            moved_next(*old(self), *final(self)),
    {
        self.prev = self.current.take();
        self.current = self.next.take();
        self.next = None;
        self.current_index = self.current_index + 1;
    }

    /// Moves to the previous chapter: the next slot takes the current chapter, the
    /// current slot the previous one; the previous slot is emptied. The index stays
    /// at 0 at the start.
    pub fn move_to_prev(&mut self)
        ensures
            moved_prev(*old(self), *final(self)),
    {
        self.next = self.current.take();
        self.current = self.prev.take();
        self.prev = None;
        if self.current_index > 0 {
            self.current_index = self.current_index - 1;
        }
    }

    /// Jumps to a chapter: the window is emptied.
    pub fn jump_to(&mut self, chapter_index: usize)
        ensures
            final(self).prev is None,
            final(self).current is None,
            final(self).next is None,
            final(self).current_index == chapter_index,
    {
        self.prev = None;
        self.current = None;
        self.next = None;
        self.current_index = chapter_index;
    }

    pub fn set_current(&mut self, cache: CachedChapterPages<P>)
        ensures
            final(self).current == Some(cache),
            final(self).prev == old(self).prev,
            final(self).next == old(self).next,
            final(self).current_index == old(self).current_index,
    {
        self.current = Some(cache);
    }

    pub fn set_prev(&mut self, cache: CachedChapterPages<P>)
        ensures
            final(self).prev == Some(cache),
            final(self).current == old(self).current,
            final(self).next == old(self).next,
            final(self).current_index == old(self).current_index,
    {
        self.prev = Some(cache);
    }

    pub fn set_next(&mut self, cache: CachedChapterPages<P>)
        ensures
            final(self).next == Some(cache),
            final(self).prev == old(self).prev,
            final(self).current == old(self).current,
            final(self).current_index == old(self).current_index,
    {
        self.next = Some(cache);
    }

    pub fn current_pages(&self) -> (r: Option<&CachedChapterPages<P>>)
        ensures
            r is Some == self.current is Some,
            r matches Some(c) ==> *c == self.current.unwrap(),
    {
        match &self.current {
            Some(c) => Some(c),
            None => None,
        }
    }

    pub fn prev_pages(&self) -> (r: Option<&CachedChapterPages<P>>)
        ensures
            r is Some == self.prev is Some,
            r matches Some(c) ==> *c == self.prev.unwrap(),
    {
        match &self.prev {
            Some(c) => Some(c),
            None => None,
        }
    }

    pub fn next_pages(&self) -> (r: Option<&CachedChapterPages<P>>)
        ensures
            r is Some == self.next is Some,
            r matches Some(c) ==> *c == self.next.unwrap(),
    {
        match &self.next {
            Some(c) => Some(c),
            None => None,
        }
    }

    pub fn current_index(&self) -> (i: usize)
        ensures
            i == self.current_index,
    {
        self.current_index
    }

    pub fn has_current(&self) -> (b: bool)
        ensures
            b == self.current is Some,
    {
        self.current.is_some()
    }

    pub fn has_prev(&self) -> (b: bool)
        ensures
            b == self.prev is Some,
    {
        self.prev.is_some()
    }

    pub fn has_next(&self) -> (b: bool)
        ensures
            b == self.next is Some,
    {
        self.next.is_some()
    }

    /// Pages held in the window.
    pub fn total_cached_pages(&self) -> (n: usize)
        requires
            self.cached_pages() <= usize::MAX,
        ensures
            n == self.cached_pages(),
    {
        let mut total: usize = 0;
        if let Some(prev) = &self.prev {
            total = total + prev.page_count();
        }
        if let Some(current) = &self.current {
            total = total + current.page_count();
        }
        if let Some(next) = &self.next {
            total = total + next.page_count();
        }
        total
    }

    /// Rough memory estimate in bytes: 10 KiB per page.
    pub fn estimate_memory_usage(&self) -> (n: usize)
        requires
            self.cached_pages() * 10240 <= usize::MAX,
        ensures
            n == self.cached_pages() * 10240,
    {
        self.total_cached_pages() * 10 * 1024
    }

    /// Empties the three slots (the index stays).
    pub fn clear(&mut self)
        ensures
            final(self).prev is None,
            final(self).current is None,
            final(self).next is None,
            final(self).current_index == old(self).current_index,
    {
        self.prev = None;
        self.current = None;
        self.next = None;
    }
}

impl<P> Default for ChapterCache<P> {
    fn default() -> (c: ChapterCache<P>)
        ensures
            c.prev is None,
            c.current is None,
            c.next is None,
            c.current_index == 0,
    {
        ChapterCache::new()
    }
}

} // verus!
