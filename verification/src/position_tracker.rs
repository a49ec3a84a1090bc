//! Reading position tracking across layout configuration changes.
//!
//! A position is saved with its character offset (independent of layout) and its
//! page index (valid only for the configuration it was saved under). When the
//! configuration changes, the page is found again from the character offset.
use vstd::prelude::*;

verus! {

/// A saved reading position.
#[derive(Debug)]
pub struct ReadPosition {
    pub book_id: String,
    pub chapter_index: usize,
    /// Character offset within the chapter.
    pub char_offset: usize,
    /// Page index (depends on the layout configuration).
    pub page_index: usize,
    /// Hash of the layout configuration the position was saved under.
    pub config_hash: u64,
}

impl Clone for ReadPosition {
    fn clone(&self) -> (r: ReadPosition)
        ensures
            r == *self,
    {
        ReadPosition {
            book_id: self.book_id.clone(),
            chapter_index: self.chapter_index,
            char_offset: self.char_offset,
            page_index: self.page_index,
            config_hash: self.config_hash,
        }
    }
}

/// Character span of one page.
#[derive(Debug, Clone, Copy)]
pub struct PageInfo {
    pub page_index: usize,
    pub start_char_index: usize,
    pub end_char_index: usize,
}

/// The page to restore to: the saved page when the configuration is unchanged,
/// otherwise the page holding the saved offset; nothing when no position was saved.
pub open spec fn restored_page(saved: Option<ReadPosition>, h: u64, pages: Seq<PageInfo>) -> Option<usize> {
    match saved {
        Some(p) => Some(
            if p.config_hash == h {
                p.page_index
            } else {
                find_page_spec(pages, p.char_offset as int) as usize
            },
        ),
        None => None,
    }
}

/// Keeps the current reading position.
pub struct ReadPositionTracker {
    position: Option<ReadPosition>,
}

/// Binary search over `pages[left..right]` for the page holding `off`, as
/// `find_page_by_char_offset` runs it: the index found, or where the search stopped.
pub open spec fn bsearch(pages: Seq<PageInfo>, off: int, left: int, right: int) -> int
    decreases right - left,
{
    if left < right {
        let mid = left + (right - left) / 2;
        if off < pages[mid].start_char_index {
            bsearch(pages, off, left, mid)
        } else if off >= pages[mid].end_char_index {
            bsearch(pages, off, mid + 1, right)
        } else {
            mid
        }
    } else {
        left
    }
}

/// The page `find_page_by_char_offset` returns: 0 for no pages, else the search
/// result clamped to the last page.
pub open spec fn find_page_spec(pages: Seq<PageInfo>, off: int) -> int {
    if pages.len() == 0 {
        0
    } else {
        let l = bsearch(pages, off, 0, pages.len() as int);
        if l < pages.len() - 1 {
            l
        } else {
            pages.len() - 1
        }
    }
}

/// Pages in reading order: each non-empty, each starting where the previous ends.
pub open spec fn pages_contiguous(pages: Seq<PageInfo>) -> bool {
    &&& forall|i: int| 0 <= i < pages.len() ==> #[trigger] pages[i].start_char_index
        < pages[i].end_char_index
    &&& forall|i: int|
        0 <= i < pages.len() - 1 ==> #[trigger] pages[i].end_char_index == pages[i
            + 1].start_char_index
}

impl ReadPositionTracker {
    /// The saved position, if any.
    pub closed spec fn saved(&self) -> Option<ReadPosition> {
        self.position
    }

    /// A tracker with no position.
    pub fn new() -> (t: ReadPositionTracker)
        ensures
            t.saved() is None,
    {
        ReadPositionTracker { position: None }
    }

    /// Saves a position, replacing the previous one.
    pub fn save_position(&mut self, position: ReadPosition)
        ensures
            final(self).saved() == Some(position),
    {
        self.position = Some(position);
    }

    /// The saved position.
    pub fn current_position(&self) -> (r: Option<&ReadPosition>)
        ensures
            match self.saved() {
                Some(p) => r == Some(&p),
                None => r is None,
            },
    {
        match &self.position {
            Some(p) => Some(p),
            None => None,
        }
    }

    /// Whether a position was saved under a configuration other than `new_config_hash`.
    pub fn config_changed(&self, new_config_hash: u64) -> (b: bool)
        ensures
            b == match self.saved() {
                Some(p) => p.config_hash != new_config_hash,
                None => false,
            },
    {
        match &self.position {
            Some(p) => p.config_hash != new_config_hash,
            None => false,
        }
    }

    /// The page that holds `char_offset`, by binary search over the pages.
    pub fn find_page_by_char_offset(pages: &[PageInfo], char_offset: usize) -> (r: usize)
        ensures
            r as int == find_page_spec(pages@, char_offset as int),
            pages@.len() > 0 ==> r < pages@.len(),
    {
        if pages.len() == 0 {
            return 0;
        }
        let mut left: usize = 0;
        let mut right: usize = pages.len();
        while left < right
            invariant
                left <= right <= pages@.len(),
                bsearch(pages@, char_offset as int, left as int, right as int) == bsearch(
                    pages@,
                    char_offset as int,
                    0,
                    pages@.len() as int,
                ),
            decreases right - left,
        {
            let mid = left + (right - left) / 2;
            let page = &pages[mid];
            if char_offset < page.start_char_index {
                right = mid;
            } else if char_offset >= page.end_char_index {
                left = mid + 1;
            } else {
                return mid;
            }
        }
        if left < pages.len() - 1 {
            left
        } else {
            pages.len() - 1
        }
    }

    /// The page to restore to under `new_config_hash`: the saved page when the
    /// configuration is unchanged, otherwise the page holding the saved offset.
    pub fn restore_position(&self, new_config_hash: u64, pages: &[PageInfo]) -> (r: Option<usize>)
        ensures
            r == restored_page(self.saved(), new_config_hash, pages@),
    {
        match &self.position {
            Some(pos) => {
                if pos.config_hash == new_config_hash {
                    Some(pos.page_index)
                } else {
                    Some(Self::find_page_by_char_offset(pages, pos.char_offset))
                }
            },
            None => None,
        }
    }
}

impl Default for ReadPositionTracker {
    fn default() -> (t: ReadPositionTracker)
        ensures
            t.saved() is None,
    {
        Self::new()
    }
}

// ───────────────────────── laws ─────────────────────────

proof fn lemma_bsearch_finds(pages: Seq<PageInfo>, off: int, left: int, right: int, k: int)
    requires
        pages_contiguous(pages),
        0 <= left <= k < right <= pages.len(),
        pages[k].start_char_index <= off < pages[k].end_char_index,
    ensures
        bsearch(pages, off, left, right) == k,
    decreases right - left,
{
    let mid = left + (right - left) / 2;
    if off < pages[mid].start_char_index {
        if k >= mid {
            lemma_starts_ordered(pages, mid, k);
        }
        lemma_bsearch_finds(pages, off, left, mid, k);
    } else if off >= pages[mid].end_char_index {
        if k <= mid {
            lemma_starts_ordered(pages, k, mid);
        }
        lemma_bsearch_finds(pages, off, mid + 1, right, k);
    } else {
        if k < mid {
            lemma_starts_ordered(pages, k, mid);
        } else if k > mid {
            lemma_starts_ordered(pages, mid, k);
        }
    }
}

/// In contiguous pages, a later page starts no earlier than an earlier one ends.
proof fn lemma_starts_ordered(pages: Seq<PageInfo>, a: int, b: int)
    requires
        pages_contiguous(pages),
        0 <= a <= b < pages.len(),
    ensures
        a < b ==> pages[a].end_char_index <= pages[b].start_char_index,
        pages[a].start_char_index <= pages[b].start_char_index,
    decreases b - a,
{
    if a < b {
        lemma_starts_ordered(pages, a, b - 1);
        assert(pages[b - 1].end_char_index == pages[b].start_char_index);
    }
}

/// On contiguous pages, the page found for an offset is the page that holds it.
pub proof fn lemma_find_page_holds_offset(pages: Seq<PageInfo>, off: int, k: int)
    requires
        pages_contiguous(pages),
        0 <= k < pages.len(),
        pages[k].start_char_index <= off < pages[k].end_char_index,
    ensures
        find_page_spec(pages, off) == k,
{
    lemma_bsearch_finds(pages, off, 0, pages.len() as int, k);
}

/// After a position is saved, restoring under the configuration it was saved with
/// gives back its page; under another configuration, the page that holds its
/// character offset (when the pages run contiguously over that offset).
pub proof fn lemma_restore_after_save(p: ReadPosition, h: u64, pages: Seq<PageInfo>)
    ensures
        p.config_hash == h ==> restored_page(Some(p), h, pages) == Some(p.page_index),
        pages_contiguous(pages) && 0 < pages.len() && pages[0].start_char_index <= p.char_offset
            < pages.last().end_char_index && p.config_hash != h ==> {
            let k = find_page_spec(pages, p.char_offset as int);
            &&& restored_page(Some(p), h, pages) == Some(k as usize)
            &&& pages[k].start_char_index <= p.char_offset < pages[k].end_char_index
        },
{
    if pages_contiguous(pages) && 0 < pages.len() && pages[0].start_char_index <= p.char_offset
        < pages.last().end_char_index {
        let k = lemma_page_holding(pages, p.char_offset as int, 0);
        lemma_find_page_holds_offset(pages, p.char_offset as int, k);
    }
}

/// In contiguous pages, an offset inside `[pages[i].start, last.end)` lies in some
/// page from `i` on.
proof fn lemma_page_holding(pages: Seq<PageInfo>, off: int, i: int) -> (k: int)
    requires
        pages_contiguous(pages),
        0 <= i < pages.len(),
        pages[i].start_char_index <= off < pages.last().end_char_index,
    ensures
        i <= k < pages.len(),
        pages[k].start_char_index <= off < pages[k].end_char_index,
    decreases pages.len() - i,
{
    if off < pages[i].end_char_index {
        i
    } else {
        assert(pages[i].end_char_index == pages[i + 1].start_char_index);
        lemma_page_holding(pages, off, i + 1)
    }
}

} // verus!
