//! Preload priorities and the default preload strategy.
use vstd::prelude::*;

verus! {

/// Preload priority levels, most urgent first.
#[derive(Debug, Clone, Copy, PartialEq, Eq, PartialOrd, Ord, Hash, Structural)]
pub enum PreloadPriority {
    /// Current chapter: load immediately.
    Critical,
    /// Next chapter.
    High,
    /// Previous chapter.
    Normal,
    /// Distant chapters.
    Low,
}

/// Rank of a priority: 0 for `Critical` up to 3 for `Low`.
pub open spec fn rank(p: PreloadPriority) -> int {
    match p {
        PreloadPriority::Critical => 0,
        PreloadPriority::High => 1,
        PreloadPriority::Normal => 2,
        PreloadPriority::Low => 3,
    }
}

/// A chapter to preload, with its priority.
#[derive(Debug)]
pub struct PreloadTask {
    pub chapter_index: usize,
    pub priority: PreloadPriority,
    pub book_id: String,
}

impl Clone for PreloadTask {
    fn clone(&self) -> (r: PreloadTask)
        ensures
            r == *self,
    {
        PreloadTask {
            chapter_index: self.chapter_index,
            priority: self.priority,
            book_id: self.book_id.clone(),
        }
    }
}

/// Task order: a more urgent priority is greater; among equal priorities, the
/// larger chapter index is greater. `-1`, `0`, `1` for less, equal, greater.
pub open spec fn task_order(a: PreloadTask, b: PreloadTask) -> int {
    if rank(a.priority) < rank(b.priority) {
        1
    } else if rank(a.priority) > rank(b.priority) {
        -1
    } else if a.chapter_index < b.chapter_index {
        -1
    } else if a.chapter_index > b.chapter_index {
        1
    } else {
        0
    }
}

fn priority_rank(p: PreloadPriority) -> (r: u8)
    ensures
        r as int == rank(p),
{
    match p {
        PreloadPriority::Critical => 0,
        PreloadPriority::High => 1,
        PreloadPriority::Normal => 2,
        PreloadPriority::Low => 3,
    }
}

impl PreloadTask {
    /// Compares two tasks for a max-priority queue (book ids are not compared).
    pub fn compare(&self, other: &PreloadTask) -> (r: std::cmp::Ordering)
        ensures
            (r == std::cmp::Ordering::Less) == (task_order(*self, *other) == -1),
            (r == std::cmp::Ordering::Equal) == (task_order(*self, *other) == 0),
            (r == std::cmp::Ordering::Greater) == (task_order(*self, *other) == 1),
    {
        let a = priority_rank(self.priority);
        let b = priority_rank(other.priority);
        if a < b {
            std::cmp::Ordering::Greater
        } else if a > b {
            std::cmp::Ordering::Less
        } else if self.chapter_index < other.chapter_index {
            std::cmp::Ordering::Less
        } else if self.chapter_index > other.chapter_index {
            std::cmp::Ordering::Greater
        } else {
            std::cmp::Ordering::Equal
        }
    }

    /// Tasks are equal when priority and chapter agree.
    pub fn same_task(&self, other: &PreloadTask) -> (b: bool)
        ensures
            b == (task_order(*self, *other) == 0),
    {
        self.priority == other.priority && self.chapter_index == other.chapter_index
    }
}

/// Chooses which chapters to preload around the current one.
pub trait PreloadStrategy {
    fn calculate_preload_chapters(&self, current: usize, total: usize) -> Vec<
        (usize, PreloadPriority),
    >;
}

/// Default strategy: current chapter Critical, next High, previous Normal, then
/// `look_ahead` chapters ahead and `look_behind` behind at Low.
pub struct DefaultPreloadStrategy {
    pub look_ahead: usize,
    pub look_behind: usize,
}

impl Default for DefaultPreloadStrategy {
    fn default() -> (s: DefaultPreloadStrategy)
        ensures
            s.look_ahead == 2,
            s.look_behind == 1,
    {
        DefaultPreloadStrategy { look_ahead: 2, look_behind: 1 }
    }
}

/// Chapters `current + i` for `i` in `2..=n`, those before `total`, at Low.
pub open spec fn ahead_items(current: int, total: int, n: int) -> Seq<(int, PreloadPriority)>
    decreases n,
{
    if n < 2 {
        Seq::empty()
    } else {
        let rest = ahead_items(current, total, n - 1);
        if current + n < total {
            rest.push((current + n, PreloadPriority::Low))
        } else {
            rest
        }
    }
}

/// Chapters `current - i - 1` for `i` in `1..=n`, those that exist, at Low.
pub open spec fn behind_items(current: int, n: int) -> Seq<(int, PreloadPriority)>
    decreases n,
{
    if n < 1 {
        Seq::empty()
    } else {
        let rest = behind_items(current, n - 1);
        if current >= n + 1 {
            rest.push((current - n - 1, PreloadPriority::Low))
        } else {
            rest
        }
    }
}

/// The chapters the default strategy preloads, in the order it lists them.
pub open spec fn preload_plan(current: int, total: int, look_ahead: int, look_behind: int) -> Seq<
    (int, PreloadPriority),
> {
    let a = seq![(current, PreloadPriority::Critical)];
    let b = if current + 1 < total {
        a.push((current + 1, PreloadPriority::High))
    } else {
        a
    };
    let c = if current > 0 {
        b.push((current - 1, PreloadPriority::Normal))
    } else {
        b
    };
    c + ahead_items(current, total, look_ahead) + behind_items(current, look_behind)
}

pub open spec fn plan_view(v: Seq<(usize, PreloadPriority)>) -> Seq<(int, PreloadPriority)> {
    v.map_values(|p: (usize, PreloadPriority)| (p.0 as int, p.1))
}

impl PreloadStrategy for DefaultPreloadStrategy {
    fn calculate_preload_chapters(&self, current: usize, total: usize) -> (r: Vec<
        (usize, PreloadPriority),
    >)
        ensures
            current + self.look_ahead <= usize::MAX && self.look_behind < usize::MAX ==> plan_view(
                r@,
            ) == preload_plan(
                current as int,
                total as int,
                self.look_ahead as int,
                self.look_behind as int,
            ),
            r@.len() >= 1,
            plan_view(r@)[0] == (current as int, PreloadPriority::Critical),
            current < total ==> forall|k: int|
                0 <= k < plan_view(r@).len() ==> 0 <= #[trigger] plan_view(r@)[k].0 < total,
            forall|k: int, l: int|
                0 <= k < l < plan_view(r@).len() ==> #[trigger] plan_view(r@)[k].0
                    != #[trigger] plan_view(r@)[l].0,
    {
        // Indices past `usize::MAX` or a look-behind of `usize::MAX` cannot be
        // listed; the plan is cut short there.
        let mut chapters: Vec<(usize, PreloadPriority)> = Vec::new();
        chapters.push((current, PreloadPriority::Critical));
        if current < usize::MAX && current + 1 < total {
            chapters.push((current + 1, PreloadPriority::High));
        }
        if current > 0 {
            chapters.push((current - 1, PreloadPriority::Normal));
        }
        let ghost base = plan_view(chapters@);
        proof {
            let a = seq![(current as int, PreloadPriority::Critical)];
            assert(base =~= {
                let b = if current + 1 < total {
                    a.push((current + 1, PreloadPriority::High))
                } else {
                    a
                };
                if current > 0 {
                    b.push((current - 1, PreloadPriority::Normal))
                } else {
                    b
                }
            });
        }
        if current > usize::MAX - self.look_ahead || self.look_behind == usize::MAX {
            proof {
                assert(base.len() >= 1 && base[0] == (current as int, PreloadPriority::Critical));
                assert forall|k: int| 0 <= k < base.len() implies current - 1 <= #[trigger] base[k].0
                    <= current + 1 && (k == 0 ==> base[k].0 == current) && (k > 0 ==> base[k].0
                    != current) && (current + 1 >= total ==> base[k].0 <= current) by {}
            }
            return chapters;
        }
        if self.look_ahead >= 2 {
            let n = self.look_ahead - 1;
            let mut k: usize = 0;
            while k < n
                invariant
                    k <= n,
                    n + 1 == self.look_ahead,
                    current + self.look_ahead <= usize::MAX,
                    plan_view(chapters@) == base + ahead_items(current as int, total as int, k + 1),
                decreases n - k,
            {
                let i = k + 2;
                let ghost before = plan_view(chapters@);
                if current + i < total {
                    chapters.push((current + i, PreloadPriority::Low));
                    assert(plan_view(chapters@) =~= before.push((current + i, PreloadPriority::Low)));
                }
                k = k + 1;
            }
        }
        let ghost mid = plan_view(chapters@);
        assert(mid == base + ahead_items(current as int, total as int, self.look_ahead as int))
            by {
            if self.look_ahead < 2 {
                assert(ahead_items(current as int, total as int, self.look_ahead as int) =~= Seq::empty());
                assert(base + Seq::<(int, PreloadPriority)>::empty() =~= base);
            }
        }
        let mut j: usize = 1;
        while j <= self.look_behind
            invariant
                1 <= j <= self.look_behind + 1,
                self.look_behind < usize::MAX,
                plan_view(chapters@) == mid + behind_items(current as int, j - 1),
            decreases self.look_behind + 1 - j,
        {
            let ghost before = plan_view(chapters@);
            if current >= j + 1 {
                chapters.push((current - j - 1, PreloadPriority::Low));
                assert(plan_view(chapters@) =~= before.push((current - j - 1, PreloadPriority::Low)));
            }
            j = j + 1;
        }
        assert(plan_view(chapters@) =~= preload_plan(
            current as int,
            total as int,
            self.look_ahead as int,
            self.look_behind as int,
        ));
        proof {
            lemma_preload_plan(current as int, total as int, self.look_ahead as int, self.look_behind as int);
        }
        chapters
    }
}

// ───────────────────────── laws ─────────────────────────

proof fn lemma_ahead_items(current: int, total: int, n: int)
    ensures
        forall|k: int|
            0 <= k < ahead_items(current, total, n).len() ==> {
                let e = #[trigger] ahead_items(current, total, n)[k];
                current + 2 <= e.0 < total && e.0 <= current + n && e.1 == PreloadPriority::Low
            },
        forall|k: int, l: int|
            0 <= k < l < ahead_items(current, total, n).len() ==> #[trigger] ahead_items(
                current,
                total,
                n,
            )[k].0 < #[trigger] ahead_items(current, total, n)[l].0,
    decreases n,
{
    if n >= 2 {
        lemma_ahead_items(current, total, n - 1);
    }
}

proof fn lemma_behind_items(current: int, n: int)
    ensures
        forall|k: int|
            0 <= k < behind_items(current, n).len() ==> {
                let e = #[trigger] behind_items(current, n)[k];
                current - n - 1 <= e.0 <= current - 2 && 0 <= e.0 && e.1 == PreloadPriority::Low
            },
        forall|k: int, l: int|
            0 <= k < l < behind_items(current, n).len() ==> #[trigger] behind_items(
                current,
                n,
            )[k].0 > #[trigger] behind_items(current, n)[l].0,
    decreases n,
{
    if n >= 1 {
        lemma_behind_items(current, n - 1);
    }
}

/// The plan starts with the current chapter at Critical, lists every chapter at most
/// once, and (for a current chapter inside the book) only chapters inside the book.
pub proof fn lemma_preload_plan(current: int, total: int, look_ahead: int, look_behind: int)
    requires
        0 <= current,
    ensures
        preload_plan(current, total, look_ahead, look_behind)[0] == (
            current,
            PreloadPriority::Critical,
        ),
        current < total ==> forall|k: int|
            0 <= k < preload_plan(current, total, look_ahead, look_behind).len() ==> 0
                <= #[trigger] preload_plan(current, total, look_ahead, look_behind)[k].0 < total,
        forall|k: int, l: int|
            0 <= k < l < preload_plan(current, total, look_ahead, look_behind).len()
                ==> #[trigger] preload_plan(current, total, look_ahead, look_behind)[k].0
                != #[trigger] preload_plan(current, total, look_ahead, look_behind)[l].0,
{
    lemma_ahead_items(current, total, look_ahead);
    lemma_behind_items(current, look_behind);
    let p = preload_plan(current, total, look_ahead, look_behind);
    let a = seq![(current, PreloadPriority::Critical)];
    let b = if current + 1 < total {
        a.push((current + 1, PreloadPriority::High))
    } else {
        a
    };
    let c = if current > 0 {
        b.push((current - 1, PreloadPriority::Normal))
    } else {
        b
    };
    let ah = ahead_items(current, total, look_ahead);
    let bh = behind_items(current, look_behind);
    assert(p == c + ah + bh);
    assert forall|k: int| 0 <= k < p.len() implies (c.len() <= k < c.len() + ah.len() ==> p[k]
        == ah[k - c.len()]) && (c.len() + ah.len() <= k ==> p[k] == bh[k - c.len()
        - ah.len()]) && (k < c.len() ==> p[k] == c[k]) by {}
    assert(p[0] == c[0]);
    assert forall|k: int| 0 <= k < c.len() implies current - 1 <= #[trigger] c[k].0 <= current
        + 1 && (k == 0 ==> c[k].0 == current) && (k > 0 ==> c[k].0 != current) by {}
}

} // verus!
