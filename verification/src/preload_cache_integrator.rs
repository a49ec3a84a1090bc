//! The decisions of the preload cache integrator: which cached chapter answers a
//! lookup, which slot a freshly laid-out chapter takes, and which chapters
//! around the current one to preload.
//!
//! The integrator itself holds the chapter window behind a lock and drives the
//! preload executor; each of its steps takes the lock and calls one of these.
use vstd::prelude::*;
use crate::chapter_cache::{ChapterCache, CachedChapterPages};
use crate::preload::{
    DefaultPreloadStrategy, PreloadPriority, PreloadStrategy, plan_view, preload_plan,
};

verus! {

/// The cached pages of chapter `idx`: the current slot is looked at first, then the
/// previous one, then the next one.
pub open spec fn find_cached<P>(c: ChapterCache<P>, idx: usize) -> Option<CachedChapterPages<P>> {
    if c.current matches Some(p) && p.chapter_index == idx {
        c.current
    } else if c.prev matches Some(p) && p.chapter_index == idx {
        c.prev
    } else if c.next matches Some(p) && p.chapter_index == idx {
        c.next
    } else {
        None
    }
}

/// The window after a laid-out chapter is stored: a chapter after the current
/// index shifts the window forward and takes the next slot; one before it shifts
/// the window back and takes the previous slot; the current chapter replaces the
/// current slot. The index itself stays.
pub open spec fn placed<P>(c: ChapterCache<P>, p: CachedChapterPages<P>) -> ChapterCache<P> {
    if p.chapter_index > c.current_index {
        ChapterCache {
            prev: if c.current is Some {
                c.current
            } else {
                c.prev
            },
            current: c.next,
            next: Some(p),
            current_index: c.current_index,
        }
    } else if p.chapter_index < c.current_index {
        ChapterCache {
            next: if c.current is Some {
                c.current
            } else {
                c.next
            },
            current: c.prev,
            prev: Some(p),
            current_index: c.current_index,
        }
    } else {
        ChapterCache { current: Some(p), ..c }
    }
}

/// The chapters of a plan other than `current`, in plan order.
pub open spec fn others(plan: Seq<(int, PreloadPriority)>, current: int) -> Seq<int>
    decreases plan.len(),
{
    if plan.len() == 0 {
        Seq::<int>::empty()
    } else if plan.last().0 == current {
        others(plan.drop_last(), current)
    } else {
        others(plan.drop_last(), current).push(plan.last().0)
    }
}

/// The cached pages of `chapter_index`, if a slot holds them.
pub fn cached_chapter<P>(cache: &ChapterCache<P>, chapter_index: usize) -> (r: Option<
    &CachedChapterPages<P>,
>)
    ensures
        r is Some == find_cached(*cache, chapter_index) is Some,
        r matches Some(p) ==> Some(*p) == find_cached(*cache, chapter_index),
{
    if let Some(p) = &cache.current {
        if p.chapter_index == chapter_index {
            return Some(p);
        }
    }
    if let Some(p) = &cache.prev {
        if p.chapter_index == chapter_index {
            return Some(p);
        }
    }
    if let Some(p) = &cache.next {
        if p.chapter_index == chapter_index {
            return Some(p);
        }
    }
    None
}

/// Whether a slot holds `chapter_index`.
pub fn cache_has_chapter<P>(cache: &ChapterCache<P>, chapter_index: usize) -> (b: bool)
    ensures
        b == find_cached(*cache, chapter_index) is Some,
{
    cached_chapter(cache, chapter_index).is_some()
}

/// Stores a laid-out chapter in the slot its index calls for.
pub fn update_cache_slots<P>(cache: &mut ChapterCache<P>, pages: CachedChapterPages<P>)
    ensures
        *final(cache) == placed(*old(cache), pages),
{
    if pages.chapter_index > cache.current_index {
        let current = cache.current.take();
        let next = cache.next.take();
        if let Some(current) = current {
            cache.set_prev(current);
        }
        if let Some(next) = next {
            cache.set_current(next);
        }
        cache.set_next(pages);
    } else if pages.chapter_index < cache.current_index {
        let current = cache.current.take();
        let prev = cache.prev.take();
        if let Some(current) = current {
            cache.set_next(current);
        }
        if let Some(prev) = prev {
            cache.set_current(prev);
        }
        cache.set_prev(pages);
    } else {
        cache.set_current(pages);
    }
}

/// The chapters around `current` that the default strategy preloads, the current
/// one left out (it is loaded already), in the strategy's order.
#[verifier::spinoff_prover]
#[verifier::rlimit(30)]
pub fn surrounding_chapters(current: usize, total: usize) -> (r: Vec<usize>)
    requires
        current + 2 <= usize::MAX,
    ensures
        r@.map_values(|i: usize| i as int) == others(
            preload_plan(current as int, total as int, 2, 1),
            current as int,
        ),
{
    let strategy = DefaultPreloadStrategy::default();
    let plan = strategy.calculate_preload_chapters(current, total);
    let ghost pv = plan_view(plan@);
    let mut r: Vec<usize> = Vec::new();
    let mut k: usize = 0;
    proof {
        assert(pv.take(0) =~= Seq::<(int, PreloadPriority)>::empty());
    }
    while k < plan.len()
        invariant
            k <= plan@.len(),
            pv == plan_view(plan@),
            r@.map_values(|i: usize| i as int) == others(pv.take(k as int), current as int),
        decreases plan@.len() - k,
    {
        proof {
            assert(pv.take(k + 1).drop_last() =~= pv.take(k as int));
            assert(pv.take(k + 1).last() == (plan@[k as int].0 as int, plan@[k as int].1));
        }
        let idx = plan[k].0;
        if idx != current {
            let ghost before = r@;
            r.push(idx);
            proof {
                assert(r@.map_values(|i: usize| i as int) =~= before.map_values(
                    |i: usize| i as int,
                ).push(idx as int));
            }
        }
        k = k + 1;
    }
    proof {
        assert(pv.take(plan@.len() as int) =~= pv);
    }
    r
}

/// A stored chapter is found again at once, whichever slot it took.
pub proof fn lemma_placed_is_found<P>(c: ChapterCache<P>, p: CachedChapterPages<P>)
    requires
        p.chapter_index != c.current_index ==> (c.current matches Some(q) ==> q.chapter_index
            != p.chapter_index) && (c.prev matches Some(q) ==> q.chapter_index
            != p.chapter_index) && (c.next matches Some(q) ==> q.chapter_index
            != p.chapter_index),
    ensures
        find_cached(placed(c, p), p.chapter_index) == Some(p),
{
}

} // verus!
