//! Per-chapter task slots: at most one running task and one pending task
//! for each chapter index.
//!
//! This is the decision core of the chapter task scheduler.  Whoever runs
//! the tasks reports each event here (a submission, a task that finished, a
//! cancellation) and performs the action that comes back: start the
//! submitted task now, keep it as the chapter's pending task, start the
//! pending task, or nothing.
use std::collections::HashMap;
use vstd::prelude::*;

verus! {

/// The state of one chapter's slot.
#[derive(Clone, Copy, Debug, PartialEq, Eq, Structural)]
pub struct TaskSlot {
    /// A task of this chapter is running.
    pub running: bool,
    /// A task of this chapter waits for the running one to finish.
    pub pending: bool,
}

/// What to do with a task that was just submitted.
#[derive(Clone, Copy, Debug, PartialEq, Eq, Structural)]
pub enum SubmitAction {
    /// Nothing of this chapter runs: start the task now.
    StartNow,
    /// A task of this chapter runs: keep the new task as the pending one,
    /// dropping any task that was pending before.
    Queue,
}

/// What to do when a chapter's running task has finished.
#[derive(Clone, Copy, Debug, PartialEq, Eq, Structural)]
pub enum FinishAction {
    /// Start the chapter's pending task; the slot stays.
    StartPending,
    /// Nothing was pending: the slot is gone.
    Cleared,
    /// The chapter had no slot (it was cancelled): nothing to do.
    NoSlot,
}

/// The slots of all chapters with work, keyed by chapter index.
pub struct ChapterTaskScheduler {
    slots: HashMap<usize, TaskSlot>,
}

/// Every slot that exists has a running task; a slot with nothing running
/// and nothing pending is removed at once.
pub open spec fn slots_valid(m: Map<usize, TaskSlot>) -> bool {
    forall|k: usize| #[trigger] m.contains_key(k) ==> m[k].running
}

/// The slot of a chapter after a task was submitted for it.
pub open spec fn submitted(m: Map<usize, TaskSlot>, chapter: usize) -> Map<usize, TaskSlot> {
    if m.contains_key(chapter) {
        m.insert(chapter, TaskSlot { running: true, pending: true })
    } else {
        m.insert(chapter, TaskSlot { running: true, pending: false })
    }
}

/// The slots after the running task of a chapter finished.
pub open spec fn finished(m: Map<usize, TaskSlot>, chapter: usize) -> Map<usize, TaskSlot> {
    if !m.contains_key(chapter) {
        m
    } else if m[chapter].pending {
        m.insert(chapter, TaskSlot { running: true, pending: false })
    } else {
        m.remove(chapter)
    }
}

impl View for ChapterTaskScheduler {
    type V = Map<usize, TaskSlot>;

    closed spec fn view(&self) -> Map<usize, TaskSlot> {
        self.slots@
    }
}

impl ChapterTaskScheduler {
    /// The scheduler's invariant.
    pub open spec fn wf(&self) -> bool {
        slots_valid(self@)
    }

    /// A scheduler with no work.
    pub fn new() -> (s: Self)
        ensures
            s.wf(),
            s@ == Map::<usize, TaskSlot>::empty(),
    {
        ChapterTaskScheduler { slots: HashMap::new() }
    }

    /// Records a task submitted for `chapter_index` and says whether to
    /// start it now or keep it as the chapter's pending task.
    pub fn submit(&mut self, chapter_index: usize) -> (action: SubmitAction)
        requires
            old(self).wf(),
        ensures
            final(self).wf(),
            final(self)@ == submitted(old(self)@, chapter_index),
            action == (if old(self)@.contains_key(chapter_index) {
                SubmitAction::Queue
            } else {
                SubmitAction::StartNow
            }),
    {
        broadcast use vstd::std_specs::hash::group_hash_axioms;
        let present = self.slots.contains_key(&chapter_index);
        if present {
            self.slots.insert(chapter_index, TaskSlot { running: true, pending: true });
            SubmitAction::Queue
        } else {
            self.slots.insert(chapter_index, TaskSlot { running: true, pending: false });
            SubmitAction::StartNow
        }
    }

    /// Records that the running task of `chapter_index` has finished.
    pub fn task_finished(&mut self, chapter_index: usize) -> (action: FinishAction)
        requires
            old(self).wf(),
        ensures
            final(self).wf(),
            final(self)@ == finished(old(self)@, chapter_index),
            action == (if !old(self)@.contains_key(chapter_index) {
                FinishAction::NoSlot
            } else if old(self)@[chapter_index].pending {
                FinishAction::StartPending
            } else {
                FinishAction::Cleared
            }),
    {
        broadcast use vstd::std_specs::hash::group_hash_axioms;
        let slot = self.slots.get(&chapter_index);
        match slot {
            None => FinishAction::NoSlot,
            Some(s) => {
                if s.pending {
                    self.slots.insert(chapter_index, TaskSlot { running: true, pending: false });
                    FinishAction::StartPending
                } else {
                    self.slots.remove(&chapter_index);
                    FinishAction::Cleared
                }
            },
        }
    }

    /// Drops all work of `chapter_index`, running and pending.
    pub fn cancel(&mut self, chapter_index: usize)
        requires
            old(self).wf(),
        ensures
            final(self).wf(),
            final(self)@ == old(self)@.remove(chapter_index),
    {
        broadcast use vstd::std_specs::hash::group_hash_axioms;
        self.slots.remove(&chapter_index);
    }

    /// Drops the work of every chapter.
    pub fn cancel_all(&mut self)
        ensures
            final(self).wf(),
            final(self)@ == Map::<usize, TaskSlot>::empty(),
    {
        self.slots.clear();
    }

    /// Whether a task of `chapter_index` waits for the running one.
    pub fn has_pending(&self, chapter_index: usize) -> (b: bool)
        ensures
            b == (self@.contains_key(chapter_index) && self@[chapter_index].pending),
    {
        broadcast use vstd::std_specs::hash::group_hash_axioms;
        match self.slots.get(&chapter_index) {
            Some(s) => s.pending,
            None => false,
        }
    }

    /// Whether a task of `chapter_index` runs.
    pub fn is_running(&self, chapter_index: usize) -> (b: bool)
        ensures
            b == (self@.contains_key(chapter_index) && self@[chapter_index].running),
    {
        broadcast use vstd::std_specs::hash::group_hash_axioms;
        match self.slots.get(&chapter_index) {
            Some(s) => s.running,
            None => false,
        }
    }

    /// The number of chapters with work.
    pub fn active_count(&self) -> (n: usize)
        ensures
            n == self@.len(),
    {
        broadcast use vstd::std_specs::hash::group_hash_axioms;
        self.slots.len()
    }

    /// Whether no chapter has work.
    pub fn is_idle(&self) -> (b: bool)
        ensures
            b == (self@.len() == 0),
    {
        broadcast use vstd::std_specs::hash::group_hash_axioms;
        self.slots.is_empty()
    }
}

/// A task submitted while nothing of its chapter runs, and finishing with
/// nothing submitted meanwhile, leaves the slots as they were.
pub proof fn lemma_submit_then_finish(m: Map<usize, TaskSlot>, chapter: usize)
    requires
        slots_valid(m),
        !m.contains_key(chapter),
    ensures
        finished(submitted(m, chapter), chapter) == m,
{
    assert(submitted(m, chapter).remove(chapter) =~= m);
}

/// Of any number of tasks submitted while one of the chapter runs, only one
/// stays pending, and it starts when the running one finishes.
pub proof fn lemma_latest_pending_runs(m: Map<usize, TaskSlot>, chapter: usize)
    requires
        slots_valid(m),
        m.contains_key(chapter),
    ensures
        submitted(submitted(m, chapter), chapter) == submitted(m, chapter),
        finished(submitted(m, chapter), chapter) == m.insert(
            chapter,
            TaskSlot { running: true, pending: false },
        ),
{
    assert(submitted(submitted(m, chapter), chapter) =~= submitted(m, chapter));
    assert(finished(submitted(m, chapter), chapter) =~= m.insert(
        chapter,
        TaskSlot { running: true, pending: false },
    ));
}

/// Work of one chapter never touches the slot of another.
pub proof fn lemma_chapters_independent(m: Map<usize, TaskSlot>, a: usize, b: usize)
    requires
        a != b,
    ensures
        submitted(m, a).contains_key(b) == m.contains_key(b),
        m.contains_key(b) ==> submitted(m, a)[b] == m[b],
        finished(m, a).contains_key(b) == m.contains_key(b),
        m.contains_key(b) ==> finished(m, a)[b] == m[b],
        m.remove(a).contains_key(b) == m.contains_key(b),
{
}

} // verus!
