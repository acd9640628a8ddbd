//! The executable container.

use crate::slots::{
    after_pop, after_push, after_steal, lemma_nearest_live_is, lemma_no_live, nearest_live,
    pop_outcome, steal_outcome,
};
use vstd::prelude::*;

verus! {

/// Why a pop handed out no task.
#[derive(Debug, Clone, Copy, PartialEq, Eq)]
pub enum Status {
    /// The container held no slot at all.
    Empty,
    /// The container held slots, but thieves had emptied every one of them.
    Abort,
}

/// A unit of deferred work. The container stores tasks and hands them out;
/// it never executes one.
pub trait Task {
    /// Runs the task. Called by whoever took the task out of a container.
    fn execute(&self);
}

/// A sequence of task slots with its active end at the back.
///
/// `push` adds a live slot at the active end. `pop` and `steal` both hand out
/// the task of the live slot nearest to the active end: `pop` removes that
/// slot together with the tombstones it passed, `steal` leaves a tombstone in
/// its place.
#[derive(Debug)]
pub struct WorkStealingDeque<T>
where
    T: Task,
{
    buffer: Vec<Option<Box<T>>>,
}

impl<T> View for WorkStealingDeque<T>
where
    T: Task,
{
    type V = Seq<Option<Box<T>>>;

    /// The slots, oldest first: `Some` for a live slot, `None` for a tombstone.
    closed spec fn view(&self) -> Seq<Option<Box<T>>> {
        self.buffer@
    }
}

impl<T> WorkStealingDeque<T>
where
    T: Task,
{
    /// An empty container. `capacity` is a hint: room for that many slots is
    /// reserved when the allocator can provide it, and the container grows
    /// past it as needed.
    pub fn new(capacity: usize) -> (deque: Self)
        ensures
            deque@ == Seq::<Option<Box<T>>>::empty(),
    {
        let mut buffer: Vec<Option<Box<T>>> = Vec::new();
        let _ = buffer.try_reserve(capacity);
        Self { buffer }
    }

    /// Adds `task` in a new live slot at the active end.
    pub fn push(&mut self, task: Box<T>)
        ensures
            final(self)@ == after_push(old(self)@, task),
    {
        self.buffer.push(Some(task));
    }

    /// Takes the task of the live slot nearest to the active end, discarding
    /// that slot and every tombstone passed on the way to it.
    ///
    /// Returns `Err(Status::Empty)` when the container holds no slot, and
    /// `Err(Status::Abort)` when it holds only tombstones, which are all
    /// discarded. `Ok(None)` is never returned.
    pub fn pop(&mut self) -> (res: Result<Option<Box<T>>, Status>)
        ensures
            res == pop_outcome(old(self)@),
            final(self)@ == after_pop(old(self)@),
    {
        if self.buffer.is_empty() {
            return Err(Status::Empty);
        }
        loop
            invariant
                old(self)@.len() > 0,
                self.buffer@.len() <= old(self)@.len(),
                self.buffer@ == old(self)@.take(self.buffer@.len() as int),
                forall|j: int|
                    self.buffer@.len() <= j < old(self)@.len() ==> (#[trigger] old(self)@[j])
                        is None,
            decreases self.buffer@.len(),
        {
            match self.buffer.pop() {
                Some(slot) => {
                    if slot.is_some() {
                        proof {
                            lemma_nearest_live_is(old(self)@, self.buffer@.len() as int);
                        }
                        return Ok(slot);
                    }
                },
                None => {
                    proof {
                        lemma_no_live(old(self)@);
                    }
                    return Err(Status::Abort);
                },
            }
        }
    }

    /// Takes the task of the live slot nearest to the active end and leaves a
    /// tombstone in its place. Returns `None`, and changes nothing, when no
    /// slot is live.
    pub fn steal(&mut self) -> (res: Option<Box<T>>)
        ensures
            res == steal_outcome(old(self)@),
            final(self)@ == after_steal(old(self)@),
    {
        if self.buffer.is_empty() {
            return None;
        }
        let mut i: usize = self.buffer.len();
        while i > 0
            invariant
                i <= self.buffer@.len(),
                self.buffer@ == old(self)@,
                forall|j: int| i <= j < old(self)@.len() ==> (#[trigger] old(self)@[j]) is None,
            decreases i,
        {
            i -= 1;
            if self.buffer[i].is_some() {
                proof {
                    lemma_nearest_live_is(old(self)@, i as int);
                }
                return self.buffer[i].take();
            }
        }
        proof {
            lemma_no_live(old(self)@);
        }
        None
    }
}

} // verus!
