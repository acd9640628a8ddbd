//! What holds of whole runs of operations on the slots.
//!
//! Every operation of the container borrows it exclusively, so the calls
//! made on one container, from however many execution contexts, happen one
//! after another. The laws here hold for every such order.

use crate::schedule::{Status, Task, WorkStealingDeque};
use crate::slots::{
    after_pop, after_push, after_steal, lemma_live_youngest, lemma_nearest_live, lemma_no_live,
    live, nearest_live, pop_outcome, steal_outcome,
};
use vstd::multiset::Multiset;
use vstd::prelude::*;

verus! {

/// The slots after each of `tasks` was pushed in turn.
pub open spec fn after_pushes<A>(slots: Seq<Option<A>>, tasks: Seq<A>) -> Seq<Option<A>>
    decreases tasks.len(),
{
    if tasks.len() == 0 {
        slots
    } else {
        after_push(after_pushes(slots, tasks.drop_last()), tasks.last())
    }
}

/// The slots after `n` pops in a row.
pub open spec fn after_pops<A>(slots: Seq<Option<A>>, n: nat) -> Seq<Option<A>>
    decreases n,
{
    if n == 0 {
        slots
    } else {
        after_pop(after_pops(slots, (n - 1) as nat))
    }
}

/// The slots after `n` steals in a row.
pub open spec fn after_steals<A>(slots: Seq<Option<A>>, n: nat) -> Seq<Option<A>>
    decreases n,
{
    if n == 0 {
        slots
    } else {
        after_steal(after_steals(slots, (n - 1) as nat))
    }
}

/// One call on the container.
pub enum Step<A> {
    Push(A),
    Pop,
    Steal,
}

/// The slots after one step.
pub open spec fn after_step<A>(slots: Seq<Option<A>>, step: Step<A>) -> Seq<Option<A>> {
    match step {
        Step::Push(task) => after_push(slots, task),
        Step::Pop => after_pop(slots),
        Step::Steal => after_steal(slots),
    }
}

/// The task that one step hands to its caller, if it hands one out.
pub open spec fn handed_by<A>(slots: Seq<Option<A>>, step: Step<A>) -> Option<A> {
    match step {
        Step::Push(_) => None,
        Step::Pop => match pop_outcome(slots) {
            Ok(taken) => taken,
            Err(_) => None,
        },
        Step::Steal => steal_outcome(slots),
    }
}

/// The slots after a run of steps.
pub open spec fn after_run<A>(slots: Seq<Option<A>>, steps: Seq<Step<A>>) -> Seq<Option<A>>
    decreases steps.len(),
{
    if steps.len() == 0 {
        slots
    } else {
        after_step(after_run(slots, steps.drop_last()), steps.last())
    }
}

/// The tasks that a run of steps hands out, in the order of the steps.
pub open spec fn handed_out<A>(slots: Seq<Option<A>>, steps: Seq<Step<A>>) -> Seq<A>
    decreases steps.len(),
{
    if steps.len() == 0 {
        Seq::empty()
    } else {
        let before = handed_out(slots, steps.drop_last());
        match handed_by(after_run(slots, steps.drop_last()), steps.last()) {
            Some(task) => before.push(task),
            None => before,
        }
    }
}

/// The tasks that a run of steps pushes, in the order of the steps.
pub open spec fn pushed_in<A>(steps: Seq<Step<A>>) -> Seq<A>
    decreases steps.len(),
{
    if steps.len() == 0 {
        Seq::empty()
    } else {
        match steps.last() {
            Step::Push(task) => pushed_in(steps.drop_last()).push(task),
            _ => pushed_in(steps.drop_last()),
        }
    }
}

/// Pushing adds the tasks to the live ones, youngest last, and adds one slot
/// for each.
pub proof fn lemma_pushes_are_live<A>(slots: Seq<Option<A>>, tasks: Seq<A>)
    ensures
        live(after_pushes(slots, tasks)) == live(slots) + tasks,
        after_pushes(slots, tasks).len() == slots.len() + tasks.len(),
    decreases tasks.len(),
{
    if tasks.len() == 0 {
        assert(live(slots) + tasks == live(slots));
    } else {
        let earlier = after_pushes(slots, tasks.drop_last());
        lemma_pushes_are_live(slots, tasks.drop_last());
        assert(after_pushes(slots, tasks).drop_last() == earlier);
        assert((live(slots) + tasks.drop_last()).push(tasks.last()) == live(slots) + tasks);
    }
}

/// Pops return pushed tasks last pushed, first returned: after any pushes,
/// the pop that follows `k` earlier pops returns the task pushed `k` places
/// before the last one, and once every pushed task has been popped the slots
/// are what they were before the pushes.
pub proof fn lemma_pops_reverse_pushes<A>(slots: Seq<Option<A>>, tasks: Seq<A>, k: nat)
    requires
        k <= tasks.len(),
    ensures
        after_pops(after_pushes(slots, tasks), k) == after_pushes(
            slots,
            tasks.take(tasks.len() - k),
        ),
        k < tasks.len() ==> pop_outcome(after_pops(after_pushes(slots, tasks), k)) == Ok::<
            Option<A>,
            Status,
        >(Some(tasks[tasks.len() - 1 - k])),
        k == tasks.len() ==> after_pops(after_pushes(slots, tasks), k) == slots,
    decreases k,
{
    let n = tasks.len();
    if k == 0 {
        assert(tasks.take(n as int) == tasks);
    } else {
        lemma_pops_reverse_pushes(slots, tasks, (k - 1) as nat);
        let kept = tasks.take(n - k + 1);
        assert(kept.drop_last() == tasks.take(n - k));
        let rest = after_pushes(slots, kept);
        assert(nearest_live(rest) == rest.len() - 1);
        assert(rest.take(rest.len() - 1) == after_pushes(slots, kept.drop_last()));
    }
    if k < n {
        let kept = tasks.take(n - k);
        let rest = after_pushes(slots, kept);
        assert(nearest_live(rest) == rest.len() - 1);
        assert(rest[rest.len() - 1] == Some(tasks[n - 1 - k]));
    }
}

/// A container that no task was ever pushed to holds no slot; a pop then
/// reports `Empty` and leaves the container as it is.
pub proof fn lemma_unused_pops_empty<T: Task>(deque: WorkStealingDeque<T>)
    requires
        deque@.len() == 0,
    ensures
        pop_outcome(deque@) == Err::<Option<Box<T>>, Status>(Status::Empty),
        after_pop(deque@) == deque@,
{
}

/// A pop reports `Empty` exactly when there is no slot, and `Abort` exactly
/// when there are slots and every one of them is a tombstone; it hands out a
/// task exactly when some task is live. A pop that hands out none leaves no
/// slot behind, so the pop after it reports `Empty`.
pub proof fn lemma_empty_versus_abort<A>(slots: Seq<Option<A>>)
    ensures
        pop_outcome(slots) == Err::<Option<A>, Status>(Status::Empty) <==> slots.len() == 0,
        pop_outcome(slots) == Err::<Option<A>, Status>(Status::Abort) <==> slots.len() > 0
            && forall|j: int| 0 <= j < slots.len() ==> (#[trigger] slots[j]) is None,
        pop_outcome(slots) is Ok <==> live(slots).len() > 0,
        pop_outcome(slots) is Err ==> after_pop(slots).len() == 0 && pop_outcome(after_pop(slots))
            == Err::<Option<A>, Status>(Status::Empty),
{
    lemma_nearest_live(slots);
    lemma_no_live(slots);
    lemma_live_youngest(slots);
}

/// A pop and a steal hand out the same task, the youngest live one, and both
/// leave the other live tasks live and in their order. They differ in the
/// slots only: a steal keeps every slot, a pop drops the slots from the one
/// it took to the active end.
pub proof fn lemma_takes_youngest<A>(slots: Seq<Option<A>>)
    ensures
        live(slots).len() > 0 ==> {
            &&& pop_outcome(slots) == Ok::<Option<A>, Status>(Some(live(slots).last()))
            &&& steal_outcome(slots) == Some(live(slots).last())
            &&& live(after_pop(slots)) == live(slots).drop_last()
            &&& live(after_steal(slots)) == live(slots).drop_last()
        },
        live(slots).len() == 0 ==> {
            &&& pop_outcome(slots) is Err
            &&& steal_outcome(slots) is None
            &&& live(after_pop(slots)) == live(slots)
            &&& live(after_steal(slots)) == live(slots)
        },
        after_steal(slots).len() == slots.len(),
        after_pop(slots).len() <= slots.len(),
{
    lemma_nearest_live(slots);
    lemma_live_youngest(slots);
    if live(slots).len() == 0 {
        assert(live(Seq::<Option<A>>::empty()) == live(slots));
    }
}

/// Steals hand out each live task once, youngest first, and then nothing:
/// the steal that follows `k` earlier steals returns the live task `k` places
/// before the youngest, or `None` when `k` steals have taken them all. No
/// steal changes the number of slots.
pub proof fn lemma_steals_take_each_once<A>(slots: Seq<Option<A>>, k: nat)
    ensures
        after_steals(slots, k).len() == slots.len(),
        k <= live(slots).len() ==> live(after_steals(slots, k)) == live(slots).take(
            live(slots).len() - k,
        ),
        k < live(slots).len() ==> steal_outcome(after_steals(slots, k)) == Some(
            live(slots)[live(slots).len() - 1 - k],
        ),
        k >= live(slots).len() ==> steal_outcome(after_steals(slots, k)) is None && live(
            after_steals(slots, k),
        ).len() == 0,
    decreases k,
{
    let n = live(slots).len();
    if k == 0 {
        assert(live(slots).take(n as int) == live(slots));
    } else {
        lemma_steals_take_each_once(slots, (k - 1) as nat);
        lemma_takes_youngest(after_steals(slots, (k - 1) as nat));
        if k <= n {
            assert(live(slots).take(n - k + 1).drop_last() == live(slots).take(n - k));
        }
    }
    lemma_takes_youngest(after_steals(slots, k));
}

/// Of tasks pushed to a container without slots, steals hand out each once,
/// last pushed first, and every steal after those hands out nothing: given
/// as many steals as tasks or more, as many succeed as there are tasks.
pub proof fn lemma_steals_drain_pushes<A>(tasks: Seq<A>, k: nat)
    ensures
        k < tasks.len() ==> steal_outcome(
            after_steals(after_pushes(Seq::<Option<A>>::empty(), tasks), k),
        ) == Some(tasks[tasks.len() - 1 - k]),
        k >= tasks.len() ==> steal_outcome(
            after_steals(after_pushes(Seq::<Option<A>>::empty(), tasks), k),
        ) is None,
{
    let none = Seq::<Option<A>>::empty();
    lemma_pushes_are_live(none, tasks);
    assert(live(none) + tasks == tasks);
    lemma_steals_take_each_once(after_pushes(none, tasks), k);
}

/// No task is handed out twice and none is lost, whatever the order of
/// pushes, pops and steals: the tasks handed out by a run, together with the
/// tasks still live after it, are the tasks live before it together with
/// the tasks pushed in it, each as often on one side as on the other.
pub proof fn lemma_each_task_leaves_once<A>(slots: Seq<Option<A>>, steps: Seq<Step<A>>)
    ensures
        handed_out(slots, steps).to_multiset().add(live(after_run(slots, steps)).to_multiset())
            == live(slots).to_multiset().add(pushed_in(steps).to_multiset()),
    decreases steps.len(),
{
    if steps.len() == 0 {
        let none = Seq::<A>::empty();
        none.to_multiset_ensures();
        vstd::multiset::lemma_multiset_empty_len(none.to_multiset());
        assert(handed_out(slots, steps).to_multiset() =~= Multiset::<A>::empty());
        assert(pushed_in(steps).to_multiset() =~= Multiset::<A>::empty());
        assert(Multiset::<A>::empty().add(live(slots).to_multiset()) =~= live(
            slots,
        ).to_multiset().add(Multiset::<A>::empty()));
    } else {
        let earlier = steps.drop_last();
        let before = after_run(slots, earlier);
        let held = live(before).to_multiset();
        let out = handed_out(slots, earlier).to_multiset();
        let total = live(slots).to_multiset().add(pushed_in(earlier).to_multiset());
        lemma_each_task_leaves_once(slots, earlier);
        lemma_takes_youngest(before);
        match steps.last() {
            Step::Push(task) => {
                lemma_pushes_are_live(before, seq![task]);
                assert(after_pushes(before, seq![task]) == after_push(before, task)) by {
                    reveal_with_fuel(after_pushes, 2);
                }
                assert(live(before) + seq![task] == live(before).push(task));
                vstd::seq_lib::to_multiset_build(live(before), task);
                vstd::seq_lib::to_multiset_build(pushed_in(earlier), task);
                assert(out.add(held.insert(task)) =~= total.insert(task));
                assert(live(slots).to_multiset().add(pushed_in(earlier).to_multiset().insert(task))
                    =~= total.insert(task));
            },
            _ => {
                if live(before).len() > 0 {
                    let task = live(before).last();
                    let others = live(before).drop_last();
                    assert(others.push(task) == live(before));
                    vstd::seq_lib::to_multiset_build(others, task);
                    vstd::seq_lib::to_multiset_build(handed_out(slots, earlier), task);
                    assert(out.insert(task).add(others.to_multiset()) =~= out.add(
                        others.to_multiset().insert(task),
                    ));
                }
            },
        }
    }
}

} // verus!
