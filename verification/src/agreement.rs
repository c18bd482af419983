//! Why reference counts and reachability agree where no references form a
//! cycle.

use vstd::prelude::*;
use crate::memory::{GcError, MemoryModel, Object};
use crate::trace::line_command;
use crate::refcount::{
    decremented, finished, freed, held, lemma_release_shrinks, lemma_total_update, release,
    retain_all, total_count, CommandModel, CountedSlot, RefCountModel,
};

verus! {

/// How often `i` stands in `refs`.
pub open spec fn occurrences(refs: Seq<u32>, i: int) -> nat
    decreases refs.len(),
{
    if refs.len() == 0 {
        0
    } else {
        occurrences(refs.drop_last(), i) + if refs.last() == i {
            1nat
        } else {
            0nat
        }
    }
}

/// How often `i` stands in the lists of `lists`.
pub open spec fn occurrences_in(lists: Seq<Seq<u32>>, i: int) -> nat
    decreases lists.len(),
{
    if lists.len() == 0 {
        0
    } else {
        occurrences_in(lists.drop_last(), i) + occurrences(lists.last(), i)
    }
}

/// What each slot of `heap` refers to.
pub open spec fn held_lists(heap: Seq<CountedSlot>) -> Seq<Seq<u32>> {
    Seq::new(heap.len(), |j: int| held(heap[j]))
}

/// What stands in two lists put together stands in the one or in the other.
pub proof fn lemma_occurrences_concat(a: Seq<u32>, b: Seq<u32>, i: int)
    ensures
        occurrences(a + b, i) == occurrences(a, i) + occurrences(b, i),
    decreases b.len(),
{
    if b.len() > 0 {
        assert((a + b).drop_last() =~= a + b.drop_last());
        lemma_occurrences_concat(a, b.drop_last(), i);
    }
}

/// The first element counts for one where it is `i`.
pub proof fn lemma_occurrences_first(refs: Seq<u32>, i: int)
    requires
        refs.len() > 0,
    ensures
        occurrences(refs, i) == occurrences(refs.drop_first(), i) + if refs[0] == i {
            1nat
        } else {
            0nat
        },
{
    let head = seq![refs[0]];
    assert(head + refs.drop_first() =~= refs);
    lemma_occurrences_concat(head, refs.drop_first(), i);
    assert(occurrences(head.drop_last(), i) == 0);
}

/// `i` stands in `refs` exactly where it is counted there.
pub proof fn lemma_occurrences_positive(refs: Seq<u32>, i: int)
    ensures
        occurrences(refs, i) > 0 <==> exists|k: int| 0 <= k < refs.len() && #[trigger] refs[k] == i,
    decreases refs.len(),
{
    if refs.len() > 0 {
        let front = refs.drop_last();
        lemma_occurrences_positive(front, i);
        if exists|k: int| 0 <= k < refs.len() && #[trigger] refs[k] == i {
            let k = choose|k: int| 0 <= k < refs.len() && #[trigger] refs[k] == i;
            if k < refs.len() - 1 {
                assert(front[k] == i);
            }
        }
    }
}

/// `i` stands in a list of `lists` exactly where it is counted there.
pub proof fn lemma_occurrences_in_positive(lists: Seq<Seq<u32>>, i: int)
    ensures
        occurrences_in(lists, i) > 0 <==> exists|j: int|
            0 <= j < lists.len() && occurrences(#[trigger] lists[j], i) > 0,
    decreases lists.len(),
{
    if lists.len() > 0 {
        let front = lists.drop_last();
        lemma_occurrences_in_positive(front, i);
        if exists|j: int| 0 <= j < lists.len() && occurrences(#[trigger] lists[j], i) > 0 {
            let j = choose|j: int| 0 <= j < lists.len() && occurrences(#[trigger] lists[j], i) > 0;
            if j < lists.len() - 1 {
                assert(front[j] == lists[j]);
            }
        }
    }
}

/// Changing one list changes the count by what the list loses and gains.
pub proof fn lemma_occurrences_in_update(lists: Seq<Seq<u32>>, j: int, list: Seq<u32>, i: int)
    requires
        0 <= j < lists.len(),
    ensures
        occurrences_in(lists.update(j, list), i) + occurrences(lists[j], i) == occurrences_in(lists, i)
            + occurrences(list, i),
    decreases lists.len(),
{
    if j == lists.len() - 1 {
        assert(lists.update(j, list).drop_last() == lists.drop_last());
    } else {
        assert(lists.update(j, list).drop_last() == lists.drop_last().update(j, list));
        lemma_occurrences_in_update(lists.drop_last(), j, list, i);
    }
}

/// Changing one slot changes the count by what the slot's list loses and
/// gains.
pub proof fn lemma_held_update(heap: Seq<CountedSlot>, j: int, slot: CountedSlot, i: int)
    requires
        0 <= j < heap.len(),
    ensures
        occurrences_in(held_lists(heap.update(j, slot)), i) + occurrences(held(heap[j]), i)
            == occurrences_in(held_lists(heap), i) + occurrences(held(slot), i),
{
    assert(held_lists(heap.update(j, slot)) =~= held_lists(heap).update(j, held(slot)));
    lemma_occurrences_in_update(held_lists(heap), j, held(slot), i);
}

/// Each count is the number of references to the slot: on the stack, in
/// the heap, and among `pending`, the references that are yet to be let go.
pub open spec fn counts_exact(heap: Seq<CountedSlot>, stack: Seq<Seq<u32>>, pending: Seq<u32>) -> bool {
    forall|i: int|
        0 <= i < heap.len() ==> (#[trigger] heap[i]).count == occurrences_in(stack, i) + occurrences_in(
            held_lists(heap),
            i,
        ) + occurrences(pending, i)
}

/// A slot without references to it holds no object.
pub open spec fn tidy(heap: Seq<CountedSlot>) -> bool {
    forall|i: int| 0 <= i < heap.len() && (#[trigger] heap[i]).count == 0 ==> heap[i].children is None
}

/// Letting go of the pending references leaves the counts exact.
pub proof fn lemma_release_exact(heap: Seq<CountedSlot>, stack: Seq<Seq<u32>>, pending: Seq<u32>)
    requires
        counts_exact(heap, stack, pending),
    ensures
        counts_exact(release(heap, pending), stack, Seq::empty()),
    decreases total_count(heap), pending.len(),
{
    if pending.len() > 0 {
        let i = pending[0] as int;
        let rest = pending.drop_first();
        assert forall|x: int| true implies occurrences(pending, x) == occurrences(rest, x) + if x == i {
            1nat
        } else {
            0nat
        } by {
            lemma_occurrences_first(pending, x);
        }
        if i >= heap.len() {
            lemma_release_exact(heap, stack, rest);
        } else if heap[i].count > 1 {
            let next = decremented(heap, i);
            lemma_total_update(heap, i, next[i]);
            assert(held_lists(next) =~= held_lists(heap));
            lemma_release_exact(next, stack, rest);
        } else {
            let next = freed(heap, i);
            let more = held(heap[i]) + rest;
            lemma_total_update(heap, i, next[i]);
            assert forall|x: int| 0 <= x < next.len() implies (#[trigger] next[x]).count
                == occurrences_in(stack, x) + occurrences_in(held_lists(next), x) + occurrences(
                more,
                x,
            ) by {
                lemma_held_update(heap, i, next[i], x);
                lemma_occurrences_concat(held(heap[i]), rest, x);
            }
            lemma_release_exact(next, stack, more);
        }
    }
}

/// Letting go of references leaves no slot without references with an
/// object.
pub proof fn lemma_release_keeps_tidy(heap: Seq<CountedSlot>, pending: Seq<u32>)
    requires
        tidy(heap),
    ensures
        tidy(release(heap, pending)),
    decreases total_count(heap), pending.len(),
{
    if pending.len() > 0 {
        let i = pending[0] as int;
        let rest = pending.drop_first();
        if i >= heap.len() || heap[i].count == 0 {
            lemma_release_keeps_tidy(heap, rest);
        } else if heap[i].count > 1 {
            lemma_total_update(heap, i, decremented(heap, i)[i]);
            lemma_release_keeps_tidy(decremented(heap, i), rest);
        } else {
            lemma_total_update(heap, i, freed(heap, i)[i]);
            lemma_release_keeps_tidy(freed(heap, i), held(heap[i]) + rest);
        }
    }
}

/// Gaining references raises each count by the number of the new
/// references to the slot, and changes nothing else.
pub proof fn lemma_retain_all_counts(heap: Seq<CountedSlot>, refs: Seq<u32>)
    requires
        forall|k: int| 0 <= k < refs.len() ==> refs[k] < heap.len(),
    ensures
        retain_all(heap, refs).len() == heap.len(),
        held_lists(retain_all(heap, refs)) == held_lists(heap),
        forall|i: int|
            0 <= i < heap.len() ==> (#[trigger] retain_all(heap, refs)[i]).count == heap[i].count
                + occurrences(refs, i),
        tidy(heap) ==> tidy(retain_all(heap, refs)),
    decreases refs.len(),
{
    if refs.len() > 0 {
        let front = refs.drop_last();
        lemma_retain_all_counts(heap, front);
    }
}

/// `rank` gives each slot a number above the numbers of the slots that it
/// refers to, all of which lie inside the heap.
pub open spec fn is_ranking(heap: Seq<CountedSlot>, rank: Seq<nat>) -> bool {
    &&& rank.len() == heap.len()
    &&& forall|i: int, k: int|
        0 <= i < heap.len() && 0 <= k < held(heap[i]).len() ==> (#[trigger] held(heap[i])[k])
            < heap.len() && rank[held(heap[i])[k] as int] < rank[i]
}

/// No chain of references leads from a slot back to it.
pub open spec fn acyclic(heap: Seq<CountedSlot>) -> bool {
    exists|rank: Seq<nat>| is_ranking(heap, rank)
}

/// Letting go of references to slots ranked below `bound` leaves the slots
/// ranked at or above it as they are.
pub proof fn lemma_release_local(
    heap: Seq<CountedSlot>,
    pending: Seq<u32>,
    rank: Seq<nat>,
    bound: nat,
)
    requires
        is_ranking(heap, rank),
        forall|k: int|
            0 <= k < pending.len() ==> (#[trigger] pending[k]) < heap.len() && rank[pending[k] as int]
                < bound,
    ensures
        forall|j: int|
            0 <= j < heap.len() && rank[j] >= bound ==> #[trigger] release(heap, pending)[j] == heap[j],
    decreases total_count(heap), pending.len(),
{
    if pending.len() > 0 {
        let i = pending[0] as int;
        let rest = pending.drop_first();
        if heap[i].count == 0 {
            lemma_release_local(heap, rest, rank, bound);
            assert(release(heap, pending) == release(heap, rest));
        } else if heap[i].count > 1 {
            let next = decremented(heap, i);
            lemma_total_update(heap, i, next[i]);
            assert(is_ranking(next, rank)) by {
                assert forall|a: int, k: int|
                    0 <= a < next.len() && 0 <= k < held(next[a]).len() implies (#[trigger] held(
                    next[a],
                )[k]) < next.len() && rank[held(next[a])[k] as int] < rank[a] by {
                    assert(held(next[a])[k] == held(heap[a])[k]);
                }
            }
            lemma_release_local(next, rest, rank, bound);
            assert(release(heap, pending) == release(next, rest));
        } else {
            let next = freed(heap, i);
            let more = held(heap[i]) + rest;
            lemma_total_update(heap, i, next[i]);
            lemma_release_local(next, more, rank, bound);
            assert(release(heap, pending) == release(next, more));
        }
    }
}

impl RefCountModel {
    /// Each count is the number of references to its slot, on the stack
    /// and in the heap.
    pub open spec fn exact(self) -> bool {
        counts_exact(self.heap, self.stack, Seq::empty())
    }

    /// The stack and the objects as a snapshot for the collectors, each
    /// object without a label.
    pub open spec fn snapshot(self) -> MemoryModel {
        MemoryModel {
            stack: self.stack,
            heap: Seq::new(
                self.heap.len(),
                |i: int|
                    match self.heap[i].children {
                        Some(c) => Some(Object { label: Seq::empty(), children: c }),
                        None => None,
                    },
            ),
        }
    }

    /// No state that `commands` lead through, from this one on, holds a
    /// cycle of references.
    pub open spec fn stays_acyclic(self, commands: Seq<CommandModel>) -> bool
        decreases commands.len(),
    {
        &&& acyclic(self.heap)
        &&& commands.len() > 0 ==> match self.outcome(commands[0]) {
            Ok(next) => next.stays_acyclic(commands.drop_first()),
            Err(_) => true,
        }
    }
}

/// A command that is accepted keeps the counts exact.
pub proof fn lemma_step_keeps_exact(state: RefCountModel, command: CommandModel)
    requires
        state.exact(),
        state.accepts(command),
    ensures
        state.step(command).exact(),
{
    let heap = state.heap;
    let stack = state.stack;
    let none = Seq::<u32>::empty();
    match command {
        CommandModel::AllocateOrOverwrite { index, children } => {
            if state.in_use(index) {
                let old = held(heap[index]);
                let emptied = heap.update(index, CountedSlot { children: None, count: heap[index].count });
                let let_go = release(emptied, old);
                let filled = let_go.update(
                    index,
                    CountedSlot { children: Some(children), count: let_go[index].count },
                );
                let end = retain_all(filled, children);
                assert forall|x: int| 0 <= x < emptied.len() implies (#[trigger] emptied[x]).count
                    == occurrences_in(stack, x) + occurrences_in(held_lists(emptied), x) + occurrences(
                    old,
                    x,
                ) by {
                    lemma_held_update(heap, index, emptied[index], x);
                }
                lemma_release_exact(emptied, stack, old);
                lemma_release_shrinks(emptied, old);
                lemma_retain_all_counts(filled, children);
                assert forall|x: int| 0 <= x < end.len() implies (#[trigger] end[x]).count
                    == occurrences_in(stack, x) + occurrences_in(held_lists(end), x) + occurrences(
                    none,
                    x,
                ) by {
                    lemma_held_update(let_go, index, filled[index], x);
                }
            }
        },
        CommandModel::PushFrame { roots } => {
            lemma_retain_all_counts(heap, roots);
            assert(stack.push(roots).drop_last() == stack);
        },
        CommandModel::Pop => {
            if stack.len() > 0 {
                let frame = stack.last();
                lemma_release_exact(heap, stack.drop_last(), frame);
            }
        },
    }
}

/// In a state without cycles, a command that is accepted leaves no slot
/// without references with an object.
pub proof fn lemma_step_keeps_tidy(state: RefCountModel, command: CommandModel)
    requires
        tidy(state.heap),
        acyclic(state.heap),
        state.accepts(command),
    ensures
        tidy(state.step(command).heap),
{
    let heap = state.heap;
    match command {
        CommandModel::AllocateOrOverwrite { index, children } => {
            if state.in_use(index) {
                let rank = choose|rank: Seq<nat>| is_ranking(heap, rank);
                let old = held(heap[index]);
                let emptied = heap.update(index, CountedSlot { children: None, count: heap[index].count });
                let let_go = release(emptied, old);
                let filled = let_go.update(
                    index,
                    CountedSlot { children: Some(children), count: let_go[index].count },
                );
                lemma_release_local(emptied, old, rank, rank[index]);
                lemma_release_shrinks(emptied, old);
                lemma_release_keeps_tidy(emptied, old);
                lemma_retain_all_counts(filled, children);
            }
        },
        CommandModel::PushFrame { roots } => {
            lemma_retain_all_counts(heap, roots);
        },
        CommandModel::Pop => {
            if state.stack.len() > 0 {
                lemma_release_keeps_tidy(heap, state.stack.last());
            }
        },
    }
}

/// At the end of a run no slot without references holds an object.
pub proof fn lemma_normalized_is_tidy(state: RefCountModel)
    ensures
        tidy(state.normalized().heap),
{
}

/// The highest number in `rank`.
pub open spec fn top_rank(rank: Seq<nat>) -> nat
    decreases rank.len(),
{
    if rank.len() == 0 {
        0
    } else if rank.last() > top_rank(rank.drop_last()) {
        rank.last()
    } else {
        top_rank(rank.drop_last())
    }
}

/// No number in `rank` is above the highest.
pub proof fn lemma_top_rank(rank: Seq<nat>, i: int)
    requires
        0 <= i < rank.len(),
    ensures
        rank[i] <= top_rank(rank),
    decreases rank.len(),
{
    if i < rank.len() - 1 {
        lemma_top_rank(rank.drop_last(), i);
    }
}

/// Where the counts are exact, a slot that the stack reaches has a count
/// above zero.
pub proof fn lemma_reached_is_counted(state: RefCountModel, i: int)
    requires
        state.exact(),
        state.snapshot().reaches(i),
    ensures
        0 <= i < state.heap.len(),
        state.heap[i].count > 0,
{
    let snap = state.snapshot();
    let n = state.heap.len() as int;
    crate::reach::lemma_reaches_cases(snap, 0, n, i);
    if snap.is_root(i) {
        let (f, k) = choose|f: int, k: int|
            0 <= f < snap.stack.len() && 0 <= k < snap.stack[f].len() && #[trigger] snap.stack[f][k] == i;
        lemma_occurrences_positive(state.stack[f], i);
        lemma_occurrences_in_positive(state.stack, i);
    } else {
        let a = choose|a: int| #[trigger] snap.reaches_within(0, n, a) && snap.points_to(a, i);
        lemma_occurrences_positive(held_lists(state.heap)[a], i);
        lemma_occurrences_in_positive(held_lists(state.heap), i);
    }
}

impl RefCountModel {
    /// The slots whose count is above zero are exactly the slots that the
    /// stack reaches.
    pub open spec fn counts_match_reach(self) -> bool {
        forall|i: int|
            0 <= i < self.heap.len() ==> ((#[trigger] self.heap[i]).count > 0 <==> self.snapshot().reaches(
                i,
            ))
    }

    /// Each slot that the stack reaches lies in the heap and has a count
    /// above zero.
    pub open spec fn live_is_counted(self) -> bool {
        forall|i: int| #[trigger]
            self.snapshot().reaches(i) ==> 0 <= i < self.heap.len() && self.heap[i].count > 0
    }

    /// What a slot without references still refers to is reached by the
    /// stack once such slots are freed: freeing them leaves no count behind
    /// that nothing accounts for.
    pub open spec fn strands_nothing(self) -> bool {
        forall|z: int, k: int|
            0 <= z < self.heap.len() && self.heap[z].count == 0 && 0 <= k < held(self.heap[z]).len()
                ==> self.normalized().snapshot().reaches(#[trigger] held(self.heap[z])[k] as int)
    }

    /// `rank` gives each slot that the stack does not reach a number above
    /// the numbers of the slots that it refers to, all of which lie inside
    /// the heap.
    pub open spec fn ranks_outside_reach(self, rank: Seq<nat>) -> bool {
        &&& rank.len() == self.heap.len()
        &&& forall|j: int, k: int|
            0 <= j < self.heap.len() && !self.snapshot().reaches(j) && 0 <= k < held(
                self.heap[j],
            ).len() ==> (#[trigger] held(self.heap[j])[k]) < self.heap.len() && rank[held(
                self.heap[j],
            )[k] as int] < rank[j]
    }

    /// No cycle of references lies among the slots that the stack does not
    /// reach. Cycles that the stack reaches do no harm.
    pub open spec fn no_hidden_cycle(self) -> bool {
        exists|rank: Seq<nat>| self.ranks_outside_reach(rank)
    }

    /// Of the last state of a run: freeing the slots without references
    /// strands nothing, and leaves no cycle that the stack does not reach.
    pub open spec fn leaves_no_garbage(self) -> bool {
        self.strands_nothing() && self.normalized().no_hidden_cycle()
    }
}

/// Where the counts of the last state are exact and it leaves no garbage,
/// the stack reaches at the end each slot whose count is above zero.
pub proof fn lemma_counted_is_reached(last: RefCountModel, rank: Seq<nat>, i: int)
    requires
        last.exact(),
        last.strands_nothing(),
        last.normalized().ranks_outside_reach(rank),
        0 <= i < last.heap.len(),
        last.heap[i].count > 0,
    ensures
        last.normalized().snapshot().reaches(i),
    decreases top_rank(rank) - rank[i],
{
    let end = last.normalized();
    let snap = end.snapshot();
    let n = last.heap.len() as int;
    assert(last.heap[i].count == occurrences_in(last.stack, i) + occurrences_in(
        held_lists(last.heap),
        i,
    ) + occurrences(Seq::<u32>::empty(), i));
    if occurrences_in(last.stack, i) > 0 {
        lemma_occurrences_in_positive(last.stack, i);
        let f = choose|f: int| 0 <= f < last.stack.len() && occurrences(#[trigger] last.stack[f], i) > 0;
        lemma_occurrences_positive(last.stack[f], i);
        let k = choose|k: int| 0 <= k < last.stack[f].len() && #[trigger] last.stack[f][k] == i;
        assert(snap.stack[f][k] == i);
        crate::reach::lemma_root_reaches(snap, 0, n, i);
    } else {
        let lists = held_lists(last.heap);
        lemma_occurrences_in_positive(lists, i);
        let j = choose|j: int| 0 <= j < lists.len() && occurrences(#[trigger] lists[j], i) > 0;
        lemma_occurrences_positive(lists[j], i);
        let k = choose|k: int| 0 <= k < lists[j].len() && #[trigger] lists[j][k] == i;
        assert(held(last.heap[j])[k] == i);
        if last.heap[j].count > 0 {
            assert(end.heap[j] == last.heap[j]);
            if !snap.reaches(j) {
                assert(held(end.heap[j])[k] == i);
                lemma_top_rank(rank, j);
                lemma_counted_is_reached(last, rank, j);
            }
            assert(snap.children_of(j)[k] == i);
            crate::reach::lemma_step_reaches(snap, 0, n, j, i);
        }
    }
}

/// What the stack reaches once the slots without references are freed, it
/// reached before.
pub proof fn lemma_normalized_reaches(state: RefCountModel, i: int)
    requires
        state.normalized().snapshot().reaches(i),
    ensures
        state.snapshot().reaches(i),
{
    let before = state.snapshot();
    let after = state.normalized().snapshot();
    let n = state.heap.len() as int;
    let p = choose|p: Seq<int>| #[trigger] after.is_path(0, n, p) && p.last() == i;
    let (f, k) = choose|f: int, k: int|
        0 <= f < after.stack.len() && 0 <= k < after.stack[f].len() && #[trigger] after.stack[f][k]
            == p[0];
    assert(before.stack[f][k] == p[0]);
    assert forall|x: int| 0 < x < p.len() implies before.points_to(p[x - 1], #[trigger] p[x]) by {
        let a = p[x - 1];
        let k = choose|k: int| 0 <= k < after.children_of(a).len() && #[trigger] after.children_of(a)[k]
            == p[x];
        assert(before.children_of(a)[k] == p[x]);
    }
    assert(before.is_path(0, n, p));
}

/// Of a state with exact counts and every index inside the heap, once its
/// slots without references are freed: each slot that the stack reaches
/// has a count above zero, and the counted slots are exactly the reached
/// ones if, and only if, the state leaves no garbage.
pub proof fn lemma_state_agreement(last: RefCountModel)
    requires
        last.exact(),
        last.wf(),
    ensures
        last.normalized().live_is_counted(),
        last.normalized().counts_match_reach() <==> last.leaves_no_garbage(),
{
    let end = last.normalized();
    let snap = end.snapshot();
    assert forall|i: int| #[trigger] snap.reaches(i) implies 0 <= i < end.heap.len() && end.heap[i].count
        > 0 by {
        lemma_normalized_reaches(last, i);
        lemma_reached_is_counted(last, i);
    }
    if last.leaves_no_garbage() {
        let rank = choose|rank: Seq<nat>| end.ranks_outside_reach(rank);
        assert forall|i: int| 0 <= i < end.heap.len() implies ((#[trigger] end.heap[i]).count > 0
            <==> snap.reaches(i)) by {
            if end.heap[i].count > 0 {
                lemma_counted_is_reached(last, rank, i);
            }
        }
    }
    if end.counts_match_reach() {
        assert forall|z: int, k: int|
            0 <= z < last.heap.len() && last.heap[z].count == 0 && 0 <= k < held(
                last.heap[z],
            ).len() implies snap.reaches(#[trigger] held(last.heap[z])[k] as int) by {
            let i = held(last.heap[z])[k] as int;
            assert(crate::refcount::refs_below(held(last.heap[z]), last.heap.len() as int));
            assert(held_lists(last.heap)[z][k] == i);
            lemma_occurrences_positive(held_lists(last.heap)[z], i);
            lemma_occurrences_in_positive(held_lists(last.heap), i);
            assert(last.heap[i].count == occurrences_in(last.stack, i) + occurrences_in(
                held_lists(last.heap),
                i,
            ) + occurrences(Seq::<u32>::empty(), i));
            assert(end.heap[i].count > 0);
        }
        let rank = Seq::new(end.heap.len(), |i: int| 0nat);
        assert(end.ranks_outside_reach(rank)) by {
            assert forall|j: int, k: int|
                0 <= j < end.heap.len() && !snap.reaches(j) && 0 <= k < held(
                    end.heap[j],
                ).len() implies (#[trigger] held(end.heap[j])[k]) < end.heap.len() && rank[held(
                end.heap[j],
            )[k] as int] < rank[j] by {
                assert(end.heap[j].count == 0);
            }
        }
    }
}

/// Unused slots under an empty stack have exact counts.
pub proof fn lemma_initial_is_exact(slots: nat)
    ensures
        RefCountModel::initial(slots).exact(),
        tidy(RefCountModel::initial(slots).heap),
{
    let start = RefCountModel::initial(slots);
    assert forall|i: int| 0 <= i < start.heap.len() implies (#[trigger] start.heap[i]).count
        == occurrences_in(start.stack, i) + occurrences_in(held_lists(start.heap), i) + occurrences(
        Seq::<u32>::empty(),
        i,
    ) by {
        lemma_occurrences_in_positive(held_lists(start.heap), i);
    }
}

/// A run keeps the counts exact.
pub proof fn lemma_run_keeps_exact(state: RefCountModel, commands: Seq<CommandModel>)
    requires
        state.exact(),
    ensures
        state.run(commands) matches Ok(end) ==> end.exact(),
    decreases commands.len(),
{
    if commands.len() > 0 {
        match state.outcome(commands[0]) {
            Ok(next) => {
                lemma_step_keeps_exact(state, commands[0]);
                lemma_run_keeps_exact(next, commands.drop_first());
            },
            Err(_) => {},
        }
    }
}

/// A run that never holds a cycle of references leaves no slot without
/// references with an object, and ends without a cycle.
pub proof fn lemma_run_keeps_tidy(state: RefCountModel, commands: Seq<CommandModel>)
    requires
        tidy(state.heap),
        state.stays_acyclic(commands),
    ensures
        state.run(commands) matches Ok(end) ==> tidy(end.heap) && acyclic(end.heap),
    decreases commands.len(),
{
    if commands.len() > 0 {
        match state.outcome(commands[0]) {
            Ok(next) => {
                lemma_step_keeps_tidy(state, commands[0]);
                lemma_run_keeps_tidy(next, commands.drop_first());
            },
            Err(_) => {},
        }
    }
}

/// A run leaves every index inside the heap.
pub proof fn lemma_run_keeps_bounds(state: RefCountModel, commands: Seq<CommandModel>)
    requires
        state.wf(),
    ensures
        state.run(commands) matches Ok(end) ==> end.wf(),
    decreases commands.len(),
{
    if commands.len() > 0 {
        match state.outcome(commands[0]) {
            Ok(next) => {
                crate::refcount::lemma_step_keeps_bounds(state, commands[0]);
                lemma_run_keeps_bounds(next, commands.drop_first());
            },
            Err(_) => {},
        }
    }
}

/// Whatever the commands, a slot that the stack reaches at the end of a
/// run has a count above zero: counting frees nothing that is live.
pub proof fn lemma_live_slots_are_counted(slots: nat, commands: Seq<CommandModel>)
    ensures
        finished(RefCountModel::initial(slots).run(commands)) matches Ok(end) ==> end.live_is_counted(),
{
    let start = RefCountModel::initial(slots);
    lemma_initial_is_exact(slots);
    lemma_run_keeps_exact(start, commands);
    lemma_run_keeps_bounds(start, commands);
    match start.run(commands) {
        Ok(last) => {
            lemma_state_agreement(last);
        },
        Err(_) => {},
    }
}

/// Reference counts and reachability agree exactly where a run leaves no
/// garbage. Whatever the commands, pops from an empty stack among them:
/// at the end of the run the slots whose count is above zero are the slots
/// that the stack reaches if, and only if, the last state leaves no
/// garbage, that is, no count that only a slot without references accounts
/// for, and no cycle of references that the stack does not reach.
pub proof fn lemma_counts_agree_with_reach(slots: nat, commands: Seq<CommandModel>)
    ensures
        RefCountModel::initial(slots).run(commands) matches Ok(last) ==> (
        last.normalized().counts_match_reach() <==> last.leaves_no_garbage()),
{
    let start = RefCountModel::initial(slots);
    lemma_initial_is_exact(slots);
    lemma_run_keeps_exact(start, commands);
    lemma_run_keeps_bounds(start, commands);
    match start.run(commands) {
        Ok(last) => {
            lemma_state_agreement(last);
        },
        Err(_) => {},
    }
}

/// A state without a cycle of references in which no slot without
/// references holds an object leaves no garbage.
pub proof fn lemma_tidy_acyclic_leaves_no_garbage(last: RefCountModel)
    requires
        tidy(last.heap),
        acyclic(last.heap),
    ensures
        last.leaves_no_garbage(),
{
    let end = last.normalized();
    assert(end.heap =~= last.heap);
    let rank = choose|rank: Seq<nat>| is_ranking(last.heap, rank);
    assert(end.ranks_outside_reach(rank));
}

/// After a run that never leads through a state with a cycle of
/// references, the slots whose count is above zero are exactly the slots
/// that the stack reaches.
pub proof fn lemma_acyclic_run_agrees(slots: nat, commands: Seq<CommandModel>)
    requires
        RefCountModel::initial(slots).stays_acyclic(commands),
    ensures
        finished(RefCountModel::initial(slots).run(commands)) matches Ok(end)
            ==> end.counts_match_reach(),
{
    let start = RefCountModel::initial(slots);
    lemma_initial_is_exact(slots);
    lemma_run_keeps_tidy(start, commands);
    lemma_counts_agree_with_reach(slots, commands);
    match start.run(commands) {
        Ok(last) => {
            lemma_tidy_acyclic_leaves_no_garbage(last);
        },
        Err(_) => {},
    }
}

/// The commands that the lines of a trace hold, in their order.
pub open spec fn spoken(lines: Seq<Seq<char>>) -> Seq<CommandModel>
    decreases lines.len(),
{
    if lines.len() == 0 {
        Seq::empty()
    } else {
        match line_command(lines[0]) {
            Ok(Some(command)) => seq![command] + spoken(lines.drop_first()),
            _ => spoken(lines.drop_first()),
        }
    }
}

/// A trace that can be followed to its end leads where its commands lead.
pub proof fn lemma_lines_are_commands(state: RefCountModel, lines: Seq<Seq<char>>)
    ensures
        state.run_lines(lines) matches Ok(end) ==> state.run(spoken(lines)) == Ok::<
            RefCountModel,
            GcError,
        >(end),
    decreases lines.len(),
{
    if lines.len() > 0 {
        let rest = lines.drop_first();
        match line_command(lines[0]) {
            Ok(Some(command)) => {
                let commands = seq![command] + spoken(rest);
                assert(commands[0] == command);
                assert(commands.drop_first() =~= spoken(rest));
                match state.outcome(command) {
                    Ok(next) => {
                        lemma_lines_are_commands(next, rest);
                    },
                    Err(_) => {},
                }
            },
            Ok(None) => {
                lemma_lines_are_commands(state, rest);
            },
            Err(_) => {},
        }
    }
}

/// Following a trace keeps the counts exact and every index inside the
/// heap.
pub proof fn lemma_trace_keeps_exact(state: RefCountModel, lines: Seq<Seq<char>>)
    requires
        state.exact(),
        state.wf(),
    ensures
        state.run_lines(lines) matches Ok(end) ==> end.exact() && end.wf(),
{
    lemma_lines_are_commands(state, lines);
    lemma_run_keeps_exact(state, spoken(lines));
    lemma_run_keeps_bounds(state, spoken(lines));
}

/// Whatever the lines of a trace, a slot that the stack reaches at its end
/// has a count above zero.
pub proof fn lemma_trace_live_slots_are_counted(slots: nat, lines: Seq<Seq<char>>)
    ensures
        finished(RefCountModel::initial(slots).run_lines(lines)) matches Ok(end)
            ==> end.live_is_counted(),
{
    lemma_lines_are_commands(RefCountModel::initial(slots), lines);
    lemma_live_slots_are_counted(slots, spoken(lines));
}

/// At the end of a trace the slots whose count is above zero are the slots
/// that the stack reaches if, and only if, the last state leaves no
/// garbage.
pub proof fn lemma_trace_counts_agree_with_reach(slots: nat, lines: Seq<Seq<char>>)
    ensures
        RefCountModel::initial(slots).run_lines(lines) matches Ok(last) ==> (
        last.normalized().counts_match_reach() <==> last.leaves_no_garbage()),
{
    lemma_lines_are_commands(RefCountModel::initial(slots), lines);
    lemma_counts_agree_with_reach(slots, spoken(lines));
}

/// After a trace whose commands never lead through a state with a cycle of
/// references, the slots whose count is above zero are exactly the slots
/// that the stack reaches.
pub proof fn lemma_acyclic_trace_agrees(slots: nat, lines: Seq<Seq<char>>)
    requires
        RefCountModel::initial(slots).stays_acyclic(spoken(lines)),
    ensures
        finished(RefCountModel::initial(slots).run_lines(lines)) matches Ok(end)
            ==> end.counts_match_reach(),
{
    lemma_lines_are_commands(RefCountModel::initial(slots), lines);
    lemma_acyclic_run_agrees(slots, spoken(lines));
}

} // verus!
