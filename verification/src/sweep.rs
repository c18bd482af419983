//! Mark-and-sweep: empty every slot that the stack does not reach.

use vstd::prelude::*;
use crate::memory::{GcError, Memory, MemoryModel};
use crate::reach::{is_ascending, lemma_path_prefix, reachable};

verus! {

impl MemoryModel {
    /// The snapshot with every slot emptied that no path ends at.
    pub open spec fn swept(self) -> MemoryModel {
        MemoryModel {
            stack: self.stack,
            heap: Seq::new(
                self.heap.len(),
                |i: int|
                    if self.reaches(i) {
                        self.heap[i]
                    } else {
                        None
                    },
            ),
        }
    }

    /// Frame by frame, `other` holds every root that `self` holds.
    pub open spec fn stack_within(self, other: MemoryModel) -> bool {
        &&& self.stack.len() <= other.stack.len()
        &&& forall|f: int, k: int|
            0 <= f < self.stack.len() && 0 <= k < self.stack[f].len() ==> other.stack[f].contains(
                #[trigger] self.stack[f][k],
            )
    }
}

/// Empties every slot of the heap that the stack does not reach, and leaves
/// the others and the stack as they are.
///
/// A snapshot that holds an index outside the heap is refused and left as
/// it is.
pub fn mark_and_sweep(mem: &mut Memory) -> (r: Result<(), GcError>)
    ensures
        old(mem)@.in_bounds() ==> r is Ok && final(mem)@ == old(mem)@.swept(),
        !old(mem)@.in_bounds() ==> r == Err::<(), GcError>(GcError::OutOfBounds) && *final(mem) == *old(
            mem,
        ),
{
    let live = match reachable(&mem.stack, &mem.heap) {
        Ok(live) => live,
        Err(e) => {
            return Err(e);
        },
    };
    let ghost m = mem@;
    let mut next: usize = 0;
    let mut i: usize = 0;
    while i < mem.heap.len()
        invariant
            i <= mem.heap.len(),
            next <= live.len(),
            m == old(mem)@,
            mem.stack == old(mem).stack,
            mem.heap.len() == old(mem).heap.len(),
            is_ascending(live@),
            forall|x: u32| live@.contains(x) <==> m.reaches(x as int),
            forall|j: int| 0 <= j < next ==> live[j] < i,
            forall|j: int| next <= j < live.len() ==> live[j] >= i,
            forall|j: int| 0 <= j < i ==> mem@.heap[j] == m.swept().heap[j],
            forall|j: int| i <= j < mem.heap.len() ==> mem.heap[j] == old(mem).heap[j],
        decreases mem.heap.len() - i,
    {
        if next < live.len() && live[next] as usize == i {
            next += 1;
        } else {
            mem.heap[i] = None;
        }
        i += 1;
    }
    assert(mem@.heap =~= m.swept().heap);
    Ok(())
}

/// A path of the swept snapshot is a path of the snapshot.
proof fn lemma_swept_path_back(m: MemoryModel, p: Seq<int>)
    requires
        m.swept().is_path(0, m.heap.len() as int, p),
    ensures
        m.is_path(0, m.heap.len() as int, p),
{
    let s = m.swept();
    assert forall|i: int| 0 < i < p.len() implies m.points_to(p[i - 1], #[trigger] p[i]) by {
        let a = p[i - 1];
        let k = choose|k: int| 0 <= k < s.children_of(a).len() && #[trigger] s.children_of(a)[k] == p[i];
        assert(m.children_of(a)[k] == p[i]);
    }
}

/// A path of the snapshot is a path of the swept snapshot.
proof fn lemma_swept_path_forth(m: MemoryModel, p: Seq<int>)
    requires
        m.is_path(0, m.heap.len() as int, p),
    ensures
        m.swept().is_path(0, m.heap.len() as int, p),
{
    let s = m.swept();
    assert forall|i: int| 0 < i < p.len() implies s.points_to(p[i - 1], #[trigger] p[i]) by {
        let a = p[i - 1];
        lemma_path_prefix(m, 0, m.heap.len() as int, p, i);
        let k = choose|k: int| 0 <= k < m.children_of(a).len() && #[trigger] m.children_of(a)[k] == p[i];
        assert(s.children_of(a)[k] == p[i]);
    }
    let (f, k) = choose|f: int, k: int|
        0 <= f < m.stack.len() && 0 <= k < m.stack[f].len() && #[trigger] m.stack[f][k] == p[0];
    assert(s.stack[f][k] == p[0]);
}

/// Sweeping changes nothing about which slots are reached.
pub proof fn lemma_swept_reaches(m: MemoryModel, x: int)
    ensures
        m.swept().reaches(x) == m.reaches(x),
{
    let s = m.swept();
    let n = m.heap.len() as int;
    if s.reaches(x) {
        let p = choose|p: Seq<int>| #[trigger] s.is_path(0, n, p) && p.last() == x;
        lemma_swept_path_back(m, p);
    }
    if m.reaches(x) {
        let p = choose|p: Seq<int>| #[trigger] m.is_path(0, n, p) && p.last() == x;
        lemma_swept_path_forth(m, p);
    }
}

/// Sweeping a second time changes nothing: what the first sweep kept is
/// exactly what the stack still reaches.
pub proof fn lemma_sweep_idempotent(m: MemoryModel)
    ensures
        m.swept().swept() == m.swept(),
{
    let s = m.swept();
    assert forall|i: int| 0 <= i < s.heap.len() implies s.swept().heap[i] == s.heap[i] by {
        lemma_swept_reaches(m, i);
    }
    assert(s.swept().heap =~= s.heap);
}

/// Sweeping keeps a snapshot's indices inside the heap.
pub proof fn lemma_swept_in_bounds(m: MemoryModel)
    requires
        m.in_bounds(),
    ensures
        m.swept().in_bounds(),
{
    let s = m.swept();
    assert forall|i: int, k: int|
        0 <= i < s.heap.len() && 0 <= k < s.children_of(i).len() implies #[trigger] s.children_of(
        i,
    )[k] < s.heap.len() by {
        assert(s.children_of(i)[k] == m.children_of(i)[k]);
    }
}

/// With more roots on the stack, no fewer slots are reached: where `small`
/// and `large` share a heap and each frame of `large` holds what the same
/// frame of `small` holds, `large` reaches every slot that `small` reaches.
pub proof fn lemma_reach_monotone(small: MemoryModel, large: MemoryModel, x: int)
    requires
        small.heap == large.heap,
        small.stack_within(large),
        small.reaches(x),
    ensures
        large.reaches(x),
{
    let n = small.heap.len() as int;
    let p = choose|p: Seq<int>| #[trigger] small.is_path(0, n, p) && p.last() == x;
    assert forall|i: int| 0 < i < p.len() implies large.points_to(p[i - 1], #[trigger] p[i]) by {
        let a = p[i - 1];
        let j = choose|j: int|
            0 <= j < small.children_of(a).len() && #[trigger] small.children_of(a)[j] == p[i];
        assert(large.children_of(a)[j] == p[i]);
    }
    assert(large.is_path(0, n, p));
}

} // verus!
