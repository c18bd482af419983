//! The heap and the stack that the collectors work on, and their
//! mathematical model.

use vstd::prelude::*;

verus! {

/// Why a collector refused its input.
#[derive(Clone, Copy, Debug, PartialEq, Eq, Structural)]
pub enum GcError {
    /// A root, a child or a command's target lies outside the heap.
    OutOfBounds,
    /// A reference count would pass `u32::MAX`, or a heap has more slots
    /// than a `u32` can index.
    CapacityExceeded,
    /// A line of a trace holds an index that cannot be read.
    MalformedCommand,
}

/// A snapshot of a runtime: the call stack, one frame of roots after the
/// other, and the heap, whose slots are empty or hold a label and the
/// indices of the slots that the object refers to.
#[derive(Clone, Debug)]
pub struct Memory {
    pub stack: Vec<Vec<u32>>,
    pub heap: Vec<Option<(String, Vec<u32>)>>,
}

/// What an occupied slot holds.
pub struct Object {
    pub label: Seq<char>,
    pub children: Seq<u32>,
}

/// A `Memory` as plain sequences.
pub struct MemoryModel {
    pub stack: Seq<Seq<u32>>,
    pub heap: Seq<Option<Object>>,
}

/// The frames of a stack as sequences.
pub open spec fn stack_model(stack: Seq<Vec<u32>>) -> Seq<Seq<u32>> {
    Seq::new(stack.len(), |f: int| stack[f]@)
}

/// What a slot holds, as plain values.
pub open spec fn slot_model(slot: Option<(String, Vec<u32>)>) -> Option<Object> {
    match slot {
        Some(o) => Some(Object { label: o.0@, children: o.1@ }),
        None => None,
    }
}

/// The slots of a heap as plain values.
pub open spec fn heap_model(heap: Seq<Option<(String, Vec<u32>)>>) -> Seq<Option<Object>> {
    Seq::new(heap.len(), |i: int| slot_model(heap[i]))
}

/// The model of a stack and a heap that are held apart.
pub open spec fn model_of(stack: &Vec<Vec<u32>>, heap: &Vec<Option<(String, Vec<u32>)>>) -> MemoryModel {
    MemoryModel { stack: stack_model(stack@), heap: heap_model(heap@) }
}

impl View for Memory {
    type V = MemoryModel;

    open spec fn view(&self) -> MemoryModel {
        model_of(&self.stack, &self.heap)
    }
}

impl MemoryModel {
    /// The references that slot `i` holds: none where it is empty or no slot.
    pub open spec fn children_of(self, i: int) -> Seq<u32> {
        if 0 <= i < self.heap.len() && self.heap[i] is Some {
            self.heap[i]->0.children
        } else {
            Seq::empty()
        }
    }

    /// Every root names a slot of the heap.
    pub open spec fn roots_in_bounds(self) -> bool {
        forall|f: int, k: int|
            0 <= f < self.stack.len() && 0 <= k < self.stack[f].len() ==> #[trigger] self.stack[f][k]
                < self.heap.len()
    }

    /// Every reference held by an object names a slot of the heap.
    pub open spec fn children_in_bounds(self) -> bool {
        forall|i: int, k: int|
            0 <= i < self.heap.len() && 0 <= k < self.children_of(i).len()
                ==> #[trigger] self.children_of(i)[k] < self.heap.len()
    }

    /// No index anywhere in the snapshot points outside the heap.
    pub open spec fn in_bounds(self) -> bool {
        self.roots_in_bounds() && self.children_in_bounds()
    }
}

/// Whether every index of `refs` is below `limit`.
pub fn all_below(refs: &Vec<u32>, limit: usize) -> (b: bool)
    ensures
        b == (forall|k: int| 0 <= k < refs@.len() ==> refs@[k] < limit),
{
    let mut k: usize = 0;
    while k < refs.len()
        invariant
            k <= refs.len(),
            forall|j: int| 0 <= j < k ==> refs@[j] < limit,
        decreases refs.len() - k,
    {
        if refs[k] as usize >= limit {
            return false;
        }
        k += 1;
    }
    true
}

/// Whether every root and every child of the snapshot names a slot of the heap.
pub fn check_bounds(stack: &Vec<Vec<u32>>, heap: &Vec<Option<(String, Vec<u32>)>>) -> (b: bool)
    ensures
        b == model_of(stack, heap).in_bounds(),
{
    let ghost m = model_of(stack, heap);
    let mut f: usize = 0;
    while f < stack.len()
        invariant
            f <= stack.len(),
            m == model_of(stack, heap),
            forall|g: int, k: int|
                0 <= g < f && 0 <= k < m.stack[g].len() ==> #[trigger] m.stack[g][k] < m.heap.len(),
        decreases stack.len() - f,
    {
        if !all_below(&stack[f], heap.len()) {
            assert(!m.roots_in_bounds()) by {
                let k = choose|k: int| 0 <= k < stack[f as int]@.len() && !(stack[f as int]@[k] < heap.len());
                assert(!(m.stack[f as int][k] < m.heap.len()));
            }
            return false;
        }
        f += 1;
    }
    let mut i: usize = 0;
    while i < heap.len()
        invariant
            i <= heap.len(),
            m == model_of(stack, heap),
            m.roots_in_bounds(),
            forall|j: int, k: int|
                0 <= j < i && 0 <= k < m.children_of(j).len() ==> #[trigger] m.children_of(j)[k]
                    < m.heap.len(),
        decreases heap.len() - i,
    {
        match &heap[i] {
            Some(object) => {
                assert(m.children_of(i as int) == object.1@);
                if !all_below(&object.1, heap.len()) {
                    return false;
                }
            },
            None => {},
        }
        i += 1;
    }
    true
}

} // verus!
