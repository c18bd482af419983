//! Which slots of a heap the stack can reach.

use vstd::prelude::*;
use crate::memory::{check_bounds, model_of, GcError, MemoryModel};

verus! {

impl MemoryModel {
    /// Some stack frame holds `x`.
    pub open spec fn is_root(self, x: int) -> bool {
        exists|f: int, k: int|
            0 <= f < self.stack.len() && 0 <= k < self.stack[f].len() && #[trigger] self.stack[f][k]
                == x
    }

    /// Slot `a` holds an object that refers to `b`.
    pub open spec fn points_to(self, a: int, b: int) -> bool {
        exists|k: int| 0 <= k < self.children_of(a).len() && #[trigger] self.children_of(a)[k] == b
    }

    /// `p` starts at a root, follows one reference at each step, and stays
    /// inside `lo..hi`.
    pub open spec fn is_path(self, lo: int, hi: int, p: Seq<int>) -> bool {
        &&& p.len() > 0
        &&& self.is_root(p[0])
        &&& forall|i: int| 0 <= i < p.len() ==> lo <= #[trigger] p[i] < hi
        &&& forall|i: int| 0 < i < p.len() ==> self.points_to(p[i - 1], #[trigger] p[i])
    }

    /// A path inside `lo..hi` ends at `x`.
    pub open spec fn reaches_within(self, lo: int, hi: int, x: int) -> bool {
        exists|p: Seq<int>| #[trigger] self.is_path(lo, hi, p) && p.last() == x
    }

    /// A path inside the heap ends at `x`: the slot is live.
    pub open spec fn reaches(self, x: int) -> bool {
        self.reaches_within(0, self.heap.len() as int, x)
    }
}

/// A root inside the range is reached.
pub proof fn lemma_root_reaches(m: MemoryModel, lo: int, hi: int, x: int)
    requires
        m.is_root(x),
        lo <= x < hi,
    ensures
        m.reaches_within(lo, hi, x),
{
    let p = seq![x];
    assert(m.is_path(lo, hi, p));
}

/// What a reached slot refers to inside the range is reached too.
pub proof fn lemma_step_reaches(m: MemoryModel, lo: int, hi: int, a: int, b: int)
    requires
        m.reaches_within(lo, hi, a),
        m.points_to(a, b),
        lo <= b < hi,
    ensures
        m.reaches_within(lo, hi, b),
{
    let p = choose|p: Seq<int>| #[trigger] m.is_path(lo, hi, p) && p.last() == a;
    let q = p.push(b);
    assert(m.is_path(lo, hi, q));
}

/// The start of a path is a path.
pub proof fn lemma_path_prefix(m: MemoryModel, lo: int, hi: int, p: Seq<int>, n: int)
    requires
        m.is_path(lo, hi, p),
        0 < n <= p.len(),
    ensures
        m.is_path(lo, hi, p.take(n)),
{
}

/// A reached slot is a root or is referred to by a reached slot.
pub proof fn lemma_reaches_cases(m: MemoryModel, lo: int, hi: int, x: int)
    requires
        m.reaches_within(lo, hi, x),
    ensures
        lo <= x < hi,
        m.is_root(x) || exists|a: int| #[trigger] m.reaches_within(lo, hi, a) && m.points_to(a, x),
{
    let p = choose|p: Seq<int>| #[trigger] m.is_path(lo, hi, p) && p.last() == x;
    if p.len() > 1 {
        let q = p.drop_last();
        lemma_path_prefix(m, lo, hi, p, p.len() - 1);
        assert(m.reaches_within(lo, hi, q.last()));
    }
}

/// `marks` holds every root inside `lo..hi`.
pub open spec fn holds_roots(m: MemoryModel, lo: int, hi: int, marks: Seq<bool>) -> bool {
    forall|f: int, k: int|
        0 <= f < m.stack.len() && 0 <= k < m.stack[f].len() && lo <= #[trigger] m.stack[f][k] < hi
            ==> marks[m.stack[f][k] as int]
}

/// Slot `i` has all that it refers to inside `lo..hi` marked.
pub open spec fn is_closed_at(m: MemoryModel, lo: int, hi: int, marks: Seq<bool>, i: int) -> bool {
    forall|k: int|
        0 <= k < m.children_of(i).len() && lo <= #[trigger] m.children_of(i)[k] < hi
            ==> marks[m.children_of(i)[k] as int]
}

/// A set of marks that holds the roots and is closed under references holds
/// the end of every path.
pub proof fn lemma_closed_covers(m: MemoryModel, lo: int, hi: int, marks: Seq<bool>, p: Seq<int>)
    requires
        0 <= lo <= hi <= marks.len(),
        holds_roots(m, lo, hi, marks),
        forall|i: int| 0 <= i < marks.len() && marks[i] ==> is_closed_at(m, lo, hi, marks, i),
        m.is_path(lo, hi, p),
    ensures
        marks[p.last()],
    decreases p.len(),
{
    if p.len() > 1 {
        lemma_closed_covers(m, lo, hi, marks, p.drop_last());
    }
}

/// How many slots are not marked.
pub open spec fn unmarked(marks: Seq<bool>) -> nat
    decreases marks.len(),
{
    if marks.len() == 0 {
        0
    } else {
        unmarked(marks.drop_last()) + if marks.last() {
            0nat
        } else {
            1nat
        }
    }
}

/// Marking a slot that was not marked leaves one slot fewer unmarked.
proof fn lemma_mark_one(marks: Seq<bool>, i: int)
    requires
        0 <= i < marks.len(),
        !marks[i],
    ensures
        unmarked(marks.update(i, true)) + 1 == unmarked(marks),
    decreases marks.len(),
{
    if i == marks.len() - 1 {
        assert(marks.update(i, true).drop_last() == marks.drop_last());
    } else {
        assert(marks.update(i, true).drop_last() == marks.drop_last().update(i, true));
        lemma_mark_one(marks.drop_last(), i);
    }
}

/// Marks what `refs` names inside `lo..hi`, and queues what was not marked
/// before.
fn visit(refs: &Vec<u32>, lo: usize, hi: usize, marks: &mut Vec<bool>, work: &mut Vec<usize>)
    requires
        lo <= hi <= old(marks).len(),
    ensures
        final(marks).len() == old(marks).len(),
        forall|i: int|
            0 <= i < old(marks).len() ==> (#[trigger] final(marks)[i] <==> old(marks)[i] || (lo <= i
                < hi && exists|k: int| 0 <= k < refs@.len() && #[trigger] refs@[k] == i)),
        final(work).len() >= old(work).len(),
        final(work)@.take(old(work).len() as int) == old(work)@,
        forall|j: int|
            old(work).len() <= j < final(work).len() ==> {
                &&& (#[trigger] final(work)[j]) < old(marks).len()
                &&& !old(marks)[final(work)[j] as int]
                &&& final(marks)[final(work)[j] as int]
            },
        forall|i: int|
            0 <= i < old(marks).len() && final(marks)[i] && !old(marks)[i] ==> final(work)@.contains(
                i as usize,
            ),
        unmarked(final(marks)@) + final(work).len() == unmarked(old(marks)@) + old(work).len(),
{
    let mut k: usize = 0;
    while k < refs.len()
        invariant
            k <= refs.len(),
            lo <= hi <= marks.len(),
            marks.len() == old(marks).len(),
            forall|i: int|
                0 <= i < marks.len() ==> (#[trigger] marks[i] <==> old(marks)[i] || (lo <= i < hi
                    && exists|j: int| 0 <= j < k && #[trigger] refs@[j] == i)),
            work.len() >= old(work).len(),
            work@.take(old(work).len() as int) == old(work)@,
            forall|j: int|
                old(work).len() <= j < work.len() ==> {
                    &&& (#[trigger] work[j]) < marks.len()
                    &&& !old(marks)[work[j] as int]
                    &&& marks[work[j] as int]
                },
            forall|i: int|
                0 <= i < marks.len() && marks[i] && !old(marks)[i] ==> work@.contains(i as usize),
            unmarked(marks@) + work.len() == unmarked(old(marks)@) + old(work).len(),
        decreases refs.len() - k,
    {
        let c = refs[k] as usize;
        if lo <= c && c < hi && !marks[c] {
            proof {
                lemma_mark_one(marks@, c as int);
            }
            let ghost before = work@;
            marks[c] = true;
            work.push(c);
            assert forall|i: int|
                0 <= i < marks.len() && marks[i] && !old(marks)[i] implies work@.contains(
                i as usize,
            ) by {
                if i == c {
                    assert(work@[work.len() - 1] == c);
                } else {
                    let j = choose|j: int| 0 <= j < before.len() && before[j] == i as usize;
                    assert(work@[j] == i as usize);
                }
            }
        }
        k += 1;
    }
}

/// Marks each slot that a path inside `lo..hi` ends at.
pub fn mark(
    stack: &Vec<Vec<u32>>,
    heap: &Vec<Option<(String, Vec<u32>)>>,
    lo: usize,
    hi: usize,
) -> (marks: Vec<bool>)
    requires
        model_of(stack, heap).in_bounds(),
        lo <= hi <= heap.len(),
    ensures
        marks.len() == heap.len(),
        forall|i: int|
            0 <= i < heap.len() ==> marks[i] == model_of(stack, heap).reaches_within(
                lo as int,
                hi as int,
                i,
            ),
{
    let ghost m = model_of(stack, heap);
    let n = heap.len();
    let mut marks: Vec<bool> = Vec::new();
    while marks.len() < n
        invariant
            marks.len() <= n,
            forall|i: int| 0 <= i < marks.len() ==> !marks[i],
        decreases n - marks.len(),
    {
        marks.push(false);
    }
    let mut work: Vec<usize> = Vec::new();
    let mut f: usize = 0;
    while f < stack.len()
        invariant
            f <= stack.len(),
            n == heap.len(),
            lo <= hi <= n,
            m == model_of(stack, heap),
            marks.len() == n,
            forall|i: int| 0 <= i < n && marks[i] ==> work@.contains(i as usize),
            forall|j: int| 0 <= j < work.len() ==> (#[trigger] work[j]) < n && marks[work[j] as int],
            forall|i: int| 0 <= i < n && marks[i] ==> m.reaches_within(lo as int, hi as int, i),
            forall|g: int, k: int|
                0 <= g < f && 0 <= k < m.stack[g].len() && lo <= #[trigger] m.stack[g][k] < hi
                    ==> marks[m.stack[g][k] as int],
        decreases stack.len() - f,
    {
        let ghost marks_before = marks@;
        let ghost work_before = work@;
        visit(&stack[f], lo, hi, &mut marks, &mut work);
        proof {
            assert(m.stack[f as int] == stack[f as int]@);
            assert forall|j: int| 0 <= j < work.len() implies (#[trigger] work[j]) < n
                && marks[work[j] as int] by {
                if j < work_before.len() {
                    assert(work@.take(work_before.len() as int)[j] == work@[j]);
                }
            }
            assert forall|i: int| 0 <= i < n && marks[i] implies m.reaches_within(
                lo as int,
                hi as int,
                i,
            ) by {
                if !marks_before[i] {
                    lemma_root_reaches(m, lo as int, hi as int, i);
                }
            }
        }
        f += 1;
    }
    while work.len() > 0
        invariant
            n == heap.len(),
            lo <= hi <= n,
            m == model_of(stack, heap),
            m.in_bounds(),
            marks.len() == n,
            forall|j: int| 0 <= j < work.len() ==> (#[trigger] work[j]) < n && marks[work[j] as int],
            forall|i: int| 0 <= i < n && marks[i] ==> m.reaches_within(lo as int, hi as int, i),
            holds_roots(m, lo as int, hi as int, marks@),
            forall|i: int|
                0 <= i < n && marks[i] ==> work@.contains(i as usize) || is_closed_at(
                    m,
                    lo as int,
                    hi as int,
                    marks@,
                    i,
                ),
        decreases unmarked(marks@) + work.len(),
    {
        let ghost work_full = work@;
        let x = work.pop().unwrap();
        let ghost marks_before = marks@;
        let ghost work_before = work@;
        match &heap[x] {
            Some(object) => {
                assert(m.children_of(x as int) == object.1@);
                visit(&object.1, lo, hi, &mut marks, &mut work);
                proof {
                    assert forall|i: int| 0 <= i < n && marks[i] implies m.reaches_within(
                        lo as int,
                        hi as int,
                        i,
                    ) by {
                        if !marks_before[i] {
                            lemma_step_reaches(m, lo as int, hi as int, x as int, i);
                        }
                    }
                }
            },
            None => {},
        }
        proof {
            assert forall|j: int| 0 <= j < work.len() implies (#[trigger] work[j]) < n
                && marks[work[j] as int] by {
                if j < work_before.len() {
                    assert(work@.take(work_before.len() as int)[j] == work@[j]);
                }
            }
            assert forall|i: int| 0 <= i < n && marks[i] implies work@.contains(i as usize)
                || is_closed_at(m, lo as int, hi as int, marks@, i) by {
                if i != x && marks_before[i] {
                    if work_full.contains(i as usize) {
                        let j = choose|j: int| 0 <= j < work_full.len() && work_full[j] == i as usize;
                        assert(work@.take(work_before.len() as int)[j] == work@[j]);
                    }
                }
            }
        }
    }
    proof {
        assert forall|i: int| 0 <= i < n && m.reaches_within(lo as int, hi as int, i) implies marks[i] by {
            let p = choose|p: Seq<int>| #[trigger] m.is_path(lo as int, hi as int, p) && p.last() == i;
            lemma_closed_covers(m, lo as int, hi as int, marks@, p);
        }
    }
    marks
}

/// Each element is below the next.
pub open spec fn is_ascending(list: Seq<u32>) -> bool {
    forall|i: int, j: int| 0 <= i < j < list.len() ==> list[i] < list[j]
}

/// The slots that the stack reaches, in ascending order.
///
/// A snapshot that holds an index outside the heap is refused.
pub fn reachable(stack: &Vec<Vec<u32>>, heap: &Vec<Option<(String, Vec<u32>)>>) -> (r: Result<
    Vec<u32>,
    GcError,
>)
    ensures
        match r {
            Ok(list) => {
                &&& model_of(stack, heap).in_bounds()
                &&& is_ascending(list@)
                &&& forall|x: u32| list@.contains(x) <==> model_of(stack, heap).reaches(x as int)
            },
            Err(e) => e == GcError::OutOfBounds && !model_of(stack, heap).in_bounds(),
        },
{
    if !check_bounds(stack, heap) {
        return Err(GcError::OutOfBounds);
    }
    let marks = mark(stack, heap, 0, heap.len());
    Ok(marked_indices(stack, heap, &marks))
}

/// The indices that `marks` holds, in ascending order.
fn marked_indices(
    stack: &Vec<Vec<u32>>,
    heap: &Vec<Option<(String, Vec<u32>)>>,
    marks: &Vec<bool>,
) -> (list: Vec<u32>)
    requires
        marks.len() == heap.len(),
        forall|i: int| 0 <= i < heap.len() ==> marks[i] == model_of(stack, heap).reaches(i),
    ensures
        is_ascending(list@),
        forall|x: u32| list@.contains(x) <==> model_of(stack, heap).reaches(x as int),
{
    let ghost m = model_of(stack, heap);
    let mut list: Vec<u32> = Vec::new();
    let mut i: usize = 0;
    while i < marks.len()
        invariant
            i <= marks.len(),
            marks.len() == heap.len(),
            m == model_of(stack, heap),
            forall|j: int| 0 <= j < heap.len() ==> marks[j] == m.reaches(j),
            is_ascending(list@),
            forall|j: int| 0 <= j < list.len() ==> list[j] < i,
            forall|x: u32| list@.contains(x) <==> x < i && marks[x as int],
        decreases marks.len() - i,
    {
        if marks[i] {
            proof {
                assert(m.reaches(i as int));
            }
            let ghost before = list@;
            list.push(i as u32);
            assert forall|x: u32| list@.contains(x) <==> x < i + 1 && marks[x as int] by {
                if x == i {
                    assert(list@[list.len() - 1] == x);
                } else if before.contains(x) {
                    let j = choose|j: int| 0 <= j < before.len() && before[j] == x;
                    assert(list@[j] == x);
                }
            }
        }
        i += 1;
    }
    list
}

} // verus!
