//! Stop-and-copy: move the live objects of one half of the heap to the
//! start of the other half, and redirect every reference to them.

use vstd::prelude::*;
use crate::memory::{check_bounds, heap_model, model_of, stack_model, GcError, Memory, MemoryModel, Object};
use crate::reach::mark;

verus! {

/// `refs` with each reference that `table` forwards replaced by its new
/// index, in the same order, and the other references left out.
pub open spec fn relocate_by(refs: Seq<u32>, table: Seq<Option<u32>>) -> Seq<u32>
    decreases refs.len(),
{
    if refs.len() == 0 {
        Seq::empty()
    } else {
        let rest = relocate_by(refs.drop_last(), table);
        let last = refs.last() as int;
        if last < table.len() && table[last] is Some {
            rest.push(table[last]->0)
        } else {
            rest
        }
    }
}

/// `refs` with each reference that `table` forwards replaced by its new
/// index, and every other reference as it is.
pub open spec fn redirect_by(refs: Seq<u32>, table: Seq<Option<u32>>) -> Seq<u32> {
    Seq::new(
        refs.len(),
        |k: int|
            if refs[k] < table.len() && table[refs[k] as int] is Some {
                table[refs[k] as int]->0
            } else {
                refs[k]
            },
    )
}

impl MemoryModel {
    /// The number of slots of each half.
    pub open spec fn half(self) -> int {
        self.heap.len() as int / 2
    }

    /// Where the half in use starts.
    pub open spec fn from_start(self, alive: u32) -> int {
        if alive == 0 {
            0
        } else {
            self.half()
        }
    }

    /// Where the other half starts.
    pub open spec fn to_start(self, alive: u32) -> int {
        if alive == 0 {
            self.half()
        } else {
            0
        }
    }

    /// Slot `x` holds an object that a path inside the half in use ends at.
    pub open spec fn survives(self, alive: u32, x: int) -> bool {
        &&& self.reaches_within(self.from_start(alive), self.from_start(alive) + self.half(), x)
        &&& self.heap[x] is Some
    }

    /// The surviving slots of the half in use below `x`, in ascending order.
    pub open spec fn survivors_below(self, alive: u32, x: int) -> Seq<int>
        decreases x - self.from_start(alive),
    {
        if x <= self.from_start(alive) {
            Seq::empty()
        } else {
            let rest = self.survivors_below(alive, x - 1);
            if self.survives(alive, x - 1) {
                rest.push(x - 1)
            } else {
                rest
            }
        }
    }

    /// All surviving slots, in ascending order.
    pub open spec fn survivors(self, alive: u32) -> Seq<int> {
        self.survivors_below(alive, self.from_start(alive) + self.half())
    }

    /// Where the object of slot `x` is moved to: the other half is filled
    /// from its start, in ascending order of the old indices.
    pub open spec fn new_index(self, alive: u32, x: int) -> int {
        self.to_start(alive) + self.survivors_below(alive, x).len()
    }

    /// For each slot the new index of its object, if the object survives.
    pub open spec fn forwarding(self, alive: u32) -> Seq<Option<u32>> {
        Seq::new(
            self.heap.len(),
            |x: int|
                if self.survives(alive, x) {
                    Some(self.new_index(alive, x) as u32)
                } else {
                    None
                },
        )
    }

    /// The snapshot after collection: the survivors stand at the start of
    /// the other half with their labels, and every other slot is empty. A
    /// reference to a survivor names the survivor's new place. A reference
    /// to anything else is gone from the object that held it, and stays as
    /// it is on the stack, where every frame keeps its length.
    pub open spec fn collected(self, alive: u32) -> MemoryModel {
        let to = self.to_start(alive);
        let moved = self.survivors(alive);
        let table = self.forwarding(alive);
        MemoryModel {
            stack: Seq::new(self.stack.len(), |f: int| redirect_by(self.stack[f], table)),
            heap: Seq::new(
                self.heap.len(),
                |j: int|
                    if to <= j < to + moved.len() {
                        Some(
                            Object {
                                label: self.heap[moved[j - to]]->0.label,
                                children: relocate_by(self.children_of(moved[j - to]), table),
                            },
                        )
                    } else {
                        None
                    },
            ),
        }
    }
}

/// The survivors below `x` are the first of the survivors below `y`.
pub proof fn lemma_survivors_prefix(m: MemoryModel, alive: u32, x: int, y: int)
    requires
        x <= y,
    ensures
        m.survivors_below(alive, x).len() <= m.survivors_below(alive, y).len(),
        m.survivors_below(alive, y).take(m.survivors_below(alive, x).len() as int)
            == m.survivors_below(alive, x),
    decreases y - x,
{
    if x < y {
        lemma_survivors_prefix(m, alive, x, y - 1);
    }
}

/// The survivors below `x` are survivors, lie between the start of the half
/// in use and `x`, and are no more than the slots there.
pub proof fn lemma_survivors_bounds(m: MemoryModel, alive: u32, x: int)
    ensures
        m.survivors_below(alive, x).len() <= if x <= m.from_start(alive) {
            0
        } else {
            x - m.from_start(alive)
        },
        forall|k: int|
            0 <= k < m.survivors_below(alive, x).len() ==> {
                let y = #[trigger] m.survivors_below(alive, x)[k];
                &&& m.from_start(alive) <= y < x
                &&& m.survives(alive, y)
                &&& m.survivors_below(alive, y).len() == k
            },
    decreases x - m.from_start(alive),
{
    if x > m.from_start(alive) {
        lemma_survivors_bounds(m, alive, x - 1);
    }
}

/// A survivor stands among the survivors at the place that its new index
/// names.
pub proof fn lemma_survivor_place(m: MemoryModel, alive: u32, x: int)
    requires
        m.survives(alive, x),
        m.from_start(alive) <= x < m.from_start(alive) + m.half(),
    ensures
        m.survivors_below(alive, x).len() < m.survivors(alive).len(),
        m.survivors(alive)[m.survivors_below(alive, x).len() as int] == x,
{
    let hi = m.from_start(alive) + m.half();
    lemma_survivors_prefix(m, alive, x + 1, hi);
    let a = m.survivors_below(alive, x + 1);
    assert(m.survivors(alive).take(a.len() as int)[a.len() - 1] == a[a.len() - 1]);
}

/// What `relocate_by` yields is exactly what `table` forwards some element of
/// `refs` to.
pub proof fn lemma_relocate_contains(refs: Seq<u32>, table: Seq<Option<u32>>, v: u32)
    ensures
        relocate_by(refs, table).contains(v) <==> exists|k: int|
            0 <= k < refs.len() && (#[trigger] refs[k]) < table.len() && table[refs[k] as int] == Some(
                v,
            ),
    decreases refs.len(),
{
    if refs.len() > 0 {
        let front = refs.drop_last();
        let rest = relocate_by(front, table);
        lemma_relocate_contains(front, table, v);
        if relocate_by(refs, table).contains(v) && !rest.contains(v) {
            assert(table[refs.last() as int] == Some(v));
        }
        if exists|k: int|
            0 <= k < refs.len() && (#[trigger] refs[k]) < table.len() && table[refs[k] as int] == Some(
                v,
            ) {
            let k = choose|k: int|
                0 <= k < refs.len() && (#[trigger] refs[k]) < table.len() && table[refs[k] as int]
                    == Some(v);
            let out = relocate_by(refs, table);
            if k == refs.len() - 1 {
                assert(out[out.len() - 1] == v);
            } else {
                assert(front[k] == refs[k]);
                let j = choose|j: int| 0 <= j < rest.len() && rest[j] == v;
                assert(out[j] == v);
            }
        }
    }
}

/// Of two survivors, the one at the lower index is moved to the lower index.
pub proof fn lemma_new_index_increases(m: MemoryModel, alive: u32, x: int, y: int)
    requires
        m.survives(alive, x),
        m.survives(alive, y),
        x < y,
    ensures
        m.new_index(alive, x) < m.new_index(alive, y),
{
    lemma_survivors_prefix(m, alive, x + 1, y);
}

/// A survivor is moved into the other half, below the end of the heap.
pub proof fn lemma_new_index_bounds(m: MemoryModel, alive: u32, x: int)
    requires
        m.survives(alive, x),
    ensures
        m.from_start(alive) <= x < m.from_start(alive) + m.half(),
        m.to_start(alive) <= m.new_index(alive, x) < m.to_start(alive) + m.survivors(alive).len(),
        m.survivors(alive).len() <= m.half(),
        m.survivors(alive)[m.new_index(alive, x) - m.to_start(alive)] == x,
{
    lemma_survivor_place(m, alive, x);
    lemma_survivors_bounds(m, alive, m.from_start(alive) + m.half());
}

/// Collection keeps the labels of what is live: moving each survivor to its
/// new index is one-to-one, reaches every object of the collected heap,
/// and keeps each label; the references of the moved object are those of
/// the survivor, forwarded in their order.
pub proof fn lemma_collection_keeps_labels(m: MemoryModel, alive: u32)
    ensures
        forall|x: int| #[trigger]
            m.survives(alive, x) ==> {
                let moved = m.collected(alive).heap[m.new_index(alive, x)];
                &&& 0 <= m.new_index(alive, x) < m.heap.len()
                &&& moved is Some
                &&& moved->0.label == m.heap[x]->0.label
                &&& moved->0.children == relocate_by(m.children_of(x), m.forwarding(alive))
            },
        forall|x: int, y: int|
            #![trigger m.new_index(alive, x), m.new_index(alive, y)]
            m.survives(alive, x) && m.survives(alive, y) && x != y ==> m.new_index(alive, x)
                != m.new_index(alive, y),
        forall|j: int|
            0 <= j < m.heap.len() && (#[trigger] m.collected(alive).heap[j]) is Some ==> exists|x: int|
                #[trigger] m.survives(alive, x) && m.new_index(alive, x) == j,
{
    let c = m.collected(alive);
    assert forall|x: int| #[trigger] m.survives(alive, x) implies {
        let moved = c.heap[m.new_index(alive, x)];
        &&& 0 <= m.new_index(alive, x) < m.heap.len()
        &&& moved is Some
        &&& moved->0.label == m.heap[x]->0.label
        &&& moved->0.children == relocate_by(m.children_of(x), m.forwarding(alive))
    } by {
        lemma_new_index_bounds(m, alive, x);
    }
    assert forall|x: int, y: int|
        #![trigger m.new_index(alive, x), m.new_index(alive, y)]
        m.survives(alive, x) && m.survives(alive, y) && x != y implies m.new_index(alive, x)
            != m.new_index(alive, y) by {
        if x < y {
            lemma_new_index_increases(m, alive, x, y);
        } else {
            lemma_new_index_increases(m, alive, y, x);
        }
    }
    assert forall|j: int| 0 <= j < m.heap.len() && (#[trigger] c.heap[j]) is Some implies exists|
        x: int,
    | #[trigger] m.survives(alive, x) && m.new_index(alive, x) == j by {
        lemma_survivors_bounds(m, alive, m.from_start(alive) + m.half());
    }
}

/// Collection keeps the shape of what is live: in a heap whose slots a
/// `u32` can index, one survivor refers to another exactly where the moved
/// one refers to the other moved one.
pub proof fn lemma_collection_keeps_graph(m: MemoryModel, alive: u32)
    requires
        m.heap.len() <= u32::MAX,
    ensures
        forall|x: int, y: int|
            #![trigger m.new_index(alive, x), m.new_index(alive, y)]
            m.survives(alive, x) && m.survives(alive, y) ==> (m.points_to(x, y) <==> m.collected(
                alive,
            ).points_to(m.new_index(alive, x), m.new_index(alive, y))),
{
    let c = m.collected(alive);
    let table = m.forwarding(alive);
    assert forall|x: int, y: int|
        #![trigger m.new_index(alive, x), m.new_index(alive, y)]
        m.survives(alive, x) && m.survives(alive, y) implies (m.points_to(x, y) <==> c.points_to(
        m.new_index(alive, x),
        m.new_index(alive, y),
    )) by {
        let nx = m.new_index(alive, x);
        let ny = m.new_index(alive, y);
        lemma_new_index_bounds(m, alive, x);
        lemma_new_index_bounds(m, alive, y);
        let kids = m.children_of(x);
        assert(c.children_of(nx) == relocate_by(kids, table));
        lemma_relocate_contains(kids, table, ny as u32);
        if c.points_to(nx, ny) {
            let k = choose|k: int|
                0 <= k < kids.len() && (#[trigger] kids[k]) < table.len() && table[kids[k] as int]
                    == Some(ny as u32);
            let z = kids[k] as int;
            lemma_new_index_bounds(m, alive, z);
        }
    }
}

/// After collection the half that was in use is empty, the survivors fill
/// the start of the other half and nothing else is occupied, and every
/// reference of an object names a moved survivor. Each frame keeps its
/// length: a root that named a survivor names its new place, and any other
/// root is as it was.
pub proof fn lemma_collected_layout(m: MemoryModel, alive: u32)
    requires
        m.heap.len() <= u32::MAX,
    ensures
        m.survivors(alive).len() <= m.half(),
        forall|j: int|
            0 <= j < m.heap.len() ==> ((#[trigger] m.collected(alive).heap[j]) is Some <==> m.to_start(
                alive,
            ) <= j < m.to_start(alive) + m.survivors(alive).len()),
        forall|j: int|
            m.from_start(alive) <= j < m.from_start(alive) + m.half() ==> (#[trigger] m.collected(
                alive,
            ).heap[j]) is None,
        m.collected(alive).stack.len() == m.stack.len(),
        forall|f: int|
            0 <= f < m.stack.len() ==> (#[trigger] m.collected(alive).stack[f]).len()
                == m.stack[f].len(),
        forall|f: int, k: int|
            0 <= f < m.stack.len() && 0 <= k < m.stack[f].len() ==> (#[trigger] m.collected(
                alive,
            ).stack[f][k]) == if m.survives(alive, m.stack[f][k] as int) {
                m.new_index(alive, m.stack[f][k] as int)
            } else {
                m.stack[f][k] as int
            },
        forall|j: int, k: int|
            0 <= j < m.heap.len() && 0 <= k < m.collected(alive).children_of(j).len() ==> m.to_start(
                alive,
            ) <= (#[trigger] m.collected(alive).children_of(j)[k]) < m.to_start(alive) + m.survivors(
                alive,
            ).len(),
        m.roots_in_bounds() ==> m.collected(alive).in_bounds(),
{
    let to = m.to_start(alive);
    let count = m.survivors(alive).len();
    let table = m.forwarding(alive);
    lemma_survivors_bounds(m, alive, m.from_start(alive) + m.half());
    assert forall|refs: Seq<u32>, k: int| 0 <= k < relocate_by(refs, table).len() implies to <= (
    #[trigger] relocate_by(refs, table)[k]) < to + count by {
        let v = relocate_by(refs, table)[k];
        lemma_relocate_contains(refs, table, v);
        let i = choose|i: int|
            0 <= i < refs.len() && (#[trigger] refs[i]) < table.len() && table[refs[i] as int] == Some(v);
        lemma_new_index_bounds(m, alive, refs[i] as int);
    }
    let c = m.collected(alive);
    assert forall|f: int, k: int| 0 <= f < m.stack.len() && 0 <= k < m.stack[f].len() implies (
    #[trigger] c.stack[f][k]) == if m.survives(alive, m.stack[f][k] as int) {
        m.new_index(alive, m.stack[f][k] as int)
    } else {
        m.stack[f][k] as int
    } by {
        let r = m.stack[f][k] as int;
        assert(c.stack[f] == redirect_by(m.stack[f], table));
        if m.survives(alive, r) {
            lemma_new_index_bounds(m, alive, r);
        }
    }
    if m.roots_in_bounds() {
        assert forall|f: int, k: int|
            0 <= f < c.stack.len() && 0 <= k < c.stack[f].len() implies #[trigger] c.stack[f][k]
            < c.heap.len() by {
            let r = m.stack[f][k] as int;
            assert(c.stack[f] == redirect_by(m.stack[f], table));
            if m.survives(alive, r) {
                lemma_new_index_bounds(m, alive, r);
            }
        }
    }
}

/// Copies `refs`, forwarding each reference through `table` and leaving out
/// those that it does not forward.
pub fn relocate(refs: &Vec<u32>, table: &Vec<Option<u32>>) -> (moved: Vec<u32>)
    ensures
        moved@ == relocate_by(refs@, table@),
{
    let mut moved: Vec<u32> = Vec::new();
    let mut k: usize = 0;
    while k < refs.len()
        invariant
            k <= refs.len(),
            moved@ == relocate_by(refs@.take(k as int), table@),
        decreases refs.len() - k,
    {
        assert(refs@.take(k + 1).drop_last() == refs@.take(k as int));
        let r = refs[k] as usize;
        if r < table.len() {
            match table[r] {
                Some(target) => {
                    moved.push(target);
                },
                None => {},
            }
        }
        k += 1;
    }
    assert(refs@.take(refs.len() as int) == refs@);
    moved
}

/// The first slot of the half in use, the first slot of the other half, and
/// the size of a half.
fn halves(heap: &Vec<Option<(String, Vec<u32>)>>, alive: u32) -> (r: (usize, usize, usize))
    ensures
        r.0 == if alive == 0 { 0 } else { heap.len() / 2 },
        r.1 == if alive == 0 { heap.len() / 2 } else { 0 },
        r.2 == heap.len() / 2,
{
    let mid = heap.len() / 2;
    if alive == 0 {
        (0, mid, mid)
    } else {
        (mid, 0, mid)
    }
}

/// The new index of each surviving slot.
fn forwarding_table(
    stack: &Vec<Vec<u32>>,
    heap: &Vec<Option<(String, Vec<u32>)>>,
    alive: u32,
) -> (table: Vec<Option<u32>>)
    requires
        model_of(stack, heap).in_bounds(),
        heap.len() <= u32::MAX,
    ensures
        table@ == model_of(stack, heap).forwarding(alive),
{
    let ghost m = model_of(stack, heap);
    let (from, to, mid) = halves(heap, alive);
    let marks = mark(stack, heap, from, from + mid);
    let n = heap.len();
    let mut table: Vec<Option<u32>> = Vec::new();
    let mut count: usize = 0;
    let mut x: usize = 0;
    while x < n
        invariant
            x <= n,
            n == heap.len(),
            n <= u32::MAX,
            m == model_of(stack, heap),
            from == m.from_start(alive),
            to == m.to_start(alive),
            mid == m.half(),
            marks.len() == n,
            forall|i: int|
                0 <= i < n ==> marks[i] == m.reaches_within(from as int, from + mid, i),
            table.len() == x,
            count == m.survivors_below(alive, x as int).len(),
            forall|y: int| 0 <= y < x ==> table[y] == m.forwarding(alive)[y],
        decreases n - x,
    {
        proof {
            lemma_survivors_bounds(m, alive, x as int);
        }
        if marks[x] && heap[x].is_some() {
            table.push(Some((to + count) as u32));
            count += 1;
        } else {
            table.push(None);
        }
        x += 1;
    }
    table
}

/// A heap of `n` empty slots.
fn empty_heap(n: usize) -> (heap: Vec<Option<(String, Vec<u32>)>>)
    ensures
        heap.len() == n,
        forall|i: int| 0 <= i < n ==> heap[i] is None,
{
    let mut heap: Vec<Option<(String, Vec<u32>)>> = Vec::new();
    while heap.len() < n
        invariant
            heap.len() <= n,
            forall|i: int| 0 <= i < heap.len() ==> heap[i] is None,
        decreases n - heap.len(),
    {
        heap.push(None);
    }
    heap
}

/// The heap after collection: each survivor at its new index, with its
/// label and its forwarded references.
fn copy_survivors(
    stack: &Vec<Vec<u32>>,
    heap: &Vec<Option<(String, Vec<u32>)>>,
    alive: u32,
    table: &Vec<Option<u32>>,
) -> (fresh: Vec<Option<(String, Vec<u32>)>>)
    requires
        model_of(stack, heap).in_bounds(),
        heap.len() <= u32::MAX,
        table@ == model_of(stack, heap).forwarding(alive),
    ensures
        heap_model(fresh@) == model_of(stack, heap).collected(alive).heap,
{
    let ghost m = model_of(stack, heap);
    let ghost c = m.collected(alive);
    let (from, to, mid) = halves(heap, alive);
    let n = heap.len();
    let mut fresh = empty_heap(n);
    let mut x: usize = from;
    while x < from + mid
        invariant
            from <= x <= from + mid,
            n == heap.len(),
            n <= u32::MAX,
            m == model_of(stack, heap),
            c == m.collected(alive),
            from == m.from_start(alive),
            to == m.to_start(alive),
            mid == m.half(),
            from + mid <= n,
            to + mid <= n,
            table@ == m.forwarding(alive),
            fresh.len() == n,
            forall|j: int|
                to <= j < to + m.survivors_below(alive, x as int).len() ==> slot_of(fresh@, j)
                    == c.heap[j],
            forall|j: int|
                0 <= j < n && !(to <= j < to + m.survivors_below(alive, x as int).len())
                    ==> fresh[j] is None,
        decreases from + mid - x,
    {
        proof {
            lemma_survivors_bounds(m, alive, x as int);
        }
        match table[x] {
            Some(target) => {
                proof {
                    lemma_survivor_place(m, alive, x as int);
                }
                match &heap[x] {
                    Some(object) => {
                        let label = object.0.clone();
                        let children = relocate(&object.1, table);
                        fresh[target as usize] = Some((label, children));
                    },
                    None => {},
                }
            },
            None => {},
        }
        x += 1;
    }
    fresh
}

/// The model of slot `j` of a heap.
pub open spec fn slot_of(heap: Seq<Option<(String, Vec<u32>)>>, j: int) -> Option<Object> {
    heap_model(heap)[j]
}

/// Copies `refs`, forwarding each reference that `table` forwards and
/// keeping the others as they are.
pub fn redirect(refs: &Vec<u32>, table: &Vec<Option<u32>>) -> (moved: Vec<u32>)
    ensures
        moved@ == redirect_by(refs@, table@),
{
    let mut moved: Vec<u32> = Vec::new();
    let mut k: usize = 0;
    while k < refs.len()
        invariant
            k <= refs.len(),
            moved.len() == k,
            forall|j: int| 0 <= j < k ==> moved[j] == redirect_by(refs@, table@)[j],
        decreases refs.len() - k,
    {
        let r = refs[k];
        let target = if (r as usize) < table.len() {
            match table[r as usize] {
                Some(target) => target,
                None => r,
            }
        } else {
            r
        };
        moved.push(target);
        k += 1;
    }
    assert(moved@ =~= redirect_by(refs@, table@));
    moved
}

/// The stack after collection: each frame with its roots redirected.
fn redirect_stack(stack: &Vec<Vec<u32>>, table: &Vec<Option<u32>>) -> (moved: Vec<Vec<u32>>)
    ensures
        stack_model(moved@) == Seq::new(
            stack.len() as nat,
            |f: int| redirect_by(stack[f]@, table@),
        ),
{
    let mut moved: Vec<Vec<u32>> = Vec::new();
    let mut f: usize = 0;
    while f < stack.len()
        invariant
            f <= stack.len(),
            moved.len() == f,
            forall|g: int| 0 <= g < f ==> moved[g]@ == redirect_by(stack[g]@, table@),
        decreases stack.len() - f,
    {
        let frame = redirect(&stack[f], table);
        moved.push(frame);
        f += 1;
    }
    moved
}

/// Collects the half of the heap that is in use (the first where `alive` is
/// 0, the second otherwise) into the other half.
///
/// An object survives where a path of references that stays inside the half
/// in use leads to it from a root. The survivors are copied to the start of
/// the other half in ascending order of their old indices, with their
/// labels. Every other slot of the heap is emptied. A reference to a
/// survivor, on the stack or in a survivor, is redirected to the new index.
/// A reference to anything else, be it an empty slot or a slot of the other
/// half, is removed from the survivor that held it, and stays as it is on
/// the stack: every frame keeps its length.
///
/// The heap has an even number of slots. A snapshot that holds an index
/// outside the heap is refused with `OutOfBounds`, a heap with more slots
/// than a `u32` can index with `CapacityExceeded`; either is left as it is.
pub fn stop_and_copy(mem: &mut Memory, alive: u32) -> (r: Result<(), GcError>)
    requires
        old(mem).heap.len() % 2 == 0,
    ensures
        old(mem)@.in_bounds() && old(mem).heap.len() <= u32::MAX ==> r is Ok && final(mem)@ == old(
            mem,
        )@.collected(alive),
        !old(mem)@.in_bounds() ==> r == Err::<(), GcError>(GcError::OutOfBounds),
        old(mem)@.in_bounds() && old(mem).heap.len() > u32::MAX ==> r == Err::<(), GcError>(
            GcError::CapacityExceeded,
        ),
        r is Err ==> *final(mem) == *old(mem),
{
    if !check_bounds(&mem.stack, &mem.heap) {
        return Err(GcError::OutOfBounds);
    }
    if mem.heap.len() > u32::MAX as usize {
        return Err(GcError::CapacityExceeded);
    }
    let table = forwarding_table(&mem.stack, &mem.heap, alive);
    let fresh = copy_survivors(&mem.stack, &mem.heap, alive, &table);
    let stack = redirect_stack(&mem.stack, &table);
    assert(stack_model(stack@) =~= old(mem)@.collected(alive).stack);
    mem.heap = fresh;
    mem.stack = stack;
    Ok(())
}

} // verus!
