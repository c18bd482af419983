//! Reference counting: each slot counts the references to it, and a slot
//! whose count falls to zero lets go of what it refers to.

use vstd::prelude::*;
use crate::memory::{all_below, stack_model, GcError};

verus! {

/// A heap whose slots carry a count of the references to them, and the
/// stack of the frames pushed so far.
///
/// A slot holds the references of its object, or `None` where it never held
/// an object or has been freed, and beside them its count.
#[derive(Clone, Debug)]
pub struct RefCountMem {
    pub stack: Vec<Vec<u32>>,
    pub heap: Vec<(Option<Vec<u32>>, u32)>,
}

/// One step of a trace.
#[derive(Clone, Debug)]
pub enum Command {
    /// Gives the slot at `index` the references `children`, if the slot is
    /// in use.
    AllocateOrOverwrite { index: usize, children: Vec<u32> },
    /// Pushes a frame that holds `roots`.
    PushFrame { roots: Vec<u32> },
    /// Pops the newest frame.
    Pop,
}

/// A `Command` as plain values.
pub enum CommandModel {
    AllocateOrOverwrite { index: int, children: Seq<u32> },
    PushFrame { roots: Seq<u32> },
    Pop,
}

impl View for Command {
    type V = CommandModel;

    open spec fn view(&self) -> CommandModel {
        match *self {
            Command::AllocateOrOverwrite { index, children } => CommandModel::AllocateOrOverwrite {
                index: index as int,
                children: children@,
            },
            Command::PushFrame { roots } => CommandModel::PushFrame { roots: roots@ },
            Command::Pop => CommandModel::Pop,
        }
    }
}

/// A slot of a counted heap as plain values.
pub struct CountedSlot {
    pub children: Option<Seq<u32>>,
    pub count: nat,
}

/// A `RefCountMem` as plain values.
pub struct RefCountModel {
    pub stack: Seq<Seq<u32>>,
    pub heap: Seq<CountedSlot>,
}

/// A slot with its count, as plain values.
pub open spec fn counted_slot(slot: (Option<Vec<u32>>, u32)) -> CountedSlot {
    CountedSlot {
        children: match slot.0 {
            Some(c) => Some(c@),
            None => None,
        },
        count: slot.1 as nat,
    }
}

/// The slots of a counted heap as plain values.
pub open spec fn counted_model(heap: Seq<(Option<Vec<u32>>, u32)>) -> Seq<CountedSlot> {
    Seq::new(heap.len(), |i: int| counted_slot(heap[i]))
}

impl View for RefCountMem {
    type V = RefCountModel;

    open spec fn view(&self) -> RefCountModel {
        RefCountModel { stack: stack_model(self.stack@), heap: counted_model(self.heap@) }
    }
}

/// The references that a slot holds: none where it holds no object.
pub open spec fn held(slot: CountedSlot) -> Seq<u32> {
    match slot.children {
        Some(c) => c,
        None => Seq::empty(),
    }
}

/// Every element of `refs` is below `limit`.
pub open spec fn refs_below(refs: Seq<u32>, limit: int) -> bool {
    forall|k: int| 0 <= k < refs.len() ==> refs[k] < limit
}

/// Every reference held in `heap` names a slot of it.
pub open spec fn heap_in_bounds(heap: Seq<CountedSlot>) -> bool {
    forall|i: int| 0 <= i < heap.len() ==> refs_below(held(#[trigger] heap[i]), heap.len() as int)
}

/// The sum of all counts.
pub open spec fn total_count(heap: Seq<CountedSlot>) -> nat
    decreases heap.len(),
{
    if heap.len() == 0 {
        0
    } else {
        total_count(heap.drop_last()) + heap.last().count
    }
}

/// Changing one slot changes the sum by what the slot's count loses and
/// gains.
pub proof fn lemma_total_update(heap: Seq<CountedSlot>, i: int, slot: CountedSlot)
    requires
        0 <= i < heap.len(),
    ensures
        total_count(heap.update(i, slot)) + heap[i].count == total_count(heap) + slot.count,
    decreases heap.len(),
{
    if i == heap.len() - 1 {
        assert(heap.update(i, slot).drop_last() == heap.drop_last());
    } else {
        assert(heap.update(i, slot).drop_last() == heap.drop_last().update(i, slot));
        lemma_total_update(heap.drop_last(), i, slot);
    }
}

/// The heap with one reference to slot `i` gone, where the slot's count
/// stays above zero.
pub open spec fn decremented(heap: Seq<CountedSlot>, i: int) -> Seq<CountedSlot> {
    heap.update(i, CountedSlot { children: heap[i].children, count: (heap[i].count - 1) as nat })
}

/// The heap with slot `i` freed.
pub open spec fn freed(heap: Seq<CountedSlot>, i: int) -> Seq<CountedSlot> {
    heap.update(i, CountedSlot { children: None, count: 0 })
}

/// The heap after one reference to each slot of `pending` has been let go,
/// the first of them first.
///
/// Letting go of a reference lowers the slot's count by one. A slot whose
/// count thereby reaches zero is freed: it gives up its references, and
/// each of these is let go in turn, in their order, before the rest of
/// `pending`. A slot whose count is zero already is passed over, and so is
/// an index outside the heap.
pub open spec fn release(heap: Seq<CountedSlot>, pending: Seq<u32>) -> Seq<CountedSlot>
    decreases total_count(heap), pending.len(),
{
    if pending.len() == 0 {
        heap
    } else {
        let i = pending[0] as int;
        let rest = pending.drop_first();
        if i >= heap.len() || heap[i].count == 0 {
            release(heap, rest)
        } else if heap[i].count > 1 {
            proof {
                lemma_total_update(heap, i, decremented(heap, i)[i]);
            }
            release(decremented(heap, i), rest)
        } else {
            proof {
                lemma_total_update(heap, i, freed(heap, i)[i]);
            }
            release(freed(heap, i), held(heap[i]) + rest)
        }
    }
}

/// The heap with one more reference to slot `i`: a slot that held no object
/// holds one without references from now on.
pub open spec fn retained(heap: Seq<CountedSlot>, i: int) -> Seq<CountedSlot> {
    heap.update(i, CountedSlot { children: Some(held(heap[i])), count: heap[i].count + 1 })
}

/// The heap with one more reference to each slot of `refs`.
pub open spec fn retain_all(heap: Seq<CountedSlot>, refs: Seq<u32>) -> Seq<CountedSlot>
    decreases refs.len(),
{
    if refs.len() == 0 {
        heap
    } else {
        retained(retain_all(heap, refs.drop_last()), refs.last() as int)
    }
}

/// Every count fits a `u32`.
pub open spec fn counts_fit(heap: Seq<CountedSlot>) -> bool {
    forall|i: int| 0 <= i < heap.len() ==> (#[trigger] heap[i]).count <= u32::MAX
}

/// Letting go of references keeps the size of the heap, raises no count,
/// and gives no slot a reference that it did not hold.
pub proof fn lemma_release_shrinks(heap: Seq<CountedSlot>, pending: Seq<u32>)
    ensures
        release(heap, pending).len() == heap.len(),
        forall|i: int|
            0 <= i < heap.len() ==> {
                let after = #[trigger] release(heap, pending)[i];
                &&& after.count <= heap[i].count
                &&& after.children is None || after.children == heap[i].children
            },
        heap_in_bounds(heap) ==> heap_in_bounds(release(heap, pending)),
    decreases total_count(heap), pending.len(),
{
    if pending.len() > 0 {
        let i = pending[0] as int;
        let rest = pending.drop_first();
        if i >= heap.len() || heap[i].count == 0 {
            lemma_release_shrinks(heap, rest);
        } else if heap[i].count > 1 {
            lemma_total_update(heap, i, decremented(heap, i)[i]);
            lemma_release_shrinks(decremented(heap, i), rest);
        } else {
            lemma_total_update(heap, i, freed(heap, i)[i]);
            lemma_release_shrinks(freed(heap, i), held(heap[i]) + rest);
        }
    }
}

impl RefCountModel {
    /// No root and no reference of an object points outside the heap.
    pub open spec fn wf(self) -> bool {
        &&& heap_in_bounds(self.heap)
        &&& forall|f: int|
            0 <= f < self.stack.len() ==> refs_below(#[trigger] self.stack[f], self.heap.len() as int)
    }

    /// An empty stack over `slots` slots that were never used.
    pub open spec fn initial(slots: nat) -> RefCountModel {
        RefCountModel {
            stack: Seq::empty(),
            heap: Seq::new(slots, |i: int| CountedSlot { children: None, count: 0 }),
        }
    }

    /// Every index that `command` names lies inside the heap.
    pub open spec fn accepts(self, command: CommandModel) -> bool {
        match command {
            CommandModel::AllocateOrOverwrite { index, children } => 0 <= index < self.heap.len()
                && refs_below(children, self.heap.len() as int),
            CommandModel::PushFrame { roots } => refs_below(roots, self.heap.len() as int),
            CommandModel::Pop => true,
        }
    }

    /// Slot `index` is referred to or holds an object.
    pub open spec fn in_use(self, index: int) -> bool {
        self.heap[index].count > 0 || self.heap[index].children is Some
    }

    /// The heap after the slot at `index`, which is in use, has been given
    /// the references `children`: what it referred to before is let go, and
    /// each of `children` gains a reference.
    pub open spec fn overwritten(self, index: int, children: Seq<u32>) -> Seq<CountedSlot> {
        let emptied = self.heap.update(
            index,
            CountedSlot { children: None, count: self.heap[index].count },
        );
        let let_go = release(emptied, held(self.heap[index]));
        let filled = let_go.update(
            index,
            CountedSlot { children: Some(children), count: let_go[index].count },
        );
        retain_all(filled, children)
    }

    /// The state after `command`, which the state accepts.
    ///
    /// Overwriting a slot that is not in use changes nothing, and so does
    /// popping from an empty stack.
    pub open spec fn step(self, command: CommandModel) -> RefCountModel {
        match command {
            CommandModel::AllocateOrOverwrite { index, children } => if self.in_use(index) {
                RefCountModel { stack: self.stack, heap: self.overwritten(index, children) }
            } else {
                self
            },
            CommandModel::PushFrame { roots } => RefCountModel {
                stack: self.stack.push(roots),
                heap: retain_all(self.heap, roots),
            },
            CommandModel::Pop => if self.stack.len() == 0 {
                self
            } else {
                RefCountModel {
                    stack: self.stack.drop_last(),
                    heap: release(self.heap, self.stack.last()),
                }
            },
        }
    }

    /// What `command` leads to: the next state, or the reason for which it
    /// is refused.
    pub open spec fn outcome(self, command: CommandModel) -> Result<RefCountModel, GcError> {
        if !self.accepts(command) {
            Err(GcError::OutOfBounds)
        } else if !counts_fit(self.step(command).heap) {
            Err(GcError::CapacityExceeded)
        } else {
            Ok(self.step(command))
        }
    }

    /// What `commands` lead to, one after the other, up to the first that
    /// is refused.
    pub open spec fn run(self, commands: Seq<CommandModel>) -> Result<RefCountModel, GcError>
        decreases commands.len(),
    {
        if commands.len() == 0 {
            Ok(self)
        } else {
            match self.outcome(commands[0]) {
                Ok(next) => next.run(commands.drop_first()),
                Err(e) => Err(e),
            }
        }
    }

    /// The state with every slot freed whose count is zero.
    pub open spec fn normalized(self) -> RefCountModel {
        RefCountModel {
            stack: self.stack,
            heap: Seq::new(
                self.heap.len(),
                |i: int|
                    if self.heap[i].count == 0 {
                        CountedSlot { children: None, count: 0 }
                    } else {
                        self.heap[i]
                    },
            ),
        }
    }
}

/// The commands of a list as plain values.
pub open spec fn commands_model(commands: Seq<Command>) -> Seq<CommandModel> {
    Seq::new(commands.len(), |i: int| commands[i]@)
}

/// Gaining references keeps the size of the heap and the references that
/// the slots hold, and lowers no count.
pub proof fn lemma_retain_all_grows(heap: Seq<CountedSlot>, refs: Seq<u32>)
    requires
        refs_below(refs, heap.len() as int),
    ensures
        retain_all(heap, refs).len() == heap.len(),
        forall|i: int|
            0 <= i < heap.len() ==> {
                let after = #[trigger] retain_all(heap, refs)[i];
                &&& after.count >= heap[i].count
                &&& held(after) == held(heap[i])
            },
        heap_in_bounds(heap) ==> heap_in_bounds(retain_all(heap, refs)),
    decreases refs.len(),
{
    if refs.len() > 0 {
        let front = refs.drop_last();
        lemma_retain_all_grows(heap, front);
    }
}

/// A command that is accepted leaves every index inside the heap.
pub proof fn lemma_step_keeps_bounds(state: RefCountModel, command: CommandModel)
    requires
        state.wf(),
        state.accepts(command),
    ensures
        state.step(command).wf(),
        state.step(command).heap.len() == state.heap.len(),
{
    match command {
        CommandModel::AllocateOrOverwrite { index, children } => {
            if state.in_use(index) {
                let emptied = state.heap.update(
                    index,
                    CountedSlot { children: None, count: state.heap[index].count },
                );
                let let_go = release(emptied, held(state.heap[index]));
                let filled = let_go.update(
                    index,
                    CountedSlot { children: Some(children), count: let_go[index].count },
                );
                lemma_release_shrinks(emptied, held(state.heap[index]));
                lemma_retain_all_grows(filled, children);
            }
        },
        CommandModel::PushFrame { roots } => {
            lemma_retain_all_grows(state.heap, roots);
        },
        CommandModel::Pop => {
            if state.stack.len() > 0 {
                lemma_release_shrinks(state.heap, state.stack.last());
            }
        },
    }
}

/// Appends `refs` to `work`, the last of them first.
fn push_reversed(work: &mut Vec<u32>, refs: &Vec<u32>)
    ensures
        final(work)@ == old(work)@ + refs@.reverse(),
{
    let mut k: usize = refs.len();
    while k > 0
        invariant
            k <= refs.len(),
            work@ == old(work)@ + refs@.subrange(k as int, refs.len() as int).reverse(),
        decreases k,
    {
        k -= 1;
        work.push(refs[k]);
    }
}

/// Lets go of one reference to each slot of `refs`, the first of them
/// first, and frees what is no longer referred to.
pub fn remove_all(heap: &mut Vec<(Option<Vec<u32>>, u32)>, refs: &Vec<u32>)
    requires
        heap_in_bounds(counted_model(old(heap)@)),
        refs_below(refs@, old(heap).len() as int),
    ensures
        counted_model(final(heap)@) == release(counted_model(old(heap)@), refs@),
{
    let mut work: Vec<u32> = Vec::new();
    push_reversed(&mut work, refs);
    assert(work@.reverse() =~= refs@);
    while work.len() > 0
        invariant
            heap.len() == old(heap).len(),
            heap_in_bounds(counted_model(heap@)),
            refs_below(work@, heap.len() as int),
            release(counted_model(heap@), work@.reverse()) == release(
                counted_model(old(heap)@),
                refs@,
            ),
        decreases total_count(counted_model(heap@)), work.len(),
    {
        let ghost before = counted_model(heap@);
        let ghost pending = work@.reverse();
        let i = work.pop().unwrap() as usize;
        let ghost rest = work@.reverse();
        assert(pending.drop_first() =~= rest);
        if heap[i].1 > 1 {
            heap[i].1 = heap[i].1 - 1;
            proof {
                assert(counted_model(heap@) =~= decremented(before, i as int));
                lemma_total_update(before, i as int, decremented(before, i as int)[i as int]);
            }
        } else if heap[i].1 == 1 {
            heap[i].1 = 0;
            let children = heap[i].0.take();
            proof {
                assert(counted_model(heap@) =~= freed(before, i as int));
                lemma_total_update(before, i as int, freed(before, i as int)[i as int]);
            }
            match children {
                Some(list) => {
                    push_reversed(&mut work, &list);
                    assert(work@.reverse() =~= list@ + rest);
                },
                None => {},
            }
        }
    }
}

/// Lets go of one reference to the slot at `index`: its count falls by
/// one, and where it reaches zero the slot is freed and lets go of what it
/// referred to, and so on.
pub fn remove(heap: &mut Vec<(Option<Vec<u32>>, u32)>, index: u32)
    requires
        heap_in_bounds(counted_model(old(heap)@)),
        index < old(heap).len(),
    ensures
        counted_model(final(heap)@) == release(counted_model(old(heap)@), seq![index]),
{
    let mut one: Vec<u32> = Vec::new();
    one.push(index);
    remove_all(heap, &one);
}

/// Gives each slot of `refs` one more reference.
///
/// Fails where a count would pass `u32::MAX`; the heap is then left with
/// some of the references counted.
fn retain(heap: &mut Vec<(Option<Vec<u32>>, u32)>, refs: &Vec<u32>) -> (r: Result<(), GcError>)
    requires
        refs_below(refs@, old(heap).len() as int),
    ensures
        final(heap).len() == old(heap).len(),
        match r {
            Ok(_) => counted_model(final(heap)@) == retain_all(counted_model(old(heap)@), refs@),
            Err(e) => e == GcError::CapacityExceeded && !counts_fit(
                retain_all(counted_model(old(heap)@), refs@),
            ),
        },
{
    let ghost start = counted_model(heap@);
    let mut k: usize = 0;
    while k < refs.len()
        invariant
            k <= refs.len(),
            heap.len() == old(heap).len(),
            start == counted_model(old(heap)@),
            refs_below(refs@, heap.len() as int),
            counted_model(heap@) == retain_all(start, refs@.take(k as int)),
        decreases refs.len() - k,
    {
        let i = refs[k] as usize;
        assert(refs@.take(k + 1).drop_last() == refs@.take(k as int));
        if heap[i].1 == u32::MAX {
            proof {
                let partial = retain_all(start, refs@.take(k + 1));
                let tail = refs@.subrange(k + 1, refs.len() as int);
                lemma_retain_all_split(start, refs@.take(k + 1), tail);
                assert(refs@.take(k + 1) + tail =~= refs@);
                lemma_retain_all_grows(partial, tail);
                assert(retain_all(start, refs@)[i as int].count > u32::MAX);
            }
            return Err(GcError::CapacityExceeded);
        }
        if heap[i].0.is_none() {
            heap[i].0 = Some(Vec::new());
        }
        heap[i].1 = heap[i].1 + 1;
        k += 1;
    }
    assert(refs@.take(refs.len() as int) == refs@);
    Ok(())
}

/// Gaining the references of `first` and then those of `second` is gaining
/// those of both.
pub proof fn lemma_retain_all_split(heap: Seq<CountedSlot>, first: Seq<u32>, second: Seq<u32>)
    ensures
        retain_all(heap, first + second) == retain_all(retain_all(heap, first), second),
    decreases second.len(),
{
    if second.len() > 0 {
        assert((first + second).drop_last() =~= first + second.drop_last());
        lemma_retain_all_split(heap, first, second.drop_last());
    }
}

/// `r` is the error of `expected`, or holds a state whose model `expected`
/// holds.
pub open spec fn agrees(r: Result<RefCountMem, GcError>, expected: Result<RefCountModel, GcError>) -> bool {
    match expected {
        Ok(model) => r is Ok && r->Ok_0@ == model,
        Err(e) => r is Err && r->Err_0 == e,
    }
}

/// What a run ends in: the last state with its unused slots freed.
pub open spec fn finished(last: Result<RefCountModel, GcError>) -> Result<RefCountModel, GcError> {
    match last {
        Ok(model) => Ok(model.normalized()),
        Err(e) => Err(e),
    }
}

impl RefCountMem {
    /// An empty stack over `slots` slots that were never used.
    pub fn new(slots: usize) -> (mem: RefCountMem)
        ensures
            mem@ == RefCountModel::initial(slots as nat),
            mem@.wf(),
    {
        let mut heap: Vec<(Option<Vec<u32>>, u32)> = Vec::new();
        while heap.len() < slots
            invariant
                heap.len() <= slots,
                forall|i: int| 0 <= i < heap.len() ==> heap[i].0 is None && heap[i].1 == 0,
            decreases slots - heap.len(),
        {
            heap.push((None, 0));
        }
        let mem = RefCountMem { stack: Vec::new(), heap };
        assert(mem@.heap =~= RefCountModel::initial(slots as nat).heap);
        assert(mem@.stack =~= RefCountModel::initial(slots as nat).stack);
        mem
    }

    /// Carries out `command`.
    ///
    /// A command that names an index outside the heap is refused with
    /// `OutOfBounds`, one that would raise a count past `u32::MAX` with
    /// `CapacityExceeded`.
    pub fn apply(self, command: &Command) -> (r: Result<RefCountMem, GcError>)
        requires
            self@.wf(),
        ensures
            agrees(r, self@.outcome(command@)),
            r matches Ok(next) ==> next@.wf() && next.heap.len() == self.heap.len(),
    {
        let mut state = self;
        let ghost start = state@;
        let slots = state.heap.len();
        proof {
            if start.accepts(command@) {
                lemma_step_keeps_bounds(start, command@);
            }
        }
        match command {
            Command::AllocateOrOverwrite { index, children } => {
                let index = *index;
                if index >= slots || !all_below(children, slots) {
                    return Err(GcError::OutOfBounds);
                }
                if state.heap[index].1 > 0 || state.heap[index].0.is_some() {
                    let previous = state.heap[index].0.take();
                    let ghost emptied = start.heap.update(
                        index as int,
                        CountedSlot { children: None, count: start.heap[index as int].count },
                    );
                    assert(counted_model(state.heap@) =~= emptied);
                    match previous {
                        Some(list) => {
                            remove_all(&mut state.heap, &list);
                        },
                        None => {},
                    }
                    let ghost let_go = counted_model(state.heap@);
                    proof {
                        lemma_release_shrinks(emptied, held(start.heap[index as int]));
                    }
                    let copy = children.clone();
                    state.heap[index].0 = Some(copy);
                    assert(counted_model(state.heap@) =~= let_go.update(
                        index as int,
                        CountedSlot { children: Some(children@), count: let_go[index as int].count },
                    ));
                    match retain(&mut state.heap, children) {
                        Ok(_) => {},
                        Err(e) => {
                            return Err(e);
                        },
                    }
                }
                Ok(state)
            },
            Command::PushFrame { roots } => {
                if !all_below(roots, slots) {
                    return Err(GcError::OutOfBounds);
                }
                match retain(&mut state.heap, roots) {
                    Ok(_) => {},
                    Err(e) => {
                        return Err(e);
                    },
                }
                let copy = roots.clone();
                state.stack.push(copy);
                assert(state@.stack =~= start.stack.push(roots@));
                Ok(state)
            },
            Command::Pop => {
                match state.stack.pop() {
                    Some(frame) => {
                        remove_all(&mut state.heap, &frame);
                        assert(state@.stack =~= start.stack.drop_last());
                    },
                    None => {},
                }
                Ok(state)
            },
        }
    }

    /// Frees every slot whose count is zero.
    pub fn normalize(&mut self)
        ensures
            final(self)@ == old(self)@.normalized(),
            old(self)@.wf() ==> final(self)@.wf(),
    {
        let mut i: usize = 0;
        while i < self.heap.len()
            invariant
                i <= self.heap.len(),
                self.stack == old(self).stack,
                self.heap.len() == old(self).heap.len(),
                forall|j: int| 0 <= j < i ==> counted_slot(self.heap[j]) == old(self)@.normalized().heap[j],
                forall|j: int| i <= j < self.heap.len() ==> self.heap[j] == old(self).heap[j],
            decreases self.heap.len() - i,
        {
            if self.heap[i].1 == 0 {
                self.heap[i].0 = None;
            }
            i += 1;
        }
        assert(self@.heap =~= old(self)@.normalized().heap);
    }
}

/// Carries out `commands` on `slots` unused slots and an empty stack, one
/// after the other, and frees at the end every slot whose count is zero.
///
/// The first command that is refused ends the run with its error.
pub fn run_commands(commands: &Vec<Command>, slots: usize) -> (r: Result<RefCountMem, GcError>)
    ensures
        agrees(
            r,
            finished(RefCountModel::initial(slots as nat).run(commands_model(commands@))),
        ),
        r matches Ok(end) ==> end@.wf(),
{
    let ghost all = commands_model(commands@);
    let ghost goal = RefCountModel::initial(slots as nat).run(all);
    let mut state = RefCountMem::new(slots);
    let mut i: usize = 0;
    assert(all.skip(0) =~= all);
    while i < commands.len()
        invariant
            i <= commands.len(),
            all == commands_model(commands@),
            goal == RefCountModel::initial(slots as nat).run(all),
            state@.wf(),
            state@.run(all.skip(i as int)) == goal,
        decreases commands.len() - i,
    {
        assert(all.skip(i as int).drop_first() =~= all.skip(i + 1));
        match state.apply(&commands[i]) {
            Ok(next) => {
                state = next;
            },
            Err(e) => {
                return Err(e);
            },
        }
        i += 1;
    }
    state.normalize();
    Ok(state)
}

} // verus!
