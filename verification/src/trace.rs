//! Traces: lines of text that say what a program did to its memory, and
//! the reference counts that follow from them.

use vstd::prelude::*;
use crate::memory::GcError;
use crate::refcount::{agrees, finished, Command, CommandModel, RefCountMem, RefCountModel};
use crate::text::{
    chars_of, decimal, indices, parse_decimal, parse_indices, pattern_captures, regex_captures,
};

verus! {

/// The number of slots of the heap that a trace speaks of.
pub const HEAP_SLOTS: usize = 10;

/// A line that holds this pops the newest frame.
pub const POP_PATTERN: &'static str = r"Pop";

/// A line that holds this gives a slot its references: the slot's index,
/// and after a blank the indices that it refers to.
pub const HEAP_PATTERN: &'static str = r"Ref Heap (\d+)(?: (.*))?";

/// A line that holds this pushes a frame: after a blank, its roots.
pub const STACK_PATTERN: &'static str = r"Ref Stack(?: (.*))?";

/// The text of group `i`, where the group took part in the match.
pub open spec fn group_text(groups: Seq<Option<Seq<char>>>, i: int) -> Option<Seq<char>> {
    if 0 <= i < groups.len() {
        groups[i]
    } else {
        None
    }
}

/// The indices listed in a group: none where the group took no part.
pub open spec fn listed(text: Option<Seq<char>>) -> Option<Seq<u32>> {
    match text {
        Some(t) => indices(t),
        None => Some(Seq::empty()),
    }
}

/// The command that the groups of `HEAP_PATTERN` stand for: the first one
/// is the slot's index, the second lists the references.
pub open spec fn heap_command_of(groups: Seq<Option<Seq<char>>>) -> Result<CommandModel, GcError> {
    match group_text(groups, 1) {
        Some(slot) => match (decimal(slot, usize::MAX as nat), listed(group_text(groups, 2))) {
            (Some(index), Some(children)) => Ok(
                CommandModel::AllocateOrOverwrite { index: index as int, children },
            ),
            _ => Err(GcError::MalformedCommand),
        },
        None => Err(GcError::MalformedCommand),
    }
}

/// The command that the groups of `STACK_PATTERN` stand for: the first one
/// lists the roots.
pub open spec fn stack_command_of(groups: Seq<Option<Seq<char>>>) -> Result<CommandModel, GcError> {
    match listed(group_text(groups, 1)) {
        Some(roots) => Ok(CommandModel::PushFrame { roots }),
        None => Err(GcError::MalformedCommand),
    }
}

/// What a line of a trace says: a command, nothing (`None`), or something
/// that cannot be read.
///
/// A line that holds `Pop` is a pop, whatever else it holds. Otherwise the
/// first of `HEAP_PATTERN` and `STACK_PATTERN` that occurs in the line
/// decides. A line that holds none of them says nothing.
pub open spec fn line_command(line: Seq<char>) -> Result<Option<CommandModel>, GcError> {
    match regex_captures(POP_PATTERN@, line) {
        None => Err(GcError::MalformedCommand),
        Some(Some(_)) => Ok(Some(CommandModel::Pop)),
        Some(None) => match regex_captures(HEAP_PATTERN@, line) {
            None => Err(GcError::MalformedCommand),
            Some(Some(groups)) => match heap_command_of(groups) {
                Ok(c) => Ok(Some(c)),
                Err(e) => Err(e),
            },
            Some(None) => match regex_captures(STACK_PATTERN@, line) {
                None => Err(GcError::MalformedCommand),
                Some(Some(groups)) => match stack_command_of(groups) {
                    Ok(c) => Ok(Some(c)),
                    Err(e) => Err(e),
                },
                Some(None) => Ok(None),
            },
        },
    }
}

/// `r` is the error of `expected`, or a command whose model `expected` holds.
pub open spec fn command_agrees(r: Result<Command, GcError>, expected: Result<CommandModel, GcError>) -> bool {
    match expected {
        Ok(c) => r is Ok && r->Ok_0@ == c,
        Err(e) => r is Err && r->Err_0 == e,
    }
}

/// Reads the indices that a group lists.
fn read_listed(group: &Option<String>) -> (r: Option<Vec<u32>>)
    ensures
        match listed(group.deep_view()) {
            Some(list) => r is Some && r->0@ == list,
            None => r is None,
        },
{
    match group {
        Some(text) => parse_indices(text.as_str()),
        None => Some(Vec::new()),
    }
}

/// The command that the groups of a match of `HEAP_PATTERN` stand for.
///
/// An index that is no decimal number or does not fit a `usize`, and a
/// reference that is no decimal number or does not fit a `u32`, make the
/// line malformed.
pub fn heap_command(groups: &Vec<Option<String>>) -> (r: Result<Command, GcError>)
    ensures
        command_agrees(r, heap_command_of(groups.deep_view())),
{
    if groups.len() < 2 {
        return Err(GcError::MalformedCommand);
    }
    let index = match &groups[1] {
        Some(slot) => {
            let chars = chars_of(slot.as_str());
            assert(chars@.subrange(0, chars.len() as int) == chars@);
            match parse_decimal(&chars, 0, chars.len(), usize::MAX as u64) {
                Some(index) => index as usize,
                None => {
                    return Err(GcError::MalformedCommand);
                },
            }
        },
        None => {
            return Err(GcError::MalformedCommand);
        },
    };
    let none: Option<String> = None;
    let rest = if groups.len() > 2 {
        read_listed(&groups[2])
    } else {
        read_listed(&none)
    };
    match rest {
        Some(children) => Ok(Command::AllocateOrOverwrite { index, children }),
        None => Err(GcError::MalformedCommand),
    }
}

/// The command that the groups of a match of `STACK_PATTERN` stand for.
///
/// A root that is no decimal number or does not fit a `u32` makes the line
/// malformed.
pub fn stack_command(groups: &Vec<Option<String>>) -> (r: Result<Command, GcError>)
    ensures
        command_agrees(r, stack_command_of(groups.deep_view())),
{
    let none: Option<String> = None;
    let list = if groups.len() > 1 {
        read_listed(&groups[1])
    } else {
        read_listed(&none)
    };
    match list {
        Some(roots) => Ok(Command::PushFrame { roots }),
        None => Err(GcError::MalformedCommand),
    }
}

/// `r` holds what `expected` holds: the same error, nothing, or a command
/// with that model.
pub open spec fn line_agrees(
    r: Result<Option<Command>, GcError>,
    expected: Result<Option<CommandModel>, GcError>,
) -> bool {
    match expected {
        Ok(Some(c)) => r is Ok && r->Ok_0 is Some && r->Ok_0->0@ == c,
        Ok(None) => r is Ok && r->Ok_0 is None,
        Err(e) => r is Err && r->Err_0 == e,
    }
}

/// Reads one line of a trace: its command, or `None` where it holds none.
///
/// A line is malformed where it holds an index that cannot be read, or
/// where the regular expression engine refuses a pattern.
pub fn parse_command(line: &str) -> (r: Result<Option<Command>, GcError>)
    ensures
        line_agrees(r, line_command(line@)),
{
    match pattern_captures(POP_PATTERN, line) {
        None => Err(GcError::MalformedCommand),
        Some(Some(_)) => Ok(Some(Command::Pop)),
        Some(None) => match pattern_captures(HEAP_PATTERN, line) {
            None => Err(GcError::MalformedCommand),
            Some(Some(groups)) => match heap_command(&groups) {
                Ok(c) => Ok(Some(c)),
                Err(e) => Err(e),
            },
            Some(None) => match pattern_captures(STACK_PATTERN, line) {
                None => Err(GcError::MalformedCommand),
                Some(Some(groups)) => match stack_command(&groups) {
                    Ok(c) => Ok(Some(c)),
                    Err(e) => Err(e),
                },
                Some(None) => Ok(None),
            },
        },
    }
}

impl RefCountModel {
    /// What the lines of a trace lead to, one after the other, up to the
    /// first that cannot be read or is refused.
    pub open spec fn run_lines(self, lines: Seq<Seq<char>>) -> Result<RefCountModel, GcError>
        decreases lines.len(),
    {
        if lines.len() == 0 {
            Ok(self)
        } else {
            match line_command(lines[0]) {
                Err(e) => Err(e),
                Ok(None) => self.run_lines(lines.drop_first()),
                Ok(Some(command)) => match self.outcome(command) {
                    Ok(next) => next.run_lines(lines.drop_first()),
                    Err(e) => Err(e),
                },
            }
        }
    }
}

/// Follows a trace on `HEAP_SLOTS` unused slots and an empty stack, and
/// frees at the end every slot whose count is zero.
///
/// The first line that cannot be read, or whose command is refused, ends
/// the run with its error.
pub fn reference_counting(string_vec: Vec<String>) -> (r: Result<RefCountMem, GcError>)
    ensures
        agrees(
            r,
            finished(RefCountModel::initial(HEAP_SLOTS as nat).run_lines(string_vec.deep_view())),
        ),
        r matches Ok(end) ==> end@.wf(),
{
    let ghost lines = string_vec.deep_view();
    let ghost goal = RefCountModel::initial(HEAP_SLOTS as nat).run_lines(lines);
    let mut state = RefCountMem::new(HEAP_SLOTS);
    let mut i: usize = 0;
    assert(lines.skip(0) =~= lines);
    while i < string_vec.len()
        invariant
            i <= string_vec.len(),
            lines == string_vec.deep_view(),
            goal == RefCountModel::initial(HEAP_SLOTS as nat).run_lines(lines),
            state@.wf(),
            state@.run_lines(lines.skip(i as int)) == goal,
        decreases string_vec.len() - i,
    {
        assert(lines.skip(i as int).drop_first() =~= lines.skip(i + 1));
        match parse_command(string_vec[i].as_str()) {
            Err(e) => {
                return Err(e);
            },
            Ok(None) => {},
            Ok(Some(command)) => {
                match state.apply(&command) {
                    Ok(next) => {
                        state = next;
                    },
                    Err(e) => {
                        return Err(e);
                    },
                }
            },
        }
        i += 1;
    }
    state.normalize();
    Ok(state)
}

} // verus!
