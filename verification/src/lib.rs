//! A model of a small runtime heap and call stack, and three ways of
//! reclaiming it: reference counting, mark-and-sweep and stop-and-copy.

pub mod agreement;
pub mod copying;
pub mod memory;
pub mod prices;
pub mod reach;
pub mod refcount;
pub mod sweep;
pub mod text;
pub mod trace;
pub mod warmup;

pub use copying::stop_and_copy;
pub use memory::{GcError, Memory, MemoryModel, Object};
pub use prices::{price_entry, price_line, read_prices, trim};
pub use reach::reachable;
pub use refcount::{remove, run_commands, Command, CommandModel, CountedSlot, RefCountMem, RefCountModel};
pub use sweep::mark_and_sweep;
pub use warmup::{capitalize_words, gauss, in_range, replace_first, to_binstring};
pub use trace::{heap_command, parse_command, reference_counting, stack_command, HEAP_SLOTS};
