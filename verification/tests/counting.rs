use gc_model::{
    heap_command, parse_command, reachable, reference_counting, remove, run_commands, stack_command,
    Command, GcError, RefCountMem, HEAP_SLOTS,
};

fn lines(text: &[&str]) -> Vec<String> {
    text.iter().map(|line| line.to_string()).collect()
}

fn unused(slots: usize) -> Vec<(Option<Vec<u32>>, u32)> {
    vec![(None, 0); slots]
}

#[test]
fn popping_the_only_frame_frees_what_it_held() {
    let commands = vec![
        Command::PushFrame { roots: vec![0] },
        Command::AllocateOrOverwrite { index: 0, children: vec![1, 2] },
        Command::AllocateOrOverwrite { index: 1, children: vec![] },
        Command::AllocateOrOverwrite { index: 2, children: vec![] },
        Command::Pop,
    ];
    let mem = run_commands(&commands, 10).unwrap();
    assert_eq!(mem.heap, unused(10));
    assert!(mem.stack.is_empty());
}

#[test]
fn the_same_trace_as_text() {
    let mem = reference_counting(lines(&[
        "Ref Stack 0",
        "Ref Heap 0 1 2",
        "Ref Heap 1",
        "Ref Heap 2",
        "Pop",
    ]))
    .unwrap();
    assert_eq!(mem.heap, unused(HEAP_SLOTS));
    assert!(mem.stack.is_empty());
}

#[test]
fn counts_before_the_pop() {
    let mem = reference_counting(lines(&["Ref Stack 0", "Ref Heap 0 1 2", "Ref Heap 1 2"])).unwrap();
    let mut heap = unused(10);
    heap[0] = (Some(vec![1, 2]), 1);
    heap[1] = (Some(vec![2]), 1);
    heap[2] = (Some(vec![]), 2);
    assert_eq!(mem.heap, heap);
    assert_eq!(mem.stack, vec![vec![0]]);
}

#[test]
fn a_root_held_twice_is_counted_and_released_twice() {
    let mem = run_commands(&vec![Command::PushFrame { roots: vec![3, 3] }], 4).unwrap();
    assert_eq!(mem.heap[3], (Some(vec![]), 2));
    let mem = run_commands(
        &vec![
            Command::PushFrame { roots: vec![3] },
            Command::PushFrame { roots: vec![3, 3] },
            Command::Pop,
        ],
        4,
    )
    .unwrap();
    assert_eq!(mem.heap[3], (Some(vec![]), 1));
    assert_eq!(mem.stack, vec![vec![3]]);
}

#[test]
fn overwriting_lets_go_of_the_old_references() {
    let mem = run_commands(
        &vec![
            Command::PushFrame { roots: vec![0] },
            Command::AllocateOrOverwrite { index: 0, children: vec![1] },
            Command::AllocateOrOverwrite { index: 1, children: vec![2] },
            Command::AllocateOrOverwrite { index: 0, children: vec![3] },
        ],
        5,
    )
    .unwrap();
    assert_eq!(
        mem.heap,
        vec![(Some(vec![3]), 1), (None, 0), (None, 0), (Some(vec![]), 1), (None, 0)]
    );
}

#[test]
fn overwriting_a_slot_that_is_not_in_use_changes_nothing() {
    let mem = run_commands(
        &vec![Command::AllocateOrOverwrite { index: 1, children: vec![2, 3] }],
        4,
    )
    .unwrap();
    assert_eq!(mem.heap, unused(4));
}

#[test]
fn popping_an_empty_stack_changes_nothing() {
    let mem = run_commands(&vec![Command::Pop, Command::PushFrame { roots: vec![1] }, Command::Pop, Command::Pop], 2)
        .unwrap();
    assert_eq!(mem.heap, unused(2));
    assert!(mem.stack.is_empty());
}

#[test]
fn a_cycle_outlives_its_roots() {
    let mem = run_commands(
        &vec![
            Command::PushFrame { roots: vec![0] },
            Command::AllocateOrOverwrite { index: 0, children: vec![1] },
            Command::AllocateOrOverwrite { index: 1, children: vec![0] },
            Command::Pop,
        ],
        3,
    )
    .unwrap();
    assert_eq!(mem.heap, vec![(Some(vec![1]), 1), (Some(vec![0]), 1), (None, 0)]);
    assert!(mem.stack.is_empty());
}

#[test]
fn the_end_of_a_run_frees_slots_without_references() {
    let mem = run_commands(
        &vec![
            Command::PushFrame { roots: vec![0] },
            Command::AllocateOrOverwrite { index: 0, children: vec![1] },
            Command::AllocateOrOverwrite { index: 1, children: vec![0] },
            Command::Pop,
            Command::AllocateOrOverwrite { index: 0, children: vec![2] },
        ],
        3,
    )
    .unwrap();
    assert_eq!(mem.heap, vec![(None, 0), (None, 0), (Some(vec![]), 1)]);
}

#[test]
fn counts_agree_with_what_the_stack_reaches() {
    let mem = reference_counting(lines(&[
        "Ref Stack 0 1",
        "Ref Heap 0 2 3",
        "Ref Heap 2 4",
        "Ref Stack 5",
        "Ref Heap 5 2 6",
        "Ref Heap 1 7",
        "Pop",
        "Ref Heap 0 3",
    ]))
    .unwrap();
    let counted: Vec<u32> =
        (0..mem.heap.len()).filter(|&i| mem.heap[i].1 > 0).map(|i| i as u32).collect();
    let heap: Vec<Option<(String, Vec<u32>)>> = mem
        .heap
        .iter()
        .map(|slot| slot.0.clone().map(|children| (String::new(), children)))
        .collect();
    assert_eq!(counted, vec![0, 1, 3, 7]);
    assert_eq!(reachable(&mem.stack, &heap), Ok(counted));
}

#[test]
fn a_command_outside_the_heap_is_refused() {
    let too_far = |command: Command| run_commands(&vec![command], 3).err();
    assert_eq!(too_far(Command::PushFrame { roots: vec![0, 3] }), Some(GcError::OutOfBounds));
    assert_eq!(
        too_far(Command::AllocateOrOverwrite { index: 3, children: vec![] }),
        Some(GcError::OutOfBounds)
    );
    assert_eq!(
        too_far(Command::AllocateOrOverwrite { index: 0, children: vec![9] }),
        Some(GcError::OutOfBounds)
    );
    assert_eq!(reference_counting(lines(&["Ref Stack 1", "Ref Heap 1 10"])).err(), Some(GcError::OutOfBounds));
    assert_eq!(reference_counting(lines(&["Ref Heap 10"])).err(), Some(GcError::OutOfBounds));
}

#[test]
fn a_count_that_would_not_fit_is_refused() {
    let full = RefCountMem { stack: vec![], heap: vec![(Some(vec![]), u32::MAX), (None, 0)] };
    assert_eq!(
        full.clone().apply(&Command::PushFrame { roots: vec![1, 0] }).err(),
        Some(GcError::CapacityExceeded)
    );
    assert_eq!(
        full.clone().apply(&Command::AllocateOrOverwrite { index: 0, children: vec![0] }).err(),
        Some(GcError::CapacityExceeded)
    );
    let next = full.apply(&Command::PushFrame { roots: vec![1] }).unwrap();
    assert_eq!(next.heap, vec![(Some(vec![]), u32::MAX), (Some(vec![]), 1)]);
}

#[test]
fn a_line_that_cannot_be_read_is_refused() {
    assert_eq!(parse_command("Ref Stack 1 x 2").err(), Some(GcError::MalformedCommand));
    assert_eq!(parse_command("Ref Heap 1 -2").err(), Some(GcError::MalformedCommand));
    assert_eq!(parse_command("Ref Heap 1 4294967296").err(), Some(GcError::MalformedCommand));
    assert_eq!(
        parse_command("Ref Heap 99999999999999999999999999").err(),
        Some(GcError::MalformedCommand)
    );
    assert_eq!(
        reference_counting(lines(&["Ref Stack 1", "Ref Stack one"])).err(),
        Some(GcError::MalformedCommand)
    );
}

#[test]
fn the_first_line_that_fails_gives_the_error() {
    assert_eq!(
        reference_counting(lines(&["Ref Stack 12", "Ref Stack x"])).err(),
        Some(GcError::OutOfBounds)
    );
    assert_eq!(
        reference_counting(lines(&["Ref Stack x", "Ref Stack 12"])).err(),
        Some(GcError::MalformedCommand)
    );
}

#[test]
fn lines_are_read_as_commands() {
    assert!(matches!(parse_command("Pop"), Ok(Some(Command::Pop))));
    match parse_command("Ref Heap 3 1 2") {
        Ok(Some(Command::AllocateOrOverwrite { index, children })) => {
            assert_eq!(index, 3);
            assert_eq!(children, vec![1, 2]);
        }
        other => panic!("{:?}", other),
    }
    match parse_command("Ref Heap 7") {
        Ok(Some(Command::AllocateOrOverwrite { index, children })) => {
            assert_eq!(index, 7);
            assert_eq!(children, Vec::<u32>::new());
        }
        other => panic!("{:?}", other),
    }
    match parse_command("Ref Stack 4 5  6") {
        Ok(Some(Command::PushFrame { roots })) => assert_eq!(roots, vec![4, 5, 6]),
        other => panic!("{:?}", other),
    }
    match parse_command("Ref Stack") {
        Ok(Some(Command::PushFrame { roots })) => assert_eq!(roots, Vec::<u32>::new()),
        other => panic!("{:?}", other),
    }
}

#[test]
fn lines_are_searched_not_matched_whole() {
    assert!(matches!(parse_command("then Pop it"), Ok(Some(Command::Pop))));
    assert!(matches!(parse_command("Ref Heap 1 Pop"), Ok(Some(Command::Pop))));
    match parse_command(">> Ref Heap 12 +3\t004") {
        Ok(Some(Command::AllocateOrOverwrite { index, children })) => {
            assert_eq!(index, 12);
            assert_eq!(children, vec![3, 4]);
        }
        other => panic!("{:?}", other),
    }
    match parse_command("Ref Heap 5x 1") {
        Ok(Some(Command::AllocateOrOverwrite { index, children })) => {
            assert_eq!(index, 5);
            assert_eq!(children, Vec::<u32>::new());
        }
        other => panic!("{:?}", other),
    }
}

#[test]
fn other_lines_say_nothing() {
    assert!(matches!(parse_command(""), Ok(None)));
    assert!(matches!(parse_command("pop"), Ok(None)));
    assert!(matches!(parse_command("Ref Heap x"), Ok(None)));
    let mem = reference_counting(lines(&["# a trace", "Ref Stack 2", "", "ref stack 3"])).unwrap();
    assert_eq!(mem.stack, vec![vec![2]]);
}

#[test]
fn groups_are_read_as_commands() {
    let some = |text: &str| Some(text.to_string());
    match heap_command(&vec![some("Ref Heap 2 0 1"), some("2"), some("0 1")]) {
        Ok(Command::AllocateOrOverwrite { index, children }) => {
            assert_eq!(index, 2);
            assert_eq!(children, vec![0, 1]);
        }
        other => panic!("{:?}", other),
    }
    match heap_command(&vec![some("Ref Heap 2"), some("2"), None]) {
        Ok(Command::AllocateOrOverwrite { index, children }) => {
            assert_eq!(index, 2);
            assert!(children.is_empty());
        }
        other => panic!("{:?}", other),
    }
    assert_eq!(heap_command(&vec![some("x"), None, some("1")]).err(), Some(GcError::MalformedCommand));
    assert_eq!(heap_command(&vec![some("x")]).err(), Some(GcError::MalformedCommand));
    assert_eq!(heap_command(&vec![some("x"), some("1"), some("1,2")]).err(), Some(GcError::MalformedCommand));
    match stack_command(&vec![some("Ref Stack 9"), some("9")]) {
        Ok(Command::PushFrame { roots }) => assert_eq!(roots, vec![9]),
        other => panic!("{:?}", other),
    }
    assert_eq!(stack_command(&vec![some("x"), some("9 a")]).err(), Some(GcError::MalformedCommand));
}

#[test]
fn remove_lowers_one_count() {
    let mut heap = vec![(Some(vec![1]), 2), (Some(vec![]), 1)];
    remove(&mut heap, 0);
    assert_eq!(heap, vec![(Some(vec![1]), 1), (Some(vec![]), 1)]);
}

#[test]
fn remove_frees_down_the_references() {
    let mut heap = vec![
        (Some(vec![1, 2, 1]), 1),
        (Some(vec![3]), 2),
        (Some(vec![3]), 2),
        (Some(vec![]), 2),
        (Some(vec![0]), 5),
    ];
    remove(&mut heap, 0);
    assert_eq!(
        heap,
        vec![(None, 0), (None, 0), (Some(vec![3]), 1), (Some(vec![]), 1), (Some(vec![0]), 5)]
    );
}

#[test]
fn remove_passes_over_a_slot_without_references() {
    let mut heap = vec![(Some(vec![1]), 0), (Some(vec![]), 1)];
    remove(&mut heap, 0);
    assert_eq!(heap, vec![(Some(vec![1]), 0), (Some(vec![]), 1)]);
}

#[test]
fn remove_ends_on_cycles() {
    let mut heap = vec![(Some(vec![1]), 1), (Some(vec![0]), 1)];
    remove(&mut heap, 0);
    assert_eq!(heap, vec![(None, 0), (None, 0)]);
}

#[test]
fn new_memory_is_unused() {
    let mem = RefCountMem::new(3);
    assert_eq!(mem.heap, unused(3));
    assert!(mem.stack.is_empty());
}

#[test]
fn normalize_frees_slots_without_references() {
    let mut mem = RefCountMem { stack: vec![vec![1]], heap: vec![(Some(vec![1]), 0), (Some(vec![]), 2)] };
    mem.normalize();
    assert_eq!(mem.heap, vec![(None, 0), (Some(vec![]), 2)]);
    assert_eq!(mem.stack, vec![vec![1]]);
}

#[test]
fn counts_agree_on_a_cycle_that_the_stack_reaches() {
    let mem = run_commands(
        &vec![
            Command::PushFrame { roots: vec![0] },
            Command::AllocateOrOverwrite { index: 0, children: vec![1] },
            Command::AllocateOrOverwrite { index: 1, children: vec![0] },
        ],
        3,
    )
    .unwrap();
    assert_eq!(mem.heap, vec![(Some(vec![1]), 2), (Some(vec![0]), 1), (None, 0)]);
    let heap: Vec<Option<(String, Vec<u32>)>> = mem
        .heap
        .iter()
        .map(|slot| slot.0.clone().map(|children| (String::new(), children)))
        .collect();
    assert_eq!(reachable(&mem.stack, &heap), Ok(vec![0, 1]));
}

#[test]
fn counts_disagree_on_a_cycle_that_the_stack_lost() {
    let mem = reference_counting(lines(&["Ref Stack 0", "Ref Heap 0 1", "Ref Heap 1 0", "Pop"])).unwrap();
    let counted: Vec<u32> =
        (0..mem.heap.len()).filter(|&i| mem.heap[i].1 > 0).map(|i| i as u32).collect();
    let heap: Vec<Option<(String, Vec<u32>)>> = mem
        .heap
        .iter()
        .map(|slot| slot.0.clone().map(|children| (String::new(), children)))
        .collect();
    assert_eq!(counted, vec![0, 1]);
    assert_eq!(reachable(&mem.stack, &heap), Ok(vec![]));
}
