use gc_model::{mark_and_sweep, reachable, stop_and_copy, GcError, Memory};

fn object(label: &str, children: Vec<u32>) -> Option<(String, Vec<u32>)> {
    Some((label.to_string(), children))
}

#[test]
fn reachable_follows_references() {
    let stack = vec![vec![0]];
    let heap = vec![object("A", vec![1]), object("B", vec![]), object("C", vec![])];
    assert_eq!(reachable(&stack, &heap), Ok(vec![0, 1]));
}

#[test]
fn reachable_is_ascending_and_without_repeats() {
    let stack = vec![vec![4, 4], vec![2], vec![4]];
    let heap = vec![
        object("a", vec![]),
        object("b", vec![0]),
        object("c", vec![1, 1, 4]),
        object("d", vec![]),
        object("e", vec![2]),
    ];
    assert_eq!(reachable(&stack, &heap), Ok(vec![0, 1, 2, 4]));
}

#[test]
fn reachable_ends_on_cycles() {
    let stack = vec![vec![1]];
    let heap = vec![object("a", vec![1]), object("b", vec![2]), object("c", vec![0, 1]), None];
    assert_eq!(reachable(&stack, &heap), Ok(vec![0, 1, 2]));
}

#[test]
fn reachable_counts_an_empty_slot_but_goes_no_further() {
    let stack = vec![vec![0]];
    let heap = vec![object("a", vec![1]), None, object("c", vec![])];
    assert_eq!(reachable(&stack, &heap), Ok(vec![0, 1]));
}

#[test]
fn reachable_with_no_roots_is_empty() {
    let heap = vec![object("a", vec![1]), object("b", vec![0])];
    assert_eq!(reachable(&vec![], &heap), Ok(vec![]));
    assert_eq!(reachable(&vec![vec![], vec![]], &heap), Ok(vec![]));
    assert_eq!(reachable(&vec![], &vec![]), Ok(vec![]));
}

#[test]
fn reachable_refuses_a_root_outside_the_heap() {
    let heap = vec![object("a", vec![])];
    assert_eq!(reachable(&vec![vec![0, 1]], &heap), Err(GcError::OutOfBounds));
    assert_eq!(reachable(&vec![vec![0]], &vec![]), Err(GcError::OutOfBounds));
}

#[test]
fn reachable_refuses_a_child_outside_the_heap() {
    let heap = vec![object("a", vec![]), object("b", vec![2])];
    assert_eq!(reachable(&vec![vec![0]], &heap), Err(GcError::OutOfBounds));
}

#[test]
fn reachable_grows_with_the_stack() {
    let heap = vec![
        object("a", vec![1]),
        object("b", vec![]),
        object("c", vec![3]),
        object("d", vec![]),
        object("e", vec![]),
    ];
    let small = reachable(&vec![vec![0]], &heap).unwrap();
    let large = reachable(&vec![vec![2, 0], vec![4]], &heap).unwrap();
    assert_eq!(small, vec![0, 1]);
    assert_eq!(large, vec![0, 1, 2, 3, 4]);
    assert!(small.iter().all(|x| large.contains(x)));
}

#[test]
fn mark_and_sweep_clears_what_is_not_reached() {
    let mut mem = Memory {
        stack: vec![vec![0]],
        heap: vec![object("A", vec![1]), object("B", vec![]), object("C", vec![])],
    };
    assert_eq!(mark_and_sweep(&mut mem), Ok(()));
    assert_eq!(mem.heap, vec![object("A", vec![1]), object("B", vec![]), None]);
    assert_eq!(mem.stack, vec![vec![0]]);
}

#[test]
fn mark_and_sweep_twice_is_once() {
    let mut mem = Memory {
        stack: vec![vec![3], vec![]],
        heap: vec![
            object("a", vec![1]),
            object("b", vec![0]),
            object("c", vec![3]),
            object("d", vec![4, 4]),
            object("e", vec![]),
            None,
        ],
    };
    assert_eq!(mark_and_sweep(&mut mem), Ok(()));
    let once = mem.heap.clone();
    assert_eq!(once, vec![None, None, None, object("d", vec![4, 4]), object("e", vec![]), None]);
    assert_eq!(mark_and_sweep(&mut mem), Ok(()));
    assert_eq!(mem.heap, once);
    assert_eq!(mem.stack, vec![vec![3], vec![]]);
}

#[test]
fn mark_and_sweep_with_an_empty_stack_clears_all() {
    let mut mem = Memory { stack: vec![], heap: vec![object("a", vec![1]), object("b", vec![0])] };
    assert_eq!(mark_and_sweep(&mut mem), Ok(()));
    assert_eq!(mem.heap, vec![None, None]);
}

#[test]
fn mark_and_sweep_refuses_and_keeps_a_snapshot_out_of_bounds() {
    let heap = vec![object("a", vec![7]), object("b", vec![])];
    let mut mem = Memory { stack: vec![vec![1]], heap: heap.clone() };
    assert_eq!(mark_and_sweep(&mut mem), Err(GcError::OutOfBounds));
    assert_eq!(mem.heap, heap);
    assert_eq!(mem.stack, vec![vec![1]]);
}

#[test]
fn stop_and_copy_moves_the_first_half() {
    let mut mem = Memory {
        stack: vec![vec![0]],
        heap: vec![object("root", vec![2]), None, object("leaf", vec![]), None, None, None],
    };
    assert_eq!(stop_and_copy(&mut mem, 0), Ok(()));
    assert_eq!(
        mem.heap,
        vec![None, None, None, object("root", vec![4]), object("leaf", vec![]), None]
    );
    assert_eq!(mem.stack, vec![vec![3]]);
}

#[test]
fn stop_and_copy_moves_the_second_half() {
    let mut mem = Memory {
        stack: vec![vec![5], vec![3, 5]],
        heap: vec![
            None,
            None,
            None,
            object("x", vec![]),
            object("lost", vec![3]),
            object("y", vec![3, 5]),
        ],
    };
    assert_eq!(stop_and_copy(&mut mem, 1), Ok(()));
    assert_eq!(
        mem.heap,
        vec![object("x", vec![]), object("y", vec![0, 1]), None, None, None, None]
    );
    assert_eq!(mem.stack, vec![vec![1], vec![0, 1]]);
}

#[test]
fn stop_and_copy_takes_any_other_flag_for_the_second_half() {
    let mut mem = Memory {
        stack: vec![vec![2]],
        heap: vec![object("old", vec![]), None, object("a", vec![3]), object("b", vec![])],
    };
    assert_eq!(stop_and_copy(&mut mem, 7), Ok(()));
    assert_eq!(mem.heap, vec![object("a", vec![1]), object("b", vec![]), None, None]);
    assert_eq!(mem.stack, vec![vec![0]]);
}

#[test]
fn stop_and_copy_drops_children_and_keeps_roots_that_do_not_move() {
    let mut mem = Memory {
        stack: vec![vec![4, 0, 1], vec![5]],
        heap: vec![
            object("a", vec![1, 3, 2, 0]),
            None,
            object("c", vec![5]),
            object("stale", vec![0]),
            None,
            object("stale too", vec![]),
        ],
    };
    assert_eq!(stop_and_copy(&mut mem, 0), Ok(()));
    assert_eq!(
        mem.heap,
        vec![None, None, None, object("a", vec![4, 3]), object("c", vec![]), None]
    );
    assert_eq!(mem.stack, vec![vec![4, 3, 1], vec![5]]);
}

#[test]
fn stop_and_copy_does_not_follow_references_through_the_other_half() {
    let mut mem = Memory {
        stack: vec![vec![0]],
        heap: vec![object("a", vec![2]), object("b", vec![]), object("c", vec![1]), None],
    };
    assert_eq!(stop_and_copy(&mut mem, 0), Ok(()));
    assert_eq!(mem.heap, vec![None, None, object("a", vec![]), None]);
    assert_eq!(mem.stack, vec![vec![2]]);
}

#[test]
fn stop_and_copy_keeps_cycles() {
    let mut mem = Memory {
        stack: vec![vec![1]],
        heap: vec![object("a", vec![1]), object("b", vec![0, 1]), None, None],
    };
    assert_eq!(stop_and_copy(&mut mem, 0), Ok(()));
    assert_eq!(mem.heap, vec![None, None, object("a", vec![3]), object("b", vec![2, 3])]);
    assert_eq!(mem.stack, vec![vec![3]]);
}

#[test]
fn stop_and_copy_of_a_full_half_fills_the_other() {
    let mut mem = Memory {
        stack: vec![vec![0, 1]],
        heap: vec![object("a", vec![]), object("b", vec![]), None, None],
    };
    assert_eq!(stop_and_copy(&mut mem, 0), Ok(()));
    assert_eq!(mem.heap, vec![None, None, object("a", vec![]), object("b", vec![])]);
    assert_eq!(mem.stack, vec![vec![2, 3]]);
}

#[test]
fn stop_and_copy_of_an_empty_heap() {
    let mut mem = Memory { stack: vec![vec![]], heap: vec![] };
    assert_eq!(stop_and_copy(&mut mem, 0), Ok(()));
    assert!(mem.heap.is_empty());
    assert_eq!(mem.stack, vec![vec![]]);
}

#[test]
fn stop_and_copy_there_and_back() {
    let mut mem = Memory {
        stack: vec![vec![2]],
        heap: vec![object("dead", vec![]), object("kid", vec![]), object("top", vec![1]), None, None, None],
    };
    assert_eq!(stop_and_copy(&mut mem, 0), Ok(()));
    assert_eq!(
        mem.heap,
        vec![None, None, None, object("kid", vec![]), object("top", vec![3]), None]
    );
    assert_eq!(mem.stack, vec![vec![4]]);
    assert_eq!(stop_and_copy(&mut mem, 1), Ok(()));
    assert_eq!(
        mem.heap,
        vec![object("kid", vec![]), object("top", vec![0]), None, None, None, None]
    );
    assert_eq!(mem.stack, vec![vec![1]]);
}

#[test]
fn stop_and_copy_refuses_and_keeps_a_snapshot_out_of_bounds() {
    let heap = vec![object("a", vec![]), None];
    let mut mem = Memory { stack: vec![vec![0, 2]], heap: heap.clone() };
    assert_eq!(stop_and_copy(&mut mem, 0), Err(GcError::OutOfBounds));
    assert_eq!(mem.heap, heap);
    assert_eq!(mem.stack, vec![vec![0, 2]]);
}

#[test]
fn stop_and_copy_keeps_a_root_of_an_empty_slot() {
    let mut mem = Memory { stack: vec![vec![0]], heap: vec![None, None] };
    assert_eq!(stop_and_copy(&mut mem, 0), Ok(()));
    assert_eq!(mem.heap, vec![None, None]);
    assert_eq!(mem.stack, vec![vec![0]]);
}

#[test]
fn stop_and_copy_keeps_the_length_of_every_frame() {
    let mut mem = Memory {
        stack: vec![vec![], vec![1, 1, 0, 3], vec![2]],
        heap: vec![object("a", vec![]), None, None, object("old", vec![])],
    };
    assert_eq!(stop_and_copy(&mut mem, 0), Ok(()));
    assert_eq!(mem.heap, vec![None, None, object("a", vec![]), None]);
    assert_eq!(mem.stack, vec![vec![], vec![1, 1, 2, 3], vec![2]]);
}
