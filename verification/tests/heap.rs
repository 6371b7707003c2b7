use whiledb_nom::{EvalError, Mem};

#[test]
fn new_heap_holds_the_reserved_cell() {
    let mem: Mem<i128> = Mem::new();
    assert_eq!(mem.mem, vec![None]);
    assert!(mem.malloced.is_empty());
}

#[test]
fn malloc_appends_when_nothing_is_free() {
    let mut mem: Mem<i128> = Mem::new();
    assert_eq!(mem.malloc(2, 7), Ok(1));
    assert_eq!(mem.mem, vec![None, Some(7), Some(7)]);
    assert_eq!(mem.malloced.get(&1), Some(&2));
    assert_eq!(mem.malloc(3, 9), Ok(3));
    assert_eq!(mem.mem.len(), 6);
    assert_eq!(mem.malloced.len(), 2);
}

#[test]
fn malloc_of_no_cells_is_refused() {
    let mut mem: Mem<i128> = Mem::new();
    assert_eq!(mem.malloc(0, 0), Err(EvalError::InvalidArgument));
    assert_eq!(mem.mem, vec![None]);
    assert!(mem.malloced.is_empty());
}

#[test]
fn malloc_that_would_outgrow_the_machine_is_refused() {
    let mut mem: Mem<i128> = Mem::new();
    assert_eq!(mem.malloc(usize::MAX, 0), Err(EvalError::InvalidArgument));
    assert_eq!(mem.mem, vec![None]);
}

#[test]
fn malloc_takes_the_first_run_that_fits() {
    let mut mem: Mem<i128> = Mem::new();
    assert_eq!(mem.malloc(2, 1), Ok(1));
    assert_eq!(mem.malloc(3, 2), Ok(3));
    assert_eq!(mem.malloc(1, 3), Ok(6));
    assert!(mem.free(1));
    assert!(mem.free(3));
    // Cells 1..=5 are free again, cell 6 is taken.
    assert_eq!(mem.malloc(4, 8), Ok(1));
    assert_eq!(
        mem.mem,
        vec![None, Some(8), Some(8), Some(8), Some(8), None, Some(3)]
    );
    // The run at 5 is too short for two cells: they go to the end.
    assert_eq!(mem.malloc(2, 5), Ok(7));
    // One cell fits at 5.
    assert_eq!(mem.malloc(1, 4), Ok(5));
}

#[test]
fn malloc_claims_only_the_cells_asked_for() {
    let mut mem: Mem<i128> = Mem::new();
    assert_eq!(mem.malloc(4, 1), Ok(1));
    assert_eq!(mem.malloc(1, 2), Ok(5));
    assert!(mem.free(1));
    assert_eq!(mem.malloc(1, 9), Ok(1));
    assert_eq!(
        mem.mem,
        vec![None, Some(9), None, None, None, Some(2)]
    );
    assert_eq!(mem.malloced.get(&1), Some(&1));
    assert_eq!(mem.malloc(3, 6), Ok(2));
}

#[test]
fn free_empties_the_cells_and_forgets_the_allocation() {
    let mut mem: Mem<i128> = Mem::new();
    assert_eq!(mem.malloc(2, 7), Ok(1));
    assert!(mem.free(1));
    assert_eq!(mem.mem, vec![None, None, None]);
    assert!(mem.malloced.is_empty());
}

#[test]
fn free_of_what_is_not_allocated_reports_failure() {
    let mut mem: Mem<i128> = Mem::new();
    assert_eq!(mem.malloc(2, 7), Ok(1));
    assert!(!mem.free(2));
    assert!(!mem.free(0));
    assert!(!mem.free(100));
    assert_eq!(mem.mem, vec![None, Some(7), Some(7)]);
    assert_eq!(mem.malloced.len(), 1);
    assert!(mem.free(1));
    assert!(!mem.free(1));
}

#[test]
fn read_gives_what_a_cell_holds() {
    let mut mem: Mem<i128> = Mem::new();
    assert_eq!(mem.malloc(2, 7), Ok(1));
    assert_eq!(mem.read(1), Ok(7));
    assert_eq!(mem.read(2), Ok(7));
}

#[test]
fn read_fails_on_empty_cells_and_outside_the_heap() {
    let mut mem: Mem<i128> = Mem::new();
    assert_eq!(mem.read(0), Err(EvalError::InvalidMemoryAccess));
    assert_eq!(mem.read(1), Err(EvalError::InvalidMemoryAccess));
    assert_eq!(mem.malloc(1, 7), Ok(1));
    assert_eq!(mem.read(2), Err(EvalError::InvalidMemoryAccess));
    assert!(mem.free(1));
    assert_eq!(mem.read(1), Err(EvalError::InvalidMemoryAccess));
}

#[test]
fn write_changes_one_cell_of_an_allocation() {
    let mut mem: Mem<i128> = Mem::new();
    assert_eq!(mem.malloc(2, 0), Ok(1));
    assert_eq!(mem.write(2, 42), Ok(()));
    assert_eq!(mem.mem, vec![None, Some(0), Some(42)]);
    assert_eq!(mem.read(2), Ok(42));
}

#[test]
fn write_fails_on_empty_cells_and_outside_the_heap() {
    let mut mem: Mem<i128> = Mem::new();
    assert_eq!(mem.write(0, 1), Err(EvalError::InvalidMemoryAccess));
    assert_eq!(mem.write(1, 1), Err(EvalError::InvalidMemoryAccess));
    assert_eq!(mem.malloc(1, 7), Ok(1));
    assert!(mem.free(1));
    assert_eq!(mem.write(1, 1), Err(EvalError::InvalidMemoryAccess));
    assert_eq!(mem.mem, vec![None, None]);
}

#[test]
fn allocations_never_overlap_and_hold_every_full_cell() {
    let mut mem: Mem<i128> = Mem::new();
    let sizes = [3usize, 1, 4, 1, 5, 9, 2, 6];
    let mut starts = Vec::new();
    for (i, size) in sizes.iter().enumerate() {
        starts.push(mem.malloc(*size, i as i128).unwrap());
        if i % 3 == 2 {
            let victim = starts.remove(0);
            assert!(mem.free(victim));
        }
    }
    let mut owner: Vec<Option<usize>> = vec![None; mem.mem.len()];
    for (start, size) in mem.malloced.iter() {
        assert!(*start >= 1 && *size >= 1 && start + size <= mem.mem.len());
        for cell in *start..start + size {
            assert_eq!(owner[cell], None);
            owner[cell] = Some(*start);
        }
    }
    for (cell, content) in mem.mem.iter().enumerate() {
        assert_eq!(content.is_some(), owner[cell].is_some());
    }
}

#[test]
fn a_heap_can_be_made_of_its_parts() {
    let cells = vec![None, Some(7), Some(8), None, Some(9)];
    let mem = Mem::from_parts(cells.clone(), vec![(4, 1), (1, 2)]).unwrap();
    assert_eq!(mem.mem, cells);
    assert_eq!(mem.malloced.len(), 2);
    assert_eq!(mem.malloced.get(&1), Some(&2));
    assert_eq!(mem.malloced.get(&4), Some(&1));
    let mut mem = mem;
    assert_eq!(mem.malloc(1, 0), Ok(3));
    assert!(mem.free(1));
    assert_eq!(mem.malloc(2, 5), Ok(1));
    let empty: Mem<i128> = Mem::from_parts(vec![None], vec![]).unwrap();
    assert_eq!(empty.mem, vec![None]);
}

#[test]
fn parts_that_describe_no_heap_are_refused() {
    let cells: Vec<Option<i128>> = vec![None, Some(7), Some(8), None, Some(9)];
    let refused = |cells: &Vec<Option<i128>>, entries: Vec<(usize, usize)>| {
        Mem::from_parts(cells.clone(), entries).is_none()
    };
    // No reserved cell, or a reserved cell that holds a value.
    assert!(refused(&vec![], vec![]));
    assert!(refused(&vec![Some(1)], vec![]));
    assert!(refused(&vec![Some(1), Some(2)], vec![(0, 2)]));
    // A cell that holds a value and belongs to no allocation.
    assert!(refused(&cells, vec![(1, 2)]));
    assert!(refused(&cells, vec![(1, 1), (4, 1)]));
    // An allocation with an empty cell, with no cell, or outside the heap.
    assert!(refused(&cells, vec![(1, 3), (4, 1)]));
    assert!(refused(&cells, vec![(1, 2), (4, 1), (3, 0)]));
    assert!(refused(&cells, vec![(1, 2), (4, 2)]));
    assert!(refused(&cells, vec![(1, 2), (4, 1), (5, 1)]));
    assert!(refused(&cells, vec![(1, 2), (4, usize::MAX)]));
    // A cell in two allocations, or an allocation listed twice.
    assert!(refused(&cells, vec![(1, 2), (2, 1), (4, 1)]));
    assert!(refused(&cells, vec![(1, 2), (4, 1), (1, 2)]));
    assert!(!refused(&cells, vec![(1, 2), (4, 1)]));
    assert!(!refused(&cells, vec![(1, 1), (2, 1), (4, 1)]));
}
