use note_sorter::engine::{
    bubble_sort_steps, insertion_sort_steps, selection_sort_steps, NO_SWAP,
};
use note_sorter::note::note_to_string;
use note_sorter::{Grid, Note, Step};

fn reference_cells() -> Vec<Note> {
    vec![
        Note::E,
        Note::G,
        Note::D,
        Note::B,
        Note::A,
        Note::C,
        Note::F,
    ]
}

fn sorted_reference_cells() -> Vec<Note> {
    vec![
        Note::C,
        Note::D,
        Note::E,
        Note::F,
        Note::G,
        Note::A,
        Note::B,
    ]
}

fn ordinals(notes: &[Note]) -> Vec<u8> {
    notes.iter().map(|n| n.ordinal()).collect()
}

fn is_sorted_notes(notes: &[Note]) -> bool {
    let ords = ordinals(notes);
    ords.windows(2).all(|w| w[0] <= w[1])
}

fn assert_valid_step_log(log: &[Step], input: &[Note]) {
    let n = input.len();
    assert!(!log.is_empty());
    assert_eq!(log[0].snapshot, input.to_vec());
    assert_eq!(log[0].index_a, NO_SWAP);
    assert_eq!(log[0].index_b, NO_SWAP);
    for k in 1..log.len() {
        let a = log[k].index_a;
        let b = log[k].index_b;
        assert!(0 <= a && (a as usize) < n);
        assert!(0 <= b && (b as usize) < n);
        assert_ne!(a, b);
        let mut expected = log[k - 1].snapshot.clone();
        expected.swap(a as usize, b as usize);
        assert_eq!(log[k].snapshot, expected);
    }
}

fn assert_sorted_permutation(log: &[Step], input: &[Note]) {
    let last = &log[log.len() - 1].snapshot;
    assert!(is_sorted_notes(last));
    let mut got = ordinals(last);
    let mut want = ordinals(input);
    got.sort();
    want.sort();
    assert_eq!(got, want);
}

#[test]
fn grid_reference_configuration() {
    let grid = Grid::new();
    assert_eq!(grid.width(), 350);
    assert_eq!(grid.height(), 350);
    assert_eq!(grid.cells(), vec!["e", "g", "d", "b", "a", "c", "f"]);
}

#[test]
fn note_display_names() {
    let names: Vec<&str> = [
        Note::C,
        Note::D,
        Note::E,
        Note::F,
        Note::G,
        Note::A,
        Note::B,
    ]
    .iter()
    .map(note_to_string)
    .collect();
    assert_eq!(names, vec!["c", "d", "e", "f", "g", "a", "b"]);
}

#[test]
fn first_step_is_input_with_sentinels() {
    let grid = Grid::new();
    for log in [
        grid.insertion_sort(),
        grid.selection_sort(),
        grid.bubble_sort(),
    ] {
        assert_eq!(log[0].snapshot, reference_cells());
        assert_eq!(log[0].index_a, -1);
        assert_eq!(log[0].index_b, -1);
    }
}

#[test]
fn steps_are_valid_adjacent_swap_chains() {
    let input = reference_cells();
    assert_valid_step_log(&insertion_sort_steps(&input), &input);
    assert_valid_step_log(&selection_sort_steps(&input), &input);
    assert_valid_step_log(&bubble_sort_steps(&input), &input);
}

#[test]
fn final_snapshot_sorted_and_permutation() {
    let inputs: Vec<Vec<Note>> = vec![
        vec![],
        vec![Note::A],
        reference_cells(),
        vec![Note::B, Note::A, Note::G, Note::F, Note::E, Note::D, Note::C],
        vec![Note::B, Note::C, Note::B, Note::A, Note::C],
        vec![Note::C, Note::C, Note::C],
    ];
    for input in inputs {
        for log in [
            insertion_sort_steps(&input),
            selection_sort_steps(&input),
            bubble_sort_steps(&input),
        ] {
            assert_valid_step_log(&log, &input);
            assert_sorted_permutation(&log, &input);
        }
    }
}

#[test]
fn insertion_sort_reference_final_snapshot() {
    let log = insertion_sort_steps(&reference_cells());
    assert_eq!(log[log.len() - 1].snapshot, sorted_reference_cells());
}

#[test]
fn selection_sort_reference_swap_indices() {
    let log = selection_sort_steps(&reference_cells());
    let swaps: Vec<(i32, i32)> = log[1..]
        .iter()
        .map(|s| (s.index_a, s.index_b))
        .collect();
    assert_eq!(swaps, vec![(0, 5), (1, 2), (2, 5), (3, 6), (4, 5)]);
    assert_eq!(log[log.len() - 1].snapshot, sorted_reference_cells());

    // Selection sort swaps at most once per position, so it records no more
    // steps than insertion sort does on a reverse-sorted input of the same
    // length.
    let reversed = vec![Note::B, Note::A, Note::G, Note::F, Note::E, Note::D, Note::C];
    let insertion_log = insertion_sort_steps(&reversed);
    assert_eq!(insertion_log.len() - 1, 21);
    assert!(swaps.len() <= insertion_log.len() - 1);
}

#[test]
fn bubble_sort_early_termination_on_sorted_input() {
    let ascending = vec![Note::C, Note::D, Note::E, Note::F, Note::G];
    let log = bubble_sort_steps(&ascending);
    assert_eq!(log.len(), 1);
    assert_eq!(log[0].snapshot, ascending);
    assert_eq!(log[0].index_a, -1);
    assert_eq!(log[0].index_b, -1);
}

#[test]
fn bubble_sort_reference_final_snapshot() {
    let log = bubble_sort_steps(&reference_cells());
    assert!(log.len() > 1);
    assert_eq!(log[log.len() - 1].snapshot, sorted_reference_cells());
}

#[test]
fn equal_values_never_swap() {
    let twins = vec![Note::C, Note::C];
    assert_eq!(insertion_sort_steps(&twins).len(), 1);
    assert_eq!(selection_sort_steps(&twins).len(), 1);
    assert_eq!(bubble_sort_steps(&twins).len(), 1);
}

#[test]
fn empty_and_singleton_inputs() {
    let empty: Vec<Note> = vec![];
    let single = vec![Note::A];
    for input in [empty, single] {
        for log in [
            insertion_sort_steps(&input),
            selection_sort_steps(&input),
            bubble_sort_steps(&input),
        ] {
            assert_eq!(log.len(), 1);
            assert_eq!(log[0].snapshot, input);
            assert_eq!(log[0].index_a, -1);
            assert_eq!(log[0].index_b, -1);
        }
    }
}

#[test]
fn repeated_invocations_are_identical() {
    let grid = Grid::new();
    assert_eq!(grid.insertion_sort(), grid.insertion_sort());
    assert_eq!(grid.selection_sort(), grid.selection_sort());
    assert_eq!(grid.bubble_sort(), grid.bubble_sort());

    let input = vec![Note::B, Note::C, Note::B, Note::A, Note::C];
    assert_eq!(insertion_sort_steps(&input), insertion_sort_steps(&input));
    assert_eq!(selection_sort_steps(&input), selection_sort_steps(&input));
    assert_eq!(bubble_sort_steps(&input), bubble_sort_steps(&input));
}

#[test]
fn grid_methods_match_engine_on_same_cells() {
    let grid = Grid::new();
    let input = reference_cells();
    assert_eq!(grid.insertion_sort(), insertion_sort_steps(&input));
    assert_eq!(grid.selection_sort(), selection_sort_steps(&input));
    assert_eq!(grid.bubble_sort(), bubble_sort_steps(&input));
}

#[test]
fn sorting_leaves_grid_cells_unchanged() {
    let grid = Grid::new();
    let _ = grid.insertion_sort();
    let _ = grid.selection_sort();
    let _ = grid.bubble_sort();
    assert_eq!(grid.cells(), vec!["e", "g", "d", "b", "a", "c", "f"]);
}
