use kakuro::derive::{
    assign_combinations, check_candidates, check_combinations, common_candidates,
    distinct_signatures, needed_signatures, set_possible_combinations,
    set_siblings_and_possible_values, uses_digit,
};
use kakuro::graph::insert_puzzle_and_connect_parents_and_children;
use kakuro::model::{Puzzle, SetupError, Signature};
use kakuro::siblings::shared_cells;
use kakuro::table::CombinationTable;

fn joined(lines: &[&str]) -> Vec<u8> {
    lines.join("\n").into_bytes()
}

fn sig(sum: u8, length: u8) -> Signature {
    Signature { sum, length }
}

fn square(vertical_a: &str, vertical_b: &str, horizontal_a: &str, horizontal_b: &str) -> Puzzle {
    let text = joined(&[
        &format!("-\\\\ {}\\- {}\\-", vertical_a, vertical_b),
        &format!("\\xx -\\{}", horizontal_a),
        &format!("\\xx -\\{}", horizontal_b),
    ]);
    insert_puzzle_and_connect_parents_and_children(&text).unwrap()
}

fn small_table() -> Vec<u8> {
    joined(&[
        "3-2 [1, 2]",
        "4-2 [1, 3]",
        "6-2 [1, 5]",
        "6-2 [2, 4]",
        "7-2 [1, 6]",
        "7-2 [2, 5]",
        "7-2 [3, 4]",
    ])
}

#[test]
fn digits_are_found_in_combinations() {
    let combinations = vec![vec![1, 6], vec![2, 5]];
    assert!(uses_digit(&combinations, 1));
    assert!(uses_digit(&combinations, 5));
    assert!(!uses_digit(&combinations, 3));
    assert!(!uses_digit(&vec![], 3));
    assert!(!uses_digit(&vec![vec![]], 3));
}

#[test]
fn candidates_are_the_digits_of_both_runs() {
    assert_eq!(
        common_candidates(&vec![vec![3, 8], vec![4, 7]], &vec![vec![3, 8], vec![4, 7]]),
        vec![3, 4, 7, 8]
    );
    assert_eq!(
        common_candidates(&vec![vec![1, 5], vec![2, 4]], &vec![vec![1, 2]]),
        vec![1, 2]
    );
    assert_eq!(
        common_candidates(&vec![vec![9, 1], vec![1, 9]], &vec![vec![9, 8, 1]]),
        vec![1, 9]
    );
}

#[test]
fn runs_without_a_common_digit_leave_no_candidate() {
    assert_eq!(common_candidates(&vec![vec![1, 3]], &vec![vec![7, 9]]), Vec::<u8>::new());
    assert_eq!(common_candidates(&vec![], &vec![vec![7, 9]]), Vec::<u8>::new());
}

#[test]
fn only_digits_from_one_to_nine_are_candidates() {
    assert_eq!(common_candidates(&vec![vec![0, 5, 10]], &vec![vec![0, 5, 10]]), vec![5]);
}

#[test]
fn shared_cells_are_the_other_cells_of_both_runs_ascending() {
    assert_eq!(shared_cells(&vec![4, 7, 9], &vec![7, 2, 1], 7, 10), vec![1, 2, 4, 9]);
    assert_eq!(shared_cells(&vec![0, 2], &vec![0, 1], 0, 4), vec![1, 2]);
    assert_eq!(shared_cells(&vec![3], &vec![3], 3, 4), Vec::<usize>::new());
    assert_eq!(shared_cells(&vec![1, 1, 2], &vec![2, 1], 0, 3), vec![1, 2]);
}

#[test]
fn signatures_are_listed_once() {
    assert_eq!(
        distinct_signatures(&vec![sig(4, 2), sig(6, 2), sig(4, 2), sig(4, 3), sig(6, 2)]),
        vec![sig(4, 2), sig(6, 2), sig(4, 3)]
    );
    assert_eq!(distinct_signatures(&vec![]), vec![]);
}

#[test]
fn the_needed_signatures_are_those_of_the_runs() {
    let puzzle = square("4-2", "6-2", "4-2", "6-2");
    assert_eq!(needed_signatures(&puzzle), Ok(vec![sig(4, 2), sig(6, 2)]));
}

#[test]
fn runs_get_the_combinations_of_their_signature() {
    let mut puzzle = square("4-2", "6-2", "3-2", "7-2");
    let table = CombinationTable::load(&small_table()).unwrap();
    assert_eq!(assign_combinations(&mut puzzle, &table), Ok(()));
    let combinations: Vec<Vec<Vec<u8>>> =
        puzzle.clues.iter().map(|c| c.combinations.clone()).collect();
    assert_eq!(
        combinations,
        vec![
            vec![vec![1, 3]],
            vec![vec![1, 5], vec![2, 4]],
            vec![vec![1, 2]],
            vec![vec![1, 6], vec![2, 5], vec![3, 4]],
        ]
    );
}

#[test]
fn every_stored_combination_fits_its_run() {
    let mut puzzle = square("4-2", "6-2", "3-2", "7-2");
    assert_eq!(set_possible_combinations(&mut puzzle, &small_table()), Ok(()));
    for clue in &puzzle.clues {
        assert_eq!(clue.members.len(), clue.length as usize);
        assert!(!clue.combinations.is_empty());
        for combination in &clue.combinations {
            assert_eq!(combination.len(), clue.members.len());
            assert_eq!(combination.iter().map(|d| *d as u32).sum::<u32>(), clue.sum as u32);
            for (i, d) in combination.iter().enumerate() {
                assert!((1..=9).contains(d));
                assert!(!combination[..i].contains(d));
            }
        }
    }
}

#[test]
fn a_run_without_combinations_is_reported() {
    let mut puzzle = square("4-2", "5-2", "3-2", "8-2");
    let before = puzzle.clone();
    let table = CombinationTable::load(&small_table()).unwrap();
    assert_eq!(
        assign_combinations(&mut puzzle, &table),
        Err(SetupError::UnsatisfiableClue { clue: 1 })
    );
    // the other runs have their combinations all the same
    assert_eq!(puzzle.clues[0].combinations, vec![vec![1, 3]]);
    assert_eq!(puzzle.clues[1].combinations, Vec::<Vec<u8>>::new());
    assert_eq!(puzzle.clues[2].combinations, vec![vec![1, 2]]);
    assert_eq!(puzzle.clues[3].combinations, Vec::<Vec<u8>>::new());
    assert_eq!(puzzle.cells, before.cells);
    assert_eq!(check_combinations(&puzzle), Some(SetupError::UnsatisfiableClue { clue: 1 }));
}

#[test]
fn a_sum_that_no_digits_reach_is_unsatisfiable() {
    let text = joined(&["\\ 45-1\\-", "x"]);
    // the cell has no horizontal run, so build the graph of a full square instead
    assert!(insert_puzzle_and_connect_parents_and_children(&text).is_err());
    let mut puzzle = square("17-2", "6-2", "3-2", "18-2");
    let table = joined(&["17-2 [8, 9]", "6-2 [1, 5]", "3-2 [1, 2]"]);
    assert_eq!(
        set_possible_combinations(&mut puzzle, &table),
        Err(SetupError::UnsatisfiableClue { clue: 3 })
    );
}

#[test]
fn a_table_that_cannot_be_read_leaves_the_puzzle_alone() {
    let mut puzzle = square("4-2", "6-2", "3-2", "7-2");
    let before = puzzle.clone();
    assert_eq!(
        set_possible_combinations(&mut puzzle, &joined(&["4-2 [1, 3]", "6-2 [1, 6]"])),
        Err(SetupError::TableFormat { line: 1 })
    );
    assert_eq!(puzzle, before);
}

#[test]
fn combinations_from_a_text_are_those_of_the_whole_table() {
    let mut from_text = square("4-2", "6-2", "3-2", "7-2");
    let mut from_table = from_text.clone();
    assert_eq!(set_possible_combinations(&mut from_text, &small_table()), Ok(()));
    let table = CombinationTable::load(&small_table()).unwrap();
    assert_eq!(assign_combinations(&mut from_table, &table), Ok(()));
    assert_eq!(from_text, from_table);
}

#[test]
fn cells_get_siblings_and_candidates() {
    let mut puzzle = square("4-2", "6-2", "3-2", "7-2");
    assert_eq!(set_possible_combinations(&mut puzzle, &small_table()), Ok(()));
    assert_eq!(set_siblings_and_possible_values(&mut puzzle), Ok(()));
    let siblings: Vec<Vec<usize>> = puzzle.cells.iter().map(|c| c.siblings.clone()).collect();
    assert_eq!(siblings, vec![vec![1, 2], vec![0, 3], vec![0, 3], vec![1, 2]]);
    let candidates: Vec<Vec<u8>> =
        puzzle.cells.iter().map(|c| c.possible_values.clone()).collect();
    assert_eq!(candidates, vec![vec![1], vec![1, 2], vec![1, 3], vec![1, 2, 4, 5]]);
    for cell in &puzzle.cells {
        assert_eq!(cell.value, 0);
    }
}

#[test]
fn two_combinations_of_eleven_leave_four_candidates_in_every_cell() {
    let mut puzzle = square("11-2", "11-2", "11-2", "11-2");
    let table = CombinationTable::load(&joined(&["11-2 [3, 8]", "11-2 [4, 7]"])).unwrap();
    assert_eq!(kakuro::derive::derive(&mut puzzle, &table), Ok(()));
    assert_eq!(puzzle.cells.len(), 4);
    for cell in &puzzle.cells {
        assert_eq!(cell.possible_values, vec![3, 4, 7, 8]);
    }
}

#[test]
fn a_cell_whose_runs_share_no_digit_is_reported() {
    let mut puzzle = square("4-2", "16-2", "16-2", "4-2");
    let table = CombinationTable::load(&joined(&["4-2 [1, 3]", "16-2 [7, 9]"])).unwrap();
    assert_eq!(kakuro::derive::derive(&mut puzzle, &table), Err(SetupError::UnsatisfiableCell { cell: 0 }));
    assert_eq!(puzzle.cells[0].possible_values, Vec::<u8>::new());
    assert_eq!(puzzle.cells[1].possible_values, vec![7, 9]);
    assert_eq!(puzzle.cells[2].possible_values, vec![1, 3]);
    assert_eq!(puzzle.cells[3].possible_values, Vec::<u8>::new());
    assert_eq!(check_candidates(&puzzle), Some(SetupError::UnsatisfiableCell { cell: 0 }));
}

#[test]
fn a_run_without_combinations_comes_before_a_cell_without_candidates() {
    let mut puzzle = square("4-2", "16-2", "16-2", "5-2");
    let table = CombinationTable::load(&joined(&["4-2 [1, 3]", "16-2 [7, 9]"])).unwrap();
    assert_eq!(kakuro::derive::derive(&mut puzzle, &table), Err(SetupError::UnsatisfiableClue { clue: 3 }));
    assert_eq!(check_candidates(&puzzle), Some(SetupError::UnsatisfiableCell { cell: 0 }));
}

#[test]
fn siblings_are_mutual_and_never_the_cell_itself() {
    let text = joined(&[
        "-\\\\\\ 6-2\\- 7-3\\- 3-1\\-",
        "\\xxx -\\6-3",
        "\\xx- -\\7-2",
        "-\\x- -\\4-1",
    ]);
    let mut puzzle = insert_puzzle_and_connect_parents_and_children(&text).unwrap();
    let _ = set_siblings_and_possible_values(&mut puzzle);
    assert_eq!(puzzle.cells.len(), 6);
    let siblings: Vec<Vec<usize>> = puzzle.cells.iter().map(|c| c.siblings.clone()).collect();
    assert_eq!(
        siblings,
        vec![vec![1, 2, 3], vec![0, 2, 4, 5], vec![0, 1], vec![0, 4], vec![1, 3, 5], vec![1, 4]]
    );
    for (a, list) in siblings.iter().enumerate() {
        assert!(!list.contains(&a));
        for b in list {
            assert!(siblings[*b].contains(&a));
        }
    }
}

#[test]
fn deriving_twice_changes_nothing() {
    let mut puzzle = square("4-2", "6-2", "3-2", "7-2");
    let table = CombinationTable::load(&small_table()).unwrap();
    assert_eq!(kakuro::derive::derive(&mut puzzle, &table), Ok(()));
    let once = puzzle.clone();
    assert_eq!(kakuro::derive::derive(&mut puzzle, &table), Ok(()));
    assert_eq!(puzzle, once);
    assert_eq!(set_siblings_and_possible_values(&mut puzzle), Ok(()));
    assert_eq!(puzzle, once);
}

#[test]
fn a_cell_with_a_missing_run_is_a_fault_and_not_an_empty_candidate_list() {
    let mut puzzle = square("4-2", "6-2", "3-2", "7-2");
    assert_eq!(set_possible_combinations(&mut puzzle, &small_table()), Ok(()));
    puzzle.cells[2].vertical = None;
    let before = puzzle.clone();
    let fault = Err(SetupError::MissingRun { cell: 2, axis: kakuro::model::Axis::Vertical });
    assert_eq!(set_siblings_and_possible_values(&mut puzzle), fault);
    assert_eq!(puzzle, before);
    let table = CombinationTable::load(&small_table()).unwrap();
    assert_eq!(kakuro::derive::derive(&mut puzzle, &table), fault);
    assert_eq!(assign_combinations(&mut puzzle, &table), fault);
    assert_eq!(set_possible_combinations(&mut puzzle, &small_table()), fault);
    assert_eq!(needed_signatures(&puzzle).map(|_| ()), fault);
    assert_eq!(puzzle, before);
}

#[test]
fn a_graph_with_a_fault_is_reported_before_the_table() {
    let mut puzzle = square("4-2", "6-2", "3-2", "7-2");
    puzzle.clues[1].members.push(7);
    let before = puzzle.clone();
    assert_eq!(
        set_possible_combinations(&mut puzzle, b"oops"),
        Err(SetupError::RunLength { clue: 1 })
    );
    puzzle.clues[1].members = vec![1, 7];
    assert_eq!(set_siblings_and_possible_values(&mut puzzle), Err(SetupError::Inconsistent));
    puzzle.clues[1].members = vec![1, 3, 7];
    assert_eq!(puzzle, before);
}

#[test]
fn cells_beyond_the_list_of_cells_are_no_siblings() {
    assert_eq!(shared_cells(&vec![1, 12, 3], &vec![10, 2], 2, 10), vec![1, 3]);
}
