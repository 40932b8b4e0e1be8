use kakuro::graph::{
    check_graph, check_links, connect, insert_puzzle_and_connect_parents_and_children,
    is_connected,
};
use kakuro::grid::parse;
use kakuro::model::{Axis, GridCell, Puzzle, SetupError};

fn puzzle_text(lines: &[&str]) -> Vec<u8> {
    lines.join("\n").into_bytes()
}

fn square_grid() -> Vec<u8> {
    puzzle_text(&["-\\\\ 4-2\\- 6-2\\-", "\\xx -\\3-2", "\\xx -\\7-2"])
}

fn linked_square() -> Puzzle {
    insert_puzzle_and_connect_parents_and_children(&square_grid()).unwrap()
}

#[test]
fn runs_get_the_cells_behind_their_markers() {
    let puzzle = linked_square();
    let members: Vec<Vec<usize>> = puzzle.clues.iter().map(|c| c.members.clone()).collect();
    assert_eq!(members, vec![vec![0, 2], vec![1, 3], vec![0, 1], vec![2, 3]]);
}

#[test]
fn cells_get_the_runs_that_reach_them() {
    let puzzle = linked_square();
    let parents: Vec<(Option<usize>, Option<usize>)> =
        puzzle.cells.iter().map(|c| (c.vertical, c.horizontal)).collect();
    assert_eq!(
        parents,
        vec![
            (Some(0), Some(2)),
            (Some(1), Some(2)),
            (Some(0), Some(3)),
            (Some(1), Some(3)),
        ]
    );
}

#[test]
fn linking_leaves_the_rest_of_runs_and_cells_alone() {
    let parsed = parse(&square_grid()).unwrap();
    let stubs = parsed.puzzle.clone();
    let puzzle = connect(parsed).unwrap();
    for (clue, stub) in puzzle.clues.iter().zip(stubs.clues.iter()) {
        assert_eq!(
            (clue.index, clue.row, clue.col, clue.axis, clue.sum, clue.length),
            (stub.index, stub.row, stub.col, stub.axis, stub.sum, stub.length)
        );
        assert!(clue.combinations.is_empty());
    }
    for (cell, stub) in puzzle.cells.iter().zip(stubs.cells.iter()) {
        assert_eq!((cell.index, cell.row, cell.col), (stub.index, stub.row, stub.col));
        assert_eq!(cell.value, 0);
        assert!(cell.possible_values.is_empty());
    }
}

#[test]
fn cells_get_their_siblings() {
    let puzzle = linked_square();
    let siblings: Vec<Vec<usize>> = puzzle.cells.iter().map(|c| c.siblings.clone()).collect();
    assert_eq!(siblings, vec![vec![1, 2], vec![0, 3], vec![0, 3], vec![1, 2]]);
}

#[test]
fn both_parents_are_set_and_differ() {
    let puzzle = linked_square();
    for cell in &puzzle.cells {
        let v = cell.vertical.unwrap();
        let h = cell.horizontal.unwrap();
        assert_ne!(v, h);
        assert_eq!(puzzle.clues[v].axis, Axis::Vertical);
        assert_eq!(puzzle.clues[h].axis, Axis::Horizontal);
        assert!(puzzle.clues[v].members.contains(&cell.index));
        assert!(puzzle.clues[h].members.contains(&cell.index));
    }
}

#[test]
fn runs_have_the_declared_sums_and_lengths() {
    let puzzle = linked_square();
    let written: Vec<Vec<u8>> = puzzle
        .clues
        .iter()
        .map(|c| {
            kakuro::text::signature_text(kakuro::model::Signature {
                sum: c.sum,
                length: c.members.len() as u8,
            })
            .unwrap()
        })
        .collect();
    assert_eq!(
        written,
        vec![b"4-2".to_vec(), b"6-2".to_vec(), b"3-2".to_vec(), b"7-2".to_vec()]
    );
}

#[test]
fn a_run_ends_at_a_blocked_position_a_marker_or_the_edge() {
    let text = puzzle_text(&[
        "-\\\\-\\ 3-1\\- 4-2\\- 5-1\\-",
        "\\xx\\x -\\7-2 -\\8-1",
        "-\\x-- -\\6-1",
    ]);
    let puzzle = insert_puzzle_and_connect_parents_and_children(&text).unwrap();
    let members: Vec<Vec<usize>> = puzzle.clues.iter().map(|c| c.members.clone()).collect();
    assert_eq!(members, vec![vec![0], vec![1, 3], vec![2], vec![0, 1], vec![2], vec![3]]);
}

#[test]
fn a_cell_behind_a_marker_without_a_run_is_in_no_run() {
    let text = puzzle_text(&[
        "-\\\\-\\ 3-1\\- 4-2\\- 5-1\\-",
        "\\xx\\x -\\7-2 -\\8-1",
        "-\\x-- -\\-",
    ]);
    assert_eq!(
        insert_puzzle_and_connect_parents_and_children(&text),
        Err(SetupError::MissingRun { cell: 3, axis: Axis::Horizontal })
    );
}

#[test]
fn runs_of_different_lengths_are_linked() {
    let text = puzzle_text(&[
        "-\\\\- 4-2\\- 9-3\\-",
        "\\xx\\ -\\5-2 8-2\\-",
        "\\xxx -\\9-3",
        "-\\xx -\\7-2",
    ]);
    let puzzle = insert_puzzle_and_connect_parents_and_children(&text).unwrap();
    let members: Vec<Vec<usize>> = puzzle.clues.iter().map(|c| c.members.clone()).collect();
    assert_eq!(
        members,
        vec![vec![0, 2], vec![1, 3, 5], vec![0, 1], vec![4, 6], vec![2, 3, 4], vec![5, 6]]
    );
    let parents: Vec<(Option<usize>, Option<usize>)> =
        puzzle.cells.iter().map(|c| (c.vertical, c.horizontal)).collect();
    assert_eq!(
        parents,
        vec![
            (Some(0), Some(2)),
            (Some(1), Some(2)),
            (Some(0), Some(4)),
            (Some(1), Some(4)),
            (Some(3), Some(4)),
            (Some(1), Some(5)),
            (Some(3), Some(5)),
        ]
    );
}

#[test]
fn a_grid_that_no_text_gives_is_not_linked() {
    let mut parsed = parse(&square_grid()).unwrap();
    parsed.grid[1][1] = GridCell::Fillable { cell: 3 };
    assert_eq!(connect(parsed), Err(SetupError::Inconsistent));

    let mut linked_before = parse(&square_grid()).unwrap();
    linked_before.puzzle.clues[0].members.push(0);
    assert_eq!(connect(linked_before), Err(SetupError::Inconsistent));
}

#[test]
fn a_linked_graph_is_connected() {
    let puzzle = linked_square();
    assert!(is_connected(&puzzle));
    assert_eq!(check_graph(&puzzle), None);
    assert!(is_connected(&Puzzle { clues: vec![], cells: vec![] }));
}

#[test]
fn a_graph_whose_runs_and_cells_disagree_is_not_connected() {
    let good = linked_square();

    let mut foreign_member = good.clone();
    foreign_member.clues[0].members[1] = 3;
    assert!(!is_connected(&foreign_member));
    assert_eq!(check_graph(&foreign_member), Some(SetupError::Inconsistent));

    let mut unknown_member = good.clone();
    unknown_member.clues[0].members[1] = 4;
    assert_eq!(check_graph(&unknown_member), Some(SetupError::Inconsistent));

    let mut unknown_run = good.clone();
    unknown_run.cells[0].vertical = Some(4);
    assert_eq!(check_graph(&unknown_run), Some(SetupError::Inconsistent));

    let mut wrong_direction = good.clone();
    wrong_direction.cells[0].vertical = Some(2);
    assert_eq!(check_graph(&wrong_direction), Some(SetupError::Inconsistent));

    let mut wrong_index = good.clone();
    wrong_index.clues[2].index = 3;
    assert_eq!(check_graph(&wrong_index), Some(SetupError::Inconsistent));

    let mut wrong_cell_index = good.clone();
    wrong_cell_index.cells[2].index = 0;
    assert_eq!(check_graph(&wrong_cell_index), Some(SetupError::Inconsistent));

    let mut wrong_sum = good.clone();
    wrong_sum.clues[3].sum = 0;
    assert_eq!(check_graph(&wrong_sum), Some(SetupError::Inconsistent));

    let mut missing = good.clone();
    missing.cells[1].horizontal = None;
    assert!(!is_connected(&missing));
    assert_eq!(
        check_graph(&missing),
        Some(SetupError::MissingRun { cell: 1, axis: Axis::Horizontal })
    );

    let mut too_long = good;
    too_long.clues[3].members.push(0);
    assert!(!is_connected(&too_long));
    assert_eq!(check_graph(&too_long), Some(SetupError::RunLength { clue: 3 }));
}

#[test]
fn a_single_horizontal_run_leaves_its_cells_without_a_vertical_run() {
    assert_eq!(
        insert_puzzle_and_connect_parents_and_children(&puzzle_text(&["\\xx -\\11-2"])),
        Err(SetupError::MissingRun { cell: 0, axis: Axis::Vertical })
    );
}

#[test]
fn a_cell_without_a_horizontal_run_is_reported() {
    assert_eq!(
        insert_puzzle_and_connect_parents_and_children(&puzzle_text(&["\\ 4-1\\-", "x"])),
        Err(SetupError::MissingRun { cell: 0, axis: Axis::Horizontal })
    );
}

#[test]
fn a_cell_behind_a_blocked_position_is_in_no_run() {
    let text = puzzle_text(&["-\\ 4-1\\-", "\\x -\\4-1", "--", "-x"]);
    assert_eq!(
        insert_puzzle_and_connect_parents_and_children(&text),
        Err(SetupError::MissingRun { cell: 1, axis: Axis::Vertical })
    );
}

#[test]
fn a_run_longer_than_declared_is_reported() {
    let text = puzzle_text(&["-\\\\ 4-1\\- 6-2\\-", "\\xx -\\3-2", "\\xx -\\7-2"]);
    assert_eq!(
        insert_puzzle_and_connect_parents_and_children(&text),
        Err(SetupError::RunLength { clue: 0 })
    );
}

#[test]
fn a_run_shorter_than_declared_is_reported() {
    let text = puzzle_text(&["-\\\\ 4-2\\- 6-2\\-", "\\xx -\\3-2", "\\xx -\\7-3"]);
    assert_eq!(
        insert_puzzle_and_connect_parents_and_children(&text),
        Err(SetupError::RunLength { clue: 3 })
    );
}

#[test]
fn a_run_without_cells_is_reported() {
    let text = puzzle_text(&["\\- 4-1\\-"]);
    assert_eq!(
        insert_puzzle_and_connect_parents_and_children(&text),
        Err(SetupError::RunLength { clue: 0 })
    );
}

#[test]
fn a_cell_outside_a_run_comes_before_a_run_of_the_wrong_length() {
    let text = puzzle_text(&["\\xx -\\11-3"]);
    assert_eq!(
        insert_puzzle_and_connect_parents_and_children(&text),
        Err(SetupError::MissingRun { cell: 0, axis: Axis::Vertical })
    );
}

#[test]
fn a_malformed_text_is_reported_before_the_graph() {
    assert_eq!(
        insert_puzzle_and_connect_parents_and_children(&puzzle_text(&["\\xx -\\11-2", "x?x"])),
        Err(SetupError::PuzzleFormat { row: 1, column: 1 })
    );
}

#[test]
fn a_grid_without_cells_links() {
    let puzzle = insert_puzzle_and_connect_parents_and_children(&puzzle_text(&["--", "--"])).unwrap();
    assert_eq!(puzzle, Puzzle { clues: vec![], cells: vec![] });
    assert_eq!(
        insert_puzzle_and_connect_parents_and_children(b""),
        Ok(Puzzle { clues: vec![], cells: vec![] })
    );
}

#[test]
fn check_links_finds_nothing_in_a_linked_graph() {
    assert_eq!(check_links(&linked_square()), None);
}

#[test]
fn check_links_reports_the_first_fault() {
    let mut puzzle = linked_square();
    puzzle.clues[1].members.push(0);
    assert_eq!(check_links(&puzzle), Some(SetupError::RunLength { clue: 1 }));
    puzzle.cells[2].horizontal = None;
    puzzle.cells[3].vertical = None;
    assert_eq!(
        check_links(&puzzle),
        Some(SetupError::MissingRun { cell: 2, axis: Axis::Horizontal })
    );
}

#[test]
fn slots_are_read_from_grid_positions() {
    let marker = GridCell::Clue { vertical: Some(3), horizontal: None };
    assert_eq!(marker.read_slot(Axis::Vertical), Some(3));
    assert_eq!(marker.read_slot(Axis::Horizontal), None);
    assert_eq!(GridCell::Blocked.read_slot(Axis::Vertical), None);
    assert_eq!(GridCell::Fillable { cell: 1 }.read_slot(Axis::Horizontal), None);
}
