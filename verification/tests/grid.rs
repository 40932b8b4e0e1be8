use kakuro::grid::{is_well_formed, parse, read_clue_token};
use kakuro::model::{Axis, Cell, Clue, GridCell, SetupError, Signature};

fn grid_text(lines: &[&str]) -> Vec<u8> {
    lines.join("\n").into_bytes()
}

fn stub_clue(index: usize, row: usize, col: usize, axis: Axis, sum: u8, length: u8) -> Clue {
    Clue { index, row, col, axis, sum, length, members: vec![], combinations: vec![] }
}

fn stub_cell(index: usize, row: usize, col: usize) -> Cell {
    Cell {
        index,
        row,
        col,
        vertical: None,
        horizontal: None,
        siblings: vec![],
        value: 0,
        possible_values: vec![],
    }
}

#[test]
fn clue_tokens_name_the_vertical_run_first() {
    assert_eq!(
        read_clue_token(b"4-2\\16-3"),
        Some((Some(Signature { sum: 4, length: 2 }), Some(Signature { sum: 16, length: 3 })))
    );
    assert_eq!(read_clue_token(b"-\\11-2"), Some((None, Some(Signature { sum: 11, length: 2 }))));
    assert_eq!(read_clue_token(b"11-2\\-"), Some((Some(Signature { sum: 11, length: 2 }), None)));
    assert_eq!(read_clue_token(b"-\\-"), Some((None, None)));
}

#[test]
fn a_clue_token_without_a_backslash_names_no_horizontal_run() {
    assert_eq!(read_clue_token(b"11-2"), Some((Some(Signature { sum: 11, length: 2 }), None)));
    assert_eq!(read_clue_token(b"-"), Some((None, None)));
}

#[test]
fn malformed_clue_tokens_are_refused() {
    assert_eq!(read_clue_token(b""), None);
    assert_eq!(read_clue_token(b"\\11-2"), None);
    assert_eq!(read_clue_token(b"11-2\\"), None);
    assert_eq!(read_clue_token(b"4-2\\6-2\\7-2"), None);
    assert_eq!(read_clue_token(b"4-2\\6-2\\"), None);
    assert_eq!(read_clue_token(b"99-2\\-"), None);
    assert_eq!(read_clue_token(b"-\\4-0"), None);
    assert_eq!(read_clue_token(b"--\\-"), None);
}

#[test]
fn an_empty_text_is_an_empty_grid() {
    let parsed = parse(b"").unwrap();
    assert_eq!(parsed.grid, Vec::<Vec<GridCell>>::new());
    assert_eq!(parsed.puzzle.clues, vec![]);
    assert_eq!(parsed.puzzle.cells, vec![]);
}

#[test]
fn a_single_run_is_read() {
    let parsed = parse(&grid_text(&["\\xx -\\11-2"])).unwrap();
    assert_eq!(
        parsed.grid,
        vec![vec![
            GridCell::Clue { vertical: None, horizontal: Some(0) },
            GridCell::Fillable { cell: 0 },
            GridCell::Fillable { cell: 1 },
        ]]
    );
    assert_eq!(parsed.puzzle.clues, vec![stub_clue(0, 0, 0, Axis::Horizontal, 11, 2)]);
    assert_eq!(parsed.puzzle.cells, vec![stub_cell(0, 0, 1), stub_cell(1, 0, 2)]);
}

#[test]
fn runs_and_cells_are_numbered_in_reading_order() {
    let parsed = parse(&grid_text(&["-\\\\ 4-2\\- 6-2\\-", "\\xx -\\3-2", "\\xx -\\7-2"])).unwrap();
    assert_eq!(
        parsed.grid,
        vec![
            vec![
                GridCell::Blocked,
                GridCell::Clue { vertical: Some(0), horizontal: None },
                GridCell::Clue { vertical: Some(1), horizontal: None },
            ],
            vec![
                GridCell::Clue { vertical: None, horizontal: Some(2) },
                GridCell::Fillable { cell: 0 },
                GridCell::Fillable { cell: 1 },
            ],
            vec![
                GridCell::Clue { vertical: None, horizontal: Some(3) },
                GridCell::Fillable { cell: 2 },
                GridCell::Fillable { cell: 3 },
            ],
        ]
    );
    assert_eq!(
        parsed.puzzle.clues,
        vec![
            stub_clue(0, 0, 1, Axis::Vertical, 4, 2),
            stub_clue(1, 0, 2, Axis::Vertical, 6, 2),
            stub_clue(2, 1, 0, Axis::Horizontal, 3, 2),
            stub_clue(3, 2, 0, Axis::Horizontal, 7, 2),
        ]
    );
    assert_eq!(
        parsed.puzzle.cells,
        vec![stub_cell(0, 1, 1), stub_cell(1, 1, 2), stub_cell(2, 2, 1), stub_cell(3, 2, 2)]
    );
}

#[test]
fn one_marker_may_start_two_runs() {
    let parsed = parse(&grid_text(&["\\x 4-1\\5-1", "x-"])).unwrap();
    assert_eq!(
        parsed.grid[0],
        vec![GridCell::Clue { vertical: Some(0), horizontal: Some(1) }, GridCell::Fillable { cell: 0 }]
    );
    assert_eq!(
        parsed.puzzle.clues,
        vec![stub_clue(0, 0, 0, Axis::Vertical, 4, 1), stub_clue(1, 0, 0, Axis::Horizontal, 5, 1)]
    );
}

#[test]
fn a_marker_may_start_no_run() {
    let parsed = parse(&grid_text(&["\\- -\\-"])).unwrap();
    assert_eq!(
        parsed.grid,
        vec![vec![GridCell::Clue { vertical: None, horizontal: None }, GridCell::Blocked]]
    );
    assert_eq!(parsed.puzzle.clues, vec![]);
}

#[test]
fn auxiliary_tokens_beyond_the_markers_are_ignored() {
    let parsed = parse(&grid_text(&["\\xx -\\11-2 anything else"])).unwrap();
    assert_eq!(parsed.puzzle.clues, vec![stub_clue(0, 0, 0, Axis::Horizontal, 11, 2)]);
    assert_eq!(parsed.grid[0].len(), 3);
}

#[test]
fn blanks_around_tokens_do_not_matter() {
    let plain = parse(&grid_text(&["\\xx -\\11-2", "---"])).unwrap();
    let spaced = parse(b"  \\xx \t -\\11-2 \r\n---\r\n").unwrap();
    assert_eq!(plain, spaced);
}

#[test]
fn an_unknown_mark_is_reported_with_its_place() {
    assert_eq!(
        parse(&grid_text(&["---", "-?-"])),
        Err(SetupError::PuzzleFormat { row: 1, column: 1 })
    );
    assert_eq!(parse(&grid_text(&["X"])), Err(SetupError::PuzzleFormat { row: 0, column: 0 }));
}

#[test]
fn a_marker_without_its_token_is_reported() {
    assert_eq!(
        parse(&grid_text(&["\\x\\x -\\4-1"])),
        Err(SetupError::PuzzleFormat { row: 0, column: 2 })
    );
    assert_eq!(parse(&grid_text(&["-\\"])), Err(SetupError::PuzzleFormat { row: 0, column: 1 }));
}

#[test]
fn an_unreadable_sum_or_length_is_reported() {
    assert_eq!(
        parse(&grid_text(&["--", "\\x -\\4x-1"])),
        Err(SetupError::PuzzleFormat { row: 1, column: 0 })
    );
    assert_eq!(
        parse(&grid_text(&["-\\x -\\46-1"])),
        Err(SetupError::PuzzleFormat { row: 0, column: 1 })
    );
    assert_eq!(
        parse(&grid_text(&["\\x 4"])),
        Err(SetupError::PuzzleFormat { row: 0, column: 0 })
    );
}

#[test]
fn a_short_row_is_reported_at_its_end() {
    assert_eq!(
        parse(&grid_text(&["----", "--"])),
        Err(SetupError::PuzzleFormat { row: 1, column: 2 })
    );
}

#[test]
fn a_long_row_is_reported_at_the_width() {
    assert_eq!(
        parse(&grid_text(&["--", "--", "---x"])),
        Err(SetupError::PuzzleFormat { row: 2, column: 2 })
    );
}

#[test]
fn a_line_without_tokens_is_reported() {
    assert_eq!(
        parse(&grid_text(&["--", "", "--"])),
        Err(SetupError::PuzzleFormat { row: 1, column: 0 })
    );
    assert_eq!(parse(b"--\n--\n\n"), Err(SetupError::PuzzleFormat { row: 2, column: 0 }));
    assert_eq!(parse(b"   "), Err(SetupError::PuzzleFormat { row: 0, column: 0 }));
}

#[test]
fn the_first_malformed_row_decides() {
    assert_eq!(
        parse(&grid_text(&["--", "-?", "?"])),
        Err(SetupError::PuzzleFormat { row: 1, column: 1 })
    );
}

#[test]
fn a_mark_that_cannot_be_read_comes_before_the_width() {
    assert_eq!(
        parse(&grid_text(&["--", "---?"])),
        Err(SetupError::PuzzleFormat { row: 1, column: 3 })
    );
}

#[test]
fn what_a_text_gives_is_well_formed() {
    let parsed = parse(&grid_text(&["-\\\\ 4-2\\- 6-2\\-", "\\xx -\\3-2", "\\xx -\\7-2"])).unwrap();
    assert!(is_well_formed(&parsed));
    assert!(is_well_formed(&parse(b"").unwrap()));
}

#[test]
fn a_grid_that_disagrees_with_its_lists_is_not_well_formed() {
    let good = parse(&grid_text(&["-\\\\ 4-2\\- 6-2\\-", "\\xx -\\3-2", "\\xx -\\7-2"])).unwrap();

    let mut ragged = good.clone();
    ragged.grid[2].push(GridCell::Blocked);
    assert!(!is_well_formed(&ragged));

    let mut unknown_cell = good.clone();
    unknown_cell.grid[1][1] = GridCell::Fillable { cell: 9 };
    assert!(!is_well_formed(&unknown_cell));

    let mut cell_twice = good.clone();
    cell_twice.grid[1][2] = GridCell::Fillable { cell: 0 };
    assert!(!is_well_formed(&cell_twice));

    let mut unknown_run = good.clone();
    unknown_run.grid[0][0] = GridCell::Clue { vertical: Some(7), horizontal: None };
    assert!(!is_well_formed(&unknown_run));

    let mut run_twice = good.clone();
    run_twice.grid[0][0] = GridCell::Clue { vertical: Some(0), horizontal: None };
    assert!(!is_well_formed(&run_twice));

    let mut wrong_direction = good.clone();
    wrong_direction.puzzle.clues[0].axis = Axis::Horizontal;
    assert!(!is_well_formed(&wrong_direction));

    let mut missing_cell = good.clone();
    missing_cell.grid[2][2] = GridCell::Blocked;
    assert!(!is_well_formed(&missing_cell));

    let mut missing_run = good.clone();
    missing_run.grid[2][0] = GridCell::Blocked;
    assert!(!is_well_formed(&missing_run));

    let mut wrong_index = good.clone();
    wrong_index.puzzle.cells[1].index = 2;
    assert!(!is_well_formed(&wrong_index));

    let mut wrong_sum = good.clone();
    wrong_sum.puzzle.clues[1].sum = 46;
    assert!(!is_well_formed(&wrong_sum));

    let mut linked = good.clone();
    linked.puzzle.clues[0].members.push(0);
    assert!(!is_well_formed(&linked));

    let mut with_parent = good.clone();
    with_parent.puzzle.cells[0].vertical = Some(0);
    assert!(!is_well_formed(&with_parent));

    let mut with_value = good.clone();
    with_value.puzzle.cells[3].value = 5;
    assert!(!is_well_formed(&with_value));

    let mut with_combination = good.clone();
    with_combination.puzzle.clues[2].combinations.push(vec![1, 2]);
    assert!(!is_well_formed(&with_combination));

    let mut extra_cell = good;
    extra_cell.puzzle.cells.push(stub_cell(4, 1, 1));
    assert!(!is_well_formed(&extra_cell));
}
