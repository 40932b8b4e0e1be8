//! Reading a puzzle text into a grid with the runs and cells found in it.
//!
//! Each line holds a row token, one byte per column (`-` blocked, `\` clue
//! marker, `x` fillable), followed by one auxiliary token per clue marker of
//! the row. An auxiliary token names the run below the marker and, behind a
//! backslash, the run to its right; `-` stands for no run.

use crate::model::{
    cells_view, clues_view, nested_view, Axis, Cell, CellView, Clue, ClueView, GridCell,
    ParsedPuzzle, ParsedView, Puzzle, PuzzleView, SetupError, Signature,
};
use crate::text::{
    lemma_signature_of_bytes, lines, parse_signature, scan, signature_of, span_end, split_lines,
    split_tokens, tokens, ByteClass, BACKSLASH, FILLABLE, HYPHEN,
};
use vstd::prelude::*;
use vstd::slice::slice_subrange;

verus! {

/// What one part of an auxiliary token declares: no run, or the signature of
/// a run. `None` where the part is neither.
pub open spec fn run_part(part: Seq<u8>) -> Option<Option<Signature>> {
    if part.len() == 1 && part[0] == HYPHEN {
        Some(None)
    } else {
        match signature_of(part) {
            Some(sig) => Some(Some(sig)),
            None => None,
        }
    }
}

/// What an auxiliary token declares: the vertical run, then the horizontal
/// one. The part behind the first backslash is the horizontal run; a token
/// without a backslash declares none.
pub open spec fn clue_token(token: Seq<u8>) -> Option<(Option<Signature>, Option<Signature>)> {
    let sep = span_end(token, 0, ByteClass::InPart);
    let first = run_part(token.subrange(0, sep));
    let second = if sep < token.len() {
        run_part(token.subrange(sep + 1, token.len() as int))
    } else {
        Some(None)
    };
    match (first, second) {
        (Some(vertical), Some(horizontal)) => Some((vertical, horizontal)),
        _ => None,
    }
}

/// A run as it is first recorded: without cells and without combinations.
pub open spec fn new_clue(index: usize, row: usize, col: usize, axis: Axis, sig: Signature)
    -> ClueView {
    ClueView {
        index,
        row,
        col,
        axis,
        sum: sig.sum,
        length: sig.length,
        members: Seq::empty(),
        combinations: Seq::empty(),
    }
}

/// A cell as it is first recorded: in no run, without siblings, value or
/// candidates.
pub open spec fn new_cell(index: usize, row: usize, col: usize) -> CellView {
    CellView {
        index,
        row,
        col,
        vertical: None,
        horizontal: None,
        siblings: Seq::empty(),
        value: 0,
        possible_values: Seq::empty(),
    }
}

/// The runs and cells of `p`, and behind them the run that a clue marker at
/// (`row`, `col`) declares along `axis`, if it declares one.
pub open spec fn with_run(p: PuzzleView, row: usize, col: usize, axis: Axis, sig: Option<Signature>)
    -> PuzzleView {
    match sig {
        Some(s) => PuzzleView {
            clues: p.clues.push(new_clue(p.clues.len() as usize, row, col, axis, s)),
            cells: p.cells,
        },
        None => p,
    }
}

/// The index that `with_run` gives the declared run.
pub open spec fn run_slot(p: PuzzleView, sig: Option<Signature>) -> Option<usize> {
    match sig {
        Some(_) => Some(p.clues.len() as usize),
        None => None,
    }
}

/// How far a row has been read.
pub struct RowScan {
    /// The positions read, left to right.
    pub cells: Seq<GridCell>,
    /// The runs and cells found so far, those of the rows above included.
    pub puzzle: PuzzleView,
    /// The number of auxiliary tokens consumed.
    pub used: nat,
}

/// The scan after the byte `b` of the row token in row `row`; `tokens` are
/// the tokens of the line, the row token first. `None` where `b` is none of
/// the three marks, or is a clue marker whose auxiliary token is missing or
/// malformed.
pub open spec fn scan_position(st: RowScan, row: usize, b: u8, tokens: Seq<Seq<u8>>) -> Option<
    RowScan,
> {
    let col = st.cells.len() as usize;
    if b == HYPHEN {
        Some(RowScan { cells: st.cells.push(GridCell::Blocked), puzzle: st.puzzle, used: st.used })
    } else if b == FILLABLE {
        let cell = st.puzzle.cells.len() as usize;
        Some(
            RowScan {
                cells: st.cells.push(GridCell::Fillable { cell }),
                puzzle: PuzzleView {
                    clues: st.puzzle.clues,
                    cells: st.puzzle.cells.push(new_cell(cell, row, col)),
                },
                used: st.used,
            },
        )
    } else if b == BACKSLASH && st.used + 1 < tokens.len() {
        match clue_token(tokens[st.used as int + 1]) {
            Some((vertical, horizontal)) => {
                let below = with_run(st.puzzle, row, col, Axis::Vertical, vertical);
                let beside = with_run(below, row, col, Axis::Horizontal, horizontal);
                Some(
                    RowScan {
                        cells: st.cells.push(
                            GridCell::Clue {
                                vertical: run_slot(st.puzzle, vertical),
                                horizontal: run_slot(below, horizontal),
                            },
                        ),
                        puzzle: beside,
                        used: st.used + 1,
                    },
                )
            },
            None => None,
        }
    } else {
        None
    }
}

/// The scan at the end of the row token, or the first column that cannot be
/// read.
pub open spec fn scan_row(st: RowScan, row: usize, tokens: Seq<Seq<u8>>) -> Result<
    RowScan,
    SetupError,
>
    recommends
        tokens.len() > 0,
    decreases tokens[0].len() - st.cells.len(),
{
    let col = st.cells.len();
    if col >= tokens[0].len() {
        Ok(st)
    } else {
        match scan_position(st, row, tokens[0][col as int], tokens) {
            Some(next) => scan_row(next, row, tokens),
            None => Err(SetupError::PuzzleFormat { row, column: col as usize }),
        }
    }
}

/// The grid and its runs and cells after one more line. The line fails where
/// it holds no token, at the first column that cannot be read, or, where its
/// row token has another length than the first row, at the first column in
/// which they differ.
pub open spec fn with_line(p: ParsedView, line: Seq<u8>) -> Result<ParsedView, SetupError> {
    let row = p.grid.len() as usize;
    let t = tokens(line);
    if t.len() == 0 {
        Err(SetupError::PuzzleFormat { row, column: 0 })
    } else {
        match scan_row(RowScan { cells: Seq::empty(), puzzle: p.puzzle, used: 0 }, row, t) {
            Err(e) => Err(e),
            Ok(st) => if p.grid.len() > 0 && st.cells.len() != p.grid[0].len() {
                let width = p.grid[0].len();
                Err(
                    SetupError::PuzzleFormat {
                        row,
                        column: (if st.cells.len() < width {
                            st.cells.len()
                        } else {
                            width
                        }) as usize,
                    },
                )
            } else {
                Ok(ParsedView { grid: p.grid.push(st.cells), puzzle: st.puzzle })
            },
        }
    }
}

/// The grid and its runs and cells after the lines that `p` has not yet
/// taken in; the first line that fails decides.
pub open spec fn with_lines(p: ParsedView, all: Seq<Seq<u8>>) -> Result<ParsedView, SetupError>
    decreases all.len() - p.grid.len(),
{
    if p.grid.len() >= all.len() {
        Ok(p)
    } else {
        match with_line(p, all[p.grid.len() as int]) {
            Err(e) => Err(e),
            Ok(next) => with_lines(next, all),
        }
    }
}

/// A grid without rows.
pub open spec fn empty_grid() -> ParsedView {
    ParsedView {
        grid: Seq::empty(),
        puzzle: PuzzleView { clues: Seq::empty(), cells: Seq::empty() },
    }
}

/// What a puzzle text holds.
pub open spec fn parsed(text: Seq<u8>) -> Result<ParsedView, SetupError> {
    with_lines(empty_grid(), lines(text))
}

/// A clue marker's slot names a run that is recorded at that place and in
/// that direction.
pub open spec fn slot_agrees(slot: Option<usize>, axis: Axis, r: int, c: int, p: PuzzleView)
    -> bool {
    match slot {
        Some(k) => k < p.clues.len() && p.clues[k as int].row == r && p.clues[k as int].col == c
            && p.clues[k as int].axis == axis,
        None => true,
    }
}

/// What the grid holds at (`r`, `c`) is recorded at that place.
pub open spec fn position_agrees(g: GridCell, r: int, c: int, p: PuzzleView) -> bool {
    match g {
        GridCell::Blocked => true,
        GridCell::Fillable { cell } => cell < p.cells.len() && p.cells[cell as int].row == r
            && p.cells[cell as int].col == c,
        GridCell::Clue { vertical, horizontal } => slot_agrees(vertical, Axis::Vertical, r, c, p)
            && slot_agrees(horizontal, Axis::Horizontal, r, c, p),
    }
}

/// The cell of index `j` knows its index, and the grid holds it where it
/// says it is.
pub open spec fn cell_sited(grid: Seq<Seq<GridCell>>, cell: CellView, j: int) -> bool {
    &&& cell.index == j
    &&& cell.row < grid.len()
    &&& cell.col < grid[cell.row as int].len()
    &&& grid[cell.row as int][cell.col as int] == GridCell::Fillable { cell: j as usize }
}

/// The run of index `k` knows its index, the grid holds its marker where it
/// says it is, and its declared signature is valid.
pub open spec fn clue_sited(grid: Seq<Seq<GridCell>>, clue: ClueView, k: int) -> bool {
    &&& clue.index == k
    &&& clue.row < grid.len()
    &&& clue.col < grid[clue.row as int].len()
    &&& grid[clue.row as int][clue.col as int].slot(clue.axis) == Some(k as usize)
    &&& clue.declared().valid()
}

/// The grid and the lists of runs and cells describe each other.
pub open spec fn sites_agree(grid: Seq<Seq<GridCell>>, p: PuzzleView) -> bool {
    &&& forall|r: int, c: int|
        0 <= r < grid.len() && 0 <= c < grid[r].len() ==> position_agrees(
            #[trigger] grid[r][c],
            r,
            c,
            p,
        )
    &&& forall|j: int| 0 <= j < p.cells.len() ==> cell_sited(grid, #[trigger] p.cells[j], j)
    &&& forall|k: int| 0 <= k < p.clues.len() ==> clue_sited(grid, #[trigger] p.clues[k], k)
}

/// Every row is as long as the first.
pub open spec fn rectangular(grid: Seq<Seq<GridCell>>) -> bool {
    forall|r: int| 0 <= r < grid.len() ==> (#[trigger] grid[r]).len() == grid[0].len()
}

/// No run has cells or combinations yet, and no cell has runs, siblings, a
/// value or candidates.
pub open spec fn unlinked(p: PuzzleView) -> bool {
    &&& forall|k: int|
        0 <= k < p.clues.len() ==> (#[trigger] p.clues[k]).members.len() == 0
            && p.clues[k].combinations.len() == 0
    &&& forall|j: int|
        0 <= j < p.cells.len() ==> #[trigger] p.cells[j] == new_cell(
            p.cells[j].index,
            p.cells[j].row,
            p.cells[j].col,
        )
}

impl ParsedView {
    /// What holds of every grid that was read from a text.
    pub open spec fn well_formed(self) -> bool {
        &&& rectangular(self.grid)
        &&& sites_agree(self.grid, self.puzzle)
        &&& unlinked(self.puzzle)
    }
}

/// What holds while a row is being read: the rows above form a rectangle,
/// and the grid with the part of the row read so far agrees with the runs
/// and cells found.
spec fn in_progress(grid: Seq<Seq<GridCell>>, st: RowScan) -> bool {
    &&& rectangular(grid)
    &&& sites_agree(grid.push(st.cells), st.puzzle)
    &&& unlinked(st.puzzle)
}

proof fn lemma_scan_position_keeps(
    grid: Seq<Seq<GridCell>>,
    st: RowScan,
    row: usize,
    b: u8,
    tokens: Seq<Seq<u8>>,
    next: RowScan,
)
    requires
        row == grid.len(),
        in_progress(grid, st),
        scan_position(st, row, b, tokens) == Some(next),
        next.cells.len() <= usize::MAX,
        next.puzzle.cells.len() <= usize::MAX,
        next.puzzle.clues.len() <= usize::MAX,
    ensures
        in_progress(grid, next),
{
    let before = grid.push(st.cells);
    let after = grid.push(next.cells);
    let col = st.cells.len() as int;
    assert(next.cells.len() == col + 1);
    assert(forall|c: int| 0 <= c < col ==> next.cells[c] == st.cells[c]);
    assert forall|r: int, c: int| 0 <= r < before.len() && 0 <= c < before[r].len() implies after[r][c]
        == before[r][c] by {}
    assert(forall|k: int| 0 <= k < st.puzzle.clues.len() ==> next.puzzle.clues[k] == st.puzzle.clues[k]);
    assert(forall|j: int| 0 <= j < st.puzzle.cells.len() ==> next.puzzle.cells[j] == st.puzzle.cells[j]);
    if b == BACKSLASH {
        lemma_clue_token_valid(tokens[st.used as int + 1]);
    }
    assert forall|r: int, c: int| 0 <= r < after.len() && 0 <= c < after[r].len() implies position_agrees(
        #[trigger] after[r][c],
        r,
        c,
        next.puzzle,
    ) by {
        if r < row || c < col {
            assert(position_agrees(before[r][c], r, c, st.puzzle));
        }
    }
    assert forall|j: int| 0 <= j < next.puzzle.cells.len() implies cell_sited(
        after,
        #[trigger] next.puzzle.cells[j],
        j,
    ) by {
        if j < st.puzzle.cells.len() {
            assert(cell_sited(before, st.puzzle.cells[j], j));
        }
    }
    assert forall|k: int| 0 <= k < next.puzzle.clues.len() implies clue_sited(
        after,
        #[trigger] next.puzzle.clues[k],
        k,
    ) by {
        if k < st.puzzle.clues.len() {
            assert(clue_sited(before, st.puzzle.clues[k], k));
        }
    }
}

/// Before the first position of a row is read, the grid above and the empty
/// row agree with the runs and cells found so far.
proof fn lemma_row_starts(p: ParsedView)
    requires
        p.well_formed(),
    ensures
        in_progress(p.grid, RowScan { cells: Seq::empty(), puzzle: p.puzzle, used: 0 }),
{
    let with_row = p.grid.push(Seq::empty());
    assert forall|r: int, c: int|
        0 <= r < with_row.len() && 0 <= c < with_row[r].len() implies position_agrees(
        #[trigger] with_row[r][c],
        r,
        c,
        p.puzzle,
    ) by {
        assert(position_agrees(p.grid[r][c], r, c, p.puzzle));
    }
    assert forall|j: int| 0 <= j < p.puzzle.cells.len() implies cell_sited(
        with_row,
        #[trigger] p.puzzle.cells[j],
        j,
    ) by {
        assert(cell_sited(p.grid, p.puzzle.cells[j], j));
    }
    assert forall|k: int| 0 <= k < p.puzzle.clues.len() implies clue_sited(
        with_row,
        #[trigger] p.puzzle.clues[k],
        k,
    ) by {
        assert(clue_sited(p.grid, p.puzzle.clues[k], k));
    }
}

/// The runs that an auxiliary token declares have valid signatures.
pub proof fn lemma_clue_token_valid(token: Seq<u8>)
    ensures
        match clue_token(token) {
            Some((vertical, horizontal)) => (vertical matches Some(v) ==> v.valid()) && (
            horizontal matches Some(h) ==> h.valid()),
            None => true,
        },
{
    let sep = span_end(token, 0, ByteClass::InPart);
    lemma_signature_of_bytes(token.subrange(0, sep));
    if sep < token.len() {
        lemma_signature_of_bytes(token.subrange(sep + 1, token.len() as int));
    }
}

/// The scan that the executable state stands for.
spec fn scan_view(row_cells: Seq<GridCell>, clues: Seq<Clue>, cells: Seq<Cell>, used: usize)
    -> RowScan {
    RowScan {
        cells: row_cells,
        puzzle: PuzzleView { clues: clues_view(clues), cells: cells_view(cells) },
        used: used as nat,
    }
}

fn read_run_part(part: &[u8]) -> (r: Option<Option<Signature>>)
    ensures
        r == run_part(part@),
{
    if part.len() == 1 && part[0] == HYPHEN {
        Some(None)
    } else {
        match parse_signature(part) {
            Some(sig) => Some(Some(sig)),
            None => None,
        }
    }
}

/// Reads the auxiliary token of a clue marker.
pub fn read_clue_token(token: &[u8]) -> (r: Option<(Option<Signature>, Option<Signature>)>)
    ensures
        r == clue_token(token@),
{
    let sep = scan(token, 0, ByteClass::InPart);
    let first = read_run_part(slice_subrange(token, 0, sep));
    let second = if sep < token.len() {
        read_run_part(slice_subrange(token, sep + 1, token.len()))
    } else {
        Some(None)
    };
    match (first, second) {
        (Some(vertical), Some(horizontal)) => Some((vertical, horizontal)),
        _ => None,
    }
}

fn push_run(clues: &mut Vec<Clue>, row: usize, col: usize, axis: Axis, sig: Option<Signature>) -> (slot:
    Option<usize>)
    ensures
        clues_view(final(clues)@) == with_run(
            PuzzleView { clues: clues_view(old(clues)@), cells: Seq::empty() },
            row,
            col,
            axis,
            sig,
        ).clues,
        slot == run_slot(PuzzleView { clues: clues_view(old(clues)@), cells: Seq::empty() }, sig),
{
    match sig {
        Some(s) => {
            let index = clues.len();
            let clue = Clue {
                index,
                row,
                col,
                axis,
                sum: s.sum,
                length: s.length,
                members: Vec::new(),
                combinations: Vec::new(),
            };
            proof {
                assert(clue@.combinations =~= Seq::<Seq<u8>>::empty());
                assert(clue@ == new_clue(index, row, col, axis, s));
                assert(clues_view(clues@.push(clue)) =~= clues_view(clues@).push(clue@));
            }
            clues.push(clue);
            Some(index)
        },
        None => None,
    }
}

/// Takes one more line into the grid.
fn take_line(parsed: ParsedPuzzle, line: &[u8]) -> (r: Result<ParsedPuzzle, SetupError>)
    requires
        parsed@.well_formed(),
    ensures
        match with_line(parsed@, line@) {
            Ok(v) => r matches Ok(p) && p@ == v && v.well_formed(),
            Err(e) => r == Err::<ParsedPuzzle, SetupError>(e),
        },
{
    let toks = split_tokens(line);
    let ParsedPuzzle { grid, puzzle } = parsed;
    let Puzzle { clues, cells } = puzzle;
    let mut grid = grid;
    let mut clues = clues;
    let mut cells = cells;
    let row = grid.len();
    if toks.len() == 0 {
        return Err(SetupError::PuzzleFormat { row, column: 0 });
    }
    let ghost all = nested_view(toks@);
    let ghost above = nested_view(grid@);
    let ghost start = RowScan { cells: Seq::empty(), puzzle: parsed@.puzzle, used: 0 };
    let mut row_cells: Vec<GridCell> = Vec::new();
    let mut used: usize = 0;
    proof {
        lemma_row_starts(parsed@);
    }
    while row_cells.len() < toks[0].len()
        invariant
            toks@.len() > 0,
            all == nested_view(toks@),
            all == tokens(line@),
            above == nested_view(grid@),
            above == parsed@.grid,
            start == (RowScan { cells: Seq::empty(), puzzle: parsed@.puzzle, used: 0 }),
            row == grid@.len(),
            used <= row_cells@.len() <= toks@[0]@.len(),
            in_progress(above, scan_view(row_cells@, clues@, cells@, used)),
            scan_row(scan_view(row_cells@, clues@, cells@, used), row, all) == scan_row(
                start,
                row,
                all,
            ),
        decreases toks@[0]@.len() - row_cells@.len(),
    {
        let col = row_cells.len();
        let b = toks[0][col];
        let ghost st = scan_view(row_cells@, clues@, cells@, used);
        assert(all[0][col as int] == b);
        if b == HYPHEN {
            row_cells.push(GridCell::Blocked);
        } else if b == FILLABLE {
            let index = cells.len();
            let cell = Cell {
                index,
                row,
                col,
                vertical: None,
                horizontal: None,
                siblings: Vec::new(),
                value: 0,
                possible_values: Vec::new(),
            };
            proof {
                assert(cell@ == new_cell(index, row, col));
                assert(cells_view(cells@.push(cell)) =~= cells_view(cells@).push(cell@));
            }
            cells.push(cell);
            row_cells.push(GridCell::Fillable { cell: index });
        } else if b == BACKSLASH && used + 1 < toks.len() {
            match read_clue_token(toks[used + 1].as_slice()) {
                Some((vertical, horizontal)) => {
                    let below = push_run(&mut clues, row, col, Axis::Vertical, vertical);
                    let beside = push_run(&mut clues, row, col, Axis::Horizontal, horizontal);
                    row_cells.push(GridCell::Clue { vertical: below, horizontal: beside });
                    used = used + 1;
                },
                None => {
                    assert(scan_position(st, row, b, all) is None);
                    return Err(SetupError::PuzzleFormat { row, column: col });
                },
            }
        } else {
            assert(scan_position(st, row, b, all) is None);
            return Err(SetupError::PuzzleFormat { row, column: col });
        }
        proof {
            let next = scan_view(row_cells@, clues@, cells@, used);
            assert(next.puzzle.cells.len() == cells.len());
            assert(next.puzzle.clues.len() == clues.len());
            assert(scan_position(st, row, b, all) == Some(next));
            lemma_scan_position_keeps(above, st, row, b, all, next);
        }
    }
    if grid.len() > 0 && row_cells.len() != grid[0].len() {
        let width = grid[0].len();
        let column = if row_cells.len() < width {
            row_cells.len()
        } else {
            width
        };
        return Err(SetupError::PuzzleFormat { row, column });
    }
    proof {
        assert(nested_view(grid@.push(row_cells)) =~= above.push(row_cells@));
    }
    grid.push(row_cells);
    Ok(ParsedPuzzle { grid, puzzle: Puzzle { clues, cells } })
}

/// Reads a puzzle text.
///
/// The result is the grid with one row per line, and the runs and cells in
/// the order in which the text names them. The first line that cannot be
/// read decides the error, which names the row and the column.
pub fn parse(text: &[u8]) -> (r: Result<ParsedPuzzle, SetupError>)
    ensures
        match parsed(text@) {
            Ok(v) => r matches Ok(p) && p@ == v && v.well_formed(),
            Err(e) => r == Err::<ParsedPuzzle, SetupError>(e),
        },
{
    let all = split_lines(text);
    let mut grid_so_far = ParsedPuzzle {
        grid: Vec::new(),
        puzzle: Puzzle { clues: Vec::new(), cells: Vec::new() },
    };
    proof {
        assert(grid_so_far@.grid =~= empty_grid().grid);
        assert(grid_so_far@.puzzle.clues =~= empty_grid().puzzle.clues);
        assert(grid_so_far@.puzzle.cells =~= empty_grid().puzzle.cells);
    }
    let mut i: usize = 0;
    while i < all.len()
        invariant
            i == grid_so_far@.grid.len(),
            i <= all@.len(),
            nested_view(all@) == lines(text@),
            grid_so_far@.well_formed(),
            with_lines(grid_so_far@, lines(text@)) == parsed(text@),
        decreases all@.len() - i,
    {
        match take_line(grid_so_far, all[i].as_slice()) {
            Ok(next) => {
                grid_so_far = next;
            },
            Err(e) => {
                return Err(e);
            },
        }
        i = i + 1;
    }
    Ok(grid_so_far)
}

fn is_rectangular(grid: &Vec<Vec<GridCell>>) -> (r: bool)
    ensures
        r == rectangular(nested_view(grid@)),
{
    let ghost g = nested_view(grid@);
    let mut i: usize = 0;
    while i < grid.len()
        invariant
            i <= grid@.len(),
            g == nested_view(grid@),
            forall|a: int| 0 <= a < i ==> (#[trigger] g[a]).len() == g[0].len(),
        decreases grid@.len() - i,
    {
        if grid[i].len() != grid[0].len() {
            assert(g[i as int].len() != g[0].len());
            return false;
        }
        i = i + 1;
    }
    true
}

fn slot_is_recorded(slot: Option<usize>, axis: Axis, r: usize, c: usize, puzzle: &Puzzle) -> (ok:
    bool)
    ensures
        ok == slot_agrees(slot, axis, r as int, c as int, puzzle@),
{
    match slot {
        Some(k) => {
            if k < puzzle.clues.len() {
                assert(puzzle@.clues[k as int] == puzzle.clues@[k as int]@);
                puzzle.clues[k].row == r && puzzle.clues[k].col == c && puzzle.clues[k].axis == axis
            } else {
                false
            }
        },
        None => true,
    }
}

fn position_is_recorded(g: GridCell, r: usize, c: usize, puzzle: &Puzzle) -> (ok: bool)
    ensures
        ok == position_agrees(g, r as int, c as int, puzzle@),
{
    match g {
        GridCell::Blocked => true,
        GridCell::Fillable { cell } => {
            if cell < puzzle.cells.len() {
                assert(puzzle@.cells[cell as int] == puzzle.cells@[cell as int]@);
                puzzle.cells[cell].row == r && puzzle.cells[cell].col == c
            } else {
                false
            }
        },
        GridCell::Clue { vertical, horizontal } => slot_is_recorded(
            vertical,
            Axis::Vertical,
            r,
            c,
            puzzle,
        ) && slot_is_recorded(horizontal, Axis::Horizontal, r, c, puzzle),
    }
}

fn positions_are_recorded(grid: &Vec<Vec<GridCell>>, puzzle: &Puzzle) -> (ok: bool)
    ensures
        ok == (forall|r: int, c: int|
            0 <= r < nested_view(grid@).len() && 0 <= c < nested_view(grid@)[r].len()
                ==> position_agrees(#[trigger] nested_view(grid@)[r][c], r, c, puzzle@)),
{
    let ghost g = nested_view(grid@);
    let mut r: usize = 0;
    while r < grid.len()
        invariant
            r <= grid@.len(),
            g == nested_view(grid@),
            forall|a: int, b: int|
                0 <= a < r && 0 <= b < g[a].len() ==> position_agrees(
                    #[trigger] g[a][b],
                    a,
                    b,
                    puzzle@,
                ),
        decreases grid@.len() - r,
    {
        let mut c: usize = 0;
        while c < grid[r].len()
            invariant
                r < grid@.len(),
                c <= grid@[r as int]@.len(),
                g == nested_view(grid@),
                forall|a: int, b: int|
                    0 <= a < r && 0 <= b < g[a].len() ==> position_agrees(
                        #[trigger] g[a][b],
                        a,
                        b,
                        puzzle@,
                    ),
                forall|b: int|
                    0 <= b < c ==> position_agrees(#[trigger] g[r as int][b], r as int, b, puzzle@),
            decreases grid@[r as int]@.len() - c,
        {
            if !position_is_recorded(grid[r][c], r, c, puzzle) {
                assert(!position_agrees(g[r as int][c as int], r as int, c as int, puzzle@));
                return false;
            }
            c = c + 1;
        }
        r = r + 1;
    }
    true
}

fn cells_are_sited(grid: &Vec<Vec<GridCell>>, puzzle: &Puzzle) -> (ok: bool)
    ensures
        ok == (forall|j: int|
            0 <= j < puzzle@.cells.len() ==> cell_sited(
                nested_view(grid@),
                #[trigger] puzzle@.cells[j],
                j,
            )),
{
    let ghost g = nested_view(grid@);
    let mut j: usize = 0;
    while j < puzzle.cells.len()
        invariant
            j <= puzzle.cells@.len(),
            g == nested_view(grid@),
            forall|a: int| 0 <= a < j ==> cell_sited(g, #[trigger] puzzle@.cells[a], a),
        decreases puzzle.cells@.len() - j,
    {
        assert(puzzle@.cells[j as int] == puzzle.cells@[j as int]@);
        let row = puzzle.cells[j].row;
        let col = puzzle.cells[j].col;
        let sited = puzzle.cells[j].index == j && row < grid.len() && col < grid[row].len() && (
        match grid[row][col] {
            GridCell::Fillable { cell } => cell == j,
            _ => false,
        });
        if !sited {
            assert(!cell_sited(g, puzzle@.cells[j as int], j as int));
            return false;
        }
        j = j + 1;
    }
    true
}

fn clues_are_sited(grid: &Vec<Vec<GridCell>>, puzzle: &Puzzle) -> (ok: bool)
    ensures
        ok == (forall|k: int|
            0 <= k < puzzle@.clues.len() ==> clue_sited(
                nested_view(grid@),
                #[trigger] puzzle@.clues[k],
                k,
            )),
{
    let ghost g = nested_view(grid@);
    let mut k: usize = 0;
    while k < puzzle.clues.len()
        invariant
            k <= puzzle.clues@.len(),
            g == nested_view(grid@),
            forall|a: int| 0 <= a < k ==> clue_sited(g, #[trigger] puzzle@.clues[a], a),
        decreases puzzle.clues@.len() - k,
    {
        assert(puzzle@.clues[k as int] == puzzle.clues@[k as int]@);
        let row = puzzle.clues[k].row;
        let col = puzzle.clues[k].col;
        let declared = Signature { sum: puzzle.clues[k].sum, length: puzzle.clues[k].length };
        let sited = puzzle.clues[k].index == k && row < grid.len() && col < grid[row].len() && (
        match grid[row][col].read_slot(puzzle.clues[k].axis) {
            Some(slot) => slot == k,
            None => false,
        }) && declared.is_valid();
        if !sited {
            assert(!clue_sited(g, puzzle@.clues[k as int], k as int));
            return false;
        }
        k = k + 1;
    }
    true
}

fn is_unlinked(puzzle: &Puzzle) -> (ok: bool)
    ensures
        ok == unlinked(puzzle@),
{
    let mut k: usize = 0;
    while k < puzzle.clues.len()
        invariant
            k <= puzzle.clues@.len(),
            forall|a: int|
                0 <= a < k ==> (#[trigger] puzzle@.clues[a]).members.len() == 0
                    && puzzle@.clues[a].combinations.len() == 0,
        decreases puzzle.clues@.len() - k,
    {
        assert(puzzle@.clues[k as int] == puzzle.clues@[k as int]@);
        if puzzle.clues[k].members.len() != 0 || puzzle.clues[k].combinations.len() != 0 {
            return false;
        }
        k = k + 1;
    }
    let mut j: usize = 0;
    while j < puzzle.cells.len()
        invariant
            j <= puzzle.cells@.len(),
            forall|a: int|
                0 <= a < puzzle@.clues.len() ==> (#[trigger] puzzle@.clues[a]).members.len() == 0
                    && puzzle@.clues[a].combinations.len() == 0,
            forall|a: int|
                0 <= a < j ==> #[trigger] puzzle@.cells[a] == new_cell(
                    puzzle@.cells[a].index,
                    puzzle@.cells[a].row,
                    puzzle@.cells[a].col,
                ),
        decreases puzzle.cells@.len() - j,
    {
        assert(puzzle@.cells[j as int] == puzzle.cells@[j as int]@);
        let fresh = puzzle.cells[j].vertical.is_none() && puzzle.cells[j].horizontal.is_none()
            && puzzle.cells[j].siblings.len() == 0 && puzzle.cells[j].value == 0
            && puzzle.cells[j].possible_values.len() == 0;
        if !fresh {
            return false;
        }
        proof {
            let cell = puzzle@.cells[j as int];
            assert(cell.siblings =~= Seq::empty());
            assert(cell.possible_values =~= Seq::empty());
        }
        j = j + 1;
    }
    true
}

/// Tells whether a grid and its runs and cells are as a puzzle text gives
/// them: the grid is a rectangle, grid and lists describe each other, and
/// nothing is linked yet.
pub fn is_well_formed(parsed: &ParsedPuzzle) -> (ok: bool)
    ensures
        ok == parsed@.well_formed(),
{
    is_rectangular(&parsed.grid) && positions_are_recorded(&parsed.grid, &parsed.puzzle)
        && cells_are_sited(&parsed.grid, &parsed.puzzle) && clues_are_sited(
        &parsed.grid,
        &parsed.puzzle,
    ) && is_unlinked(&parsed.puzzle)
}

} // verus!
