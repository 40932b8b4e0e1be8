//! Linking the runs and cells of a grid: every run gets the cells that
//! follow its clue marker, and every cell gets the two runs it lies in.

use crate::grid::{
    cell_sited, clue_sited, is_well_formed, parse, parsed, position_agrees, sites_agree,
};
use crate::model::{
    nested_view, Axis, CellView, ClueView, GridCell, ParsedPuzzle, ParsedView, Puzzle,
    PuzzleView, SetupError, Signature,
};
use crate::siblings::{lemma_with_siblings, set_siblings, siblings_mutual, with_siblings};
use vstd::prelude::*;

verus! {

/// (`r`, `c`) is a position of the grid.
pub open spec fn inside(grid: Seq<Seq<GridCell>>, r: int, c: int) -> bool {
    0 <= r < grid.len() && 0 <= c < grid[r].len()
}

/// The cells at (`r`, `c`) and the positions after it along `axis`, up to
/// the first position that is not fillable or to the edge of the grid.
pub open spec fn run_from(grid: Seq<Seq<GridCell>>, r: int, c: int, axis: Axis) -> Seq<usize>
    decreases
            grid.len() - r,
            (if 0 <= r < grid.len() {
                grid[r].len() - c
            } else {
                0
            }),
{
    if inside(grid, r, c) {
        match grid[r][c] {
            GridCell::Fillable { cell } => match axis {
                Axis::Vertical => seq![cell] + run_from(grid, r + 1, c, axis),
                Axis::Horizontal => seq![cell] + run_from(grid, r, c + 1, axis),
            },
            _ => Seq::empty(),
        }
    } else {
        Seq::empty()
    }
}

/// The cells of a run: those that follow its clue marker in its direction.
pub open spec fn run_of(grid: Seq<Seq<GridCell>>, clue: ClueView) -> Seq<usize> {
    match clue.axis {
        Axis::Vertical => run_from(grid, clue.row + 1, clue.col as int, Axis::Vertical),
        Axis::Horizontal => run_from(grid, clue.row as int, clue.col + 1, Axis::Horizontal),
    }
}

/// The run that reaches (`r`, `c`) along `axis`: going back from there over
/// fillable positions, the first other position is a clue marker, and this
/// is the run that it starts in that direction. `None` where the way back
/// ends at the edge, at a blocked position or at a marker without such a
/// run.
pub open spec fn owner(grid: Seq<Seq<GridCell>>, r: int, c: int, axis: Axis) -> Option<usize>
    decreases r + c,
{
    let pr = match axis {
        Axis::Vertical => r - 1,
        Axis::Horizontal => r,
    };
    let pc = match axis {
        Axis::Vertical => c,
        Axis::Horizontal => c - 1,
    };
    if r >= 0 && c >= 0 && inside(grid, pr, pc) {
        match grid[pr][pc] {
            GridCell::Fillable { .. } => owner(grid, pr, pc, axis),
            other => other.slot(axis),
        }
    } else {
        None
    }
}

impl CellView {
    /// This cell, in the run `k` along `axis`.
    pub open spec fn with_parent(self, axis: Axis, k: usize) -> CellView {
        match axis {
            Axis::Vertical => CellView { vertical: Some(k), ..self },
            Axis::Horizontal => CellView { horizontal: Some(k), ..self },
        }
    }
}

/// The runs and cells of a grid, linked: every run with the cells that
/// follow its marker, every cell with the runs that reach it.
pub open spec fn linked(parsed: ParsedView) -> PuzzleView {
    let p = parsed.puzzle;
    PuzzleView {
        clues: Seq::new(
            p.clues.len(),
            |k: int| ClueView { members: run_of(parsed.grid, p.clues[k]), ..p.clues[k] },
        ),
        cells: Seq::new(
            p.cells.len(),
            |j: int|
                CellView {
                    vertical: owner(parsed.grid, p.cells[j].row as int, p.cells[j].col as int, Axis::Vertical),
                    horizontal: owner(
                        parsed.grid,
                        p.cells[j].row as int,
                        p.cells[j].col as int,
                        Axis::Horizontal,
                    ),
                    ..p.cells[j]
                },
        ),
    }
}

/// The first cell, from index `from` on, that lies in no vertical or in no
/// horizontal run, as the error that reports it.
pub open spec fn missing_run(cells: Seq<CellView>, from: int) -> Option<SetupError>
    decreases cells.len() - from,
{
    if from < 0 || from >= cells.len() {
        None
    } else if cells[from].vertical is None {
        Some(SetupError::MissingRun { cell: from as usize, axis: Axis::Vertical })
    } else if cells[from].horizontal is None {
        Some(SetupError::MissingRun { cell: from as usize, axis: Axis::Horizontal })
    } else {
        missing_run(cells, from + 1)
    }
}

/// The first run, from index `from` on, that has another number of cells
/// than was declared for it, as the error that reports it.
pub open spec fn wrong_length(clues: Seq<ClueView>, from: int) -> Option<SetupError>
    decreases clues.len() - from,
{
    if from < 0 || from >= clues.len() {
        None
    } else if clues[from].members.len() != clues[from].length {
        Some(SetupError::RunLength { clue: from as usize })
    } else {
        wrong_length(clues, from + 1)
    }
}

/// What is wrong with a linked graph, if anything: a cell outside a run
/// comes before a run of the wrong length.
pub open spec fn link_fault(p: PuzzleView) -> Option<SetupError> {
    match missing_run(p.cells, 0) {
        Some(e) => Some(e),
        None => wrong_length(p.clues, 0),
    }
}

/// The run `k` knows its index, has a valid signature and as many cells as
/// declared, and each of its cells names it as its run in that direction.
pub open spec fn clue_connected(p: PuzzleView, k: int) -> bool {
    let clue = p.clues[k];
    &&& clue.index == k
    &&& clue.declared().valid()
    &&& clue.members.len() == clue.length
    &&& forall|i: int|
        0 <= i < clue.members.len() ==> (#[trigger] clue.members[i]) < p.cells.len()
            && p.cells[clue.members[i] as int].parent(clue.axis) == Some(k as usize)
}

/// The cell `j` names a run of the list in direction `axis`, that run has
/// this direction, and the cell is among its cells.
pub open spec fn cell_in_run(p: PuzzleView, j: int, axis: Axis) -> bool {
    match p.cells[j].parent(axis) {
        Some(k) => k < p.clues.len() && p.clues[k as int].axis == axis
            && p.clues[k as int].members.contains(j as usize),
        None => false,
    }
}

/// The cell `j` knows its index and lies in a vertical and in a horizontal
/// run.
pub open spec fn cell_connected(p: PuzzleView, j: int) -> bool {
    &&& p.cells[j].index == j
    &&& cell_in_run(p, j, Axis::Vertical)
    &&& cell_in_run(p, j, Axis::Horizontal)
}

impl PuzzleView {
    /// No cell holds a digit yet.
    pub open spec fn unassigned(self) -> bool {
        forall|j: int| 0 <= j < self.cells.len() ==> (#[trigger] self.cells[j]).value == 0
    }

    /// What holds of every graph that was linked without a fault: runs and
    /// cells name each other.
    pub open spec fn connected(self) -> bool {
        &&& forall|k: int| 0 <= k < self.clues.len() ==> #[trigger] clue_connected(self, k)
        &&& forall|j: int| 0 <= j < self.cells.len() ==> #[trigger] cell_connected(self, j)
    }
}

/// Every cell lies in a vertical and in a horizontal run, and these are two
/// different runs.
pub open spec fn parents_distinct(p: PuzzleView) -> bool {
    forall|j: int|
        0 <= j < p.cells.len() ==> (#[trigger] p.cells[j]).vertical is Some
            && p.cells[j].horizontal is Some && p.cells[j].vertical != p.cells[j].horizontal
}

/// In a graph whose runs and cells name each other, the two runs of a cell
/// are set and differ: the one is vertical, the other horizontal.
pub proof fn lemma_parents_distinct(p: PuzzleView)
    requires
        p.connected(),
    ensures
        parents_distinct(p),
{
    assert forall|j: int| 0 <= j < p.cells.len() implies (#[trigger] p.cells[j]).vertical is Some
        && p.cells[j].horizontal is Some && p.cells[j].vertical != p.cells[j].horizontal by {
        assert(cell_connected(p, j));
        assert(cell_in_run(p, j, Axis::Vertical));
        assert(cell_in_run(p, j, Axis::Horizontal));
    }
}

/// Every cell of the run that starts at (`r`, `c`) is a cell of the list,
/// and is reached by the run that reaches (`r`, `c`).
pub proof fn lemma_run_is_owned(
    grid: Seq<Seq<GridCell>>,
    p: PuzzleView,
    r: int,
    c: int,
    axis: Axis,
    k: usize,
)
    requires
        sites_agree(grid, p),
        owner(grid, r, c, axis) == Some(k),
    ensures
        forall|i: int|
            0 <= i < run_from(grid, r, c, axis).len() ==> {
                let x = #[trigger] run_from(grid, r, c, axis)[i];
                x < p.cells.len() && owner(
                    grid,
                    p.cells[x as int].row as int,
                    p.cells[x as int].col as int,
                    axis,
                ) == Some(k)
            },
    decreases
            grid.len() - r,
            (if 0 <= r < grid.len() {
                grid[r].len() - c
            } else {
                0
            }),
{
    if inside(grid, r, c) {
        match grid[r][c] {
            GridCell::Fillable { cell } => {
                let g = grid[r][c];
                assert(position_agrees(g, r, c, p));
                match axis {
                    Axis::Vertical => {
                        lemma_run_is_owned(grid, p, r + 1, c, axis, k);
                        let rest = run_from(grid, r + 1, c, axis);
                        assert forall|i: int| 0 <= i < run_from(grid, r, c, axis).len() implies {
                            let x = #[trigger] run_from(grid, r, c, axis)[i];
                            x < p.cells.len() && owner(
                                grid,
                                p.cells[x as int].row as int,
                                p.cells[x as int].col as int,
                                axis,
                            ) == Some(k)
                        } by {
                            if i > 0 {
                                assert(run_from(grid, r, c, axis)[i] == rest[i - 1]);
                            }
                        }
                    },
                    Axis::Horizontal => {
                        lemma_run_is_owned(grid, p, r, c + 1, axis, k);
                        let rest = run_from(grid, r, c + 1, axis);
                        assert forall|i: int| 0 <= i < run_from(grid, r, c, axis).len() implies {
                            let x = #[trigger] run_from(grid, r, c, axis)[i];
                            x < p.cells.len() && owner(
                                grid,
                                p.cells[x as int].row as int,
                                p.cells[x as int].col as int,
                                axis,
                            ) == Some(k)
                        } by {
                            if i > 0 {
                                assert(run_from(grid, r, c, axis)[i] == rest[i - 1]);
                            }
                        }
                    },
                }
            },
            _ => {},
        }
    }
}

/// The run that reaches (`r`, `c`) is a run of the list in that direction,
/// and the cells from (`r`, `c`) on are among its cells.
pub proof fn lemma_owned_is_in_run(
    grid: Seq<Seq<GridCell>>,
    p: PuzzleView,
    r: int,
    c: int,
    axis: Axis,
    k: usize,
)
    requires
        sites_agree(grid, p),
        owner(grid, r, c, axis) == Some(k),
    ensures
        k < p.clues.len(),
        p.clues[k as int].axis == axis,
        forall|x: usize|
            run_from(grid, r, c, axis).contains(x) ==> run_of(grid, p.clues[k as int]).contains(x),
    decreases r + c,
{
    let pr = match axis {
        Axis::Vertical => r - 1,
        Axis::Horizontal => r,
    };
    let pc = match axis {
        Axis::Vertical => c,
        Axis::Horizontal => c - 1,
    };
    let g = grid[pr][pc];
    assert(position_agrees(g, pr, pc, p));
    match g {
        GridCell::Fillable { cell } => {
            lemma_owned_is_in_run(grid, p, pr, pc, axis, k);
            let before = run_from(grid, pr, pc, axis);
            let here = run_from(grid, r, c, axis);
            assert(before =~= seq![cell] + here);
            assert forall|x: usize| here.contains(x) implies run_of(
                grid,
                p.clues[k as int],
            ).contains(x) by {
                let i = choose|i: int| 0 <= i < here.len() && here[i] == x;
                assert(before[i + 1] == x);
                assert(before.contains(x));
            }
        },
        _ => {},
    }
}

/// The graph `p` after the run `k` was linked: the run has its cells, and
/// the cells it reaches name it.
spec fn with_run_linked(grid: Seq<Seq<GridCell>>, p: PuzzleView, k: int) -> PuzzleView {
    let clue = p.clues[k];
    PuzzleView {
        clues: p.clues.update(k, ClueView { members: run_of(grid, clue), ..clue }),
        cells: Seq::new(
            p.cells.len(),
            |j: int|
                if owner(grid, p.cells[j].row as int, p.cells[j].col as int, clue.axis) == Some(
                    k as usize,
                ) {
                    p.cells[j].with_parent(clue.axis, k as usize)
                } else {
                    p.cells[j]
                },
        ),
    }
}

/// The graph while the run `k` is being linked, when the walk has passed
/// the cells `walked`.
spec fn with_cells_walked(p: PuzzleView, k: int, walked: Seq<usize>) -> PuzzleView {
    let clue = p.clues[k];
    PuzzleView {
        clues: p.clues.update(k, ClueView { members: walked, ..clue }),
        cells: Seq::new(
            p.cells.len(),
            |j: int|
                if walked.contains(j as usize) {
                    p.cells[j].with_parent(clue.axis, k as usize)
                } else {
                    p.cells[j]
                },
        ),
    }
}

/// One more cell walked is one more cell in the run, named by its run.
proof fn lemma_one_more_walked(p: PuzzleView, k: int, walked: Seq<usize>, cell: usize, q: PuzzleView)
    requires
        0 <= k < p.clues.len(),
        cell < p.cells.len() <= usize::MAX,
        q.clues.len() == p.clues.len(),
        q.cells.len() == p.cells.len(),
        forall|i: int|
            0 <= i < p.clues.len() && i != k ==> q.clues[i] == with_cells_walked(
                p,
                k,
                walked,
            ).clues[i],
        q.clues[k] == (ClueView { members: walked.push(cell), ..p.clues[k] }),
        forall|j: int|
            0 <= j < p.cells.len() && j != cell ==> q.cells[j] == with_cells_walked(
                p,
                k,
                walked,
            ).cells[j],
        q.cells[cell as int] == with_cells_walked(p, k, walked).cells[cell as int].with_parent(
            p.clues[k].axis,
            k as usize,
        ),
    ensures
        q == with_cells_walked(p, k, walked.push(cell)),
{
    let now = walked.push(cell);
    let goal = with_cells_walked(p, k, now);
    assert(q.clues =~= goal.clues);
    assert(now[walked.len() as int] == cell);
    assert forall|j: int| 0 <= j < p.cells.len() implies q.cells[j] == goal.cells[j] by {
        if j != cell {
            if now.contains(j as usize) {
                let i = choose|i: int| 0 <= i < now.len() && now[i] == j as usize;
                assert(walked[i] == j as usize);
            }
            if walked.contains(j as usize) {
                let i = choose|i: int| 0 <= i < walked.len() && walked[i] == j as usize;
                assert(now[i] == j as usize);
            }
        }
    }
    assert(q.cells =~= goal.cells);
}

/// When the walk has passed all the cells of the run, the run is linked.
proof fn lemma_all_walked(grid: Seq<Seq<GridCell>>, p: PuzzleView, k: usize)
    requires
        sites_agree(grid, p),
        k < p.clues.len(),
    ensures
        with_cells_walked(p, k as int, run_of(grid, p.clues[k as int])) == with_run_linked(
            grid,
            p,
            k as int,
        ),
{
    let clue = p.clues[k as int];
    let axis = clue.axis;
    let members = run_of(grid, clue);
    assert(clue_sited(grid, clue, k as int));
    let (r, c) = match axis {
        Axis::Vertical => (clue.row + 1, clue.col as int),
        Axis::Horizontal => (clue.row as int, clue.col + 1),
    };
    assert(owner(grid, r, c, axis) == Some(k));
    lemma_run_is_owned(grid, p, r, c, axis, k);
    assert forall|j: int| 0 <= j < p.cells.len() implies (members.contains(j as usize) <==> owner(
        grid,
        p.cells[j].row as int,
        p.cells[j].col as int,
        axis,
    ) == Some(k)) by {
        let cell = p.cells[j];
        assert(cell_sited(grid, cell, j));
        if members.contains(j as usize) {
            let i = choose|i: int| 0 <= i < members.len() && members[i] == j as usize;
            assert(run_from(grid, r, c, axis)[i] == j as usize);
        }
        if owner(grid, cell.row as int, cell.col as int, axis) == Some(k) {
            lemma_owned_is_in_run(grid, p, cell.row as int, cell.col as int, axis, k);
            let here = run_from(grid, cell.row as int, cell.col as int, axis);
            assert(here[0] == j as usize);
            assert(here.contains(j as usize));
        }
    }
    assert(with_cells_walked(p, k as int, members).cells =~= with_run_linked(
        grid,
        p,
        k as int,
    ).cells);
}

/// Links the run `k`, whose clue marker is at (`row`, `col`): walks from the
/// marker along `axis` over the fillable positions, appends each cell to the
/// run and records the run in the cell.
fn link_run(
    grid: &Vec<Vec<GridCell>>,
    puzzle: &mut Puzzle,
    row: usize,
    col: usize,
    axis: Axis,
    k: usize,
)
    requires
        sites_agree(nested_view(grid@), old(puzzle)@),
        row < grid@.len(),
        col < grid@[row as int]@.len(),
        nested_view(grid@)[row as int][col as int].slot(axis) == Some(k),
        old(puzzle)@.clues[k as int].members.len() == 0,
    ensures
        final(puzzle)@ == with_run_linked(nested_view(grid@), old(puzzle)@, k as int),
{
    let ghost g = nested_view(grid@);
    let ghost before = puzzle@;
    let ghost clue = before.clues[k as int];
    proof {
        assert(position_agrees(g[row as int][col as int], row as int, col as int, before));
        assert(clue_sited(g, clue, k as int));
        assert(clue.members =~= Seq::empty());
        assert(puzzle@.clues =~= with_cells_walked(before, k as int, Seq::empty()).clues);
        assert(puzzle@.cells =~= with_cells_walked(before, k as int, Seq::empty()).cells);
        assert(puzzle.clues@[k as int]@ == before.clues[k as int]);
        assert(puzzle.clues@[k as int].members@ =~= Seq::empty());
    }
    proof {
        assert(grid@.len() == grid.len());
        assert(grid@[row as int]@.len() == grid[row as int].len());
    }
    let mut r: usize = row;
    let mut c: usize = col;
    match axis {
        Axis::Vertical => {
            r = row + 1;
        },
        Axis::Horizontal => {
            c = col + 1;
        },
    }
    loop
        invariant
            g == nested_view(grid@),
            row < grid@.len(),
            col < grid@[row as int]@.len(),
            axis == Axis::Vertical ==> c == col && r <= grid@.len(),
            axis == Axis::Horizontal ==> r == row && c <= grid@[row as int]@.len(),
            sites_agree(g, before),
            k < puzzle.clues@.len(),
            puzzle.clues@.len() == before.clues.len(),
            puzzle.cells@.len() == before.cells.len(),
            clue == before.clues[k as int],
            clue.axis == axis,
            owner(g, r as int, c as int, axis) == Some(k),
            puzzle.clues@[k as int].members@ + run_from(g, r as int, c as int, axis) == run_of(
                g,
                clue,
            ),
            puzzle@ == with_cells_walked(before, k as int, puzzle.clues@[k as int].members@),
        ensures
            puzzle@ == with_cells_walked(before, k as int, run_of(g, clue)),
        decreases (grid@.len() - r) + (grid@[row as int]@.len() - c),
    {
        let ghost walked = puzzle.clues@[k as int].members@;
        if r >= grid.len() || c >= grid[r].len() {
            assert(walked + Seq::<usize>::empty() =~= walked);
            break ;
        }
        let here = grid[r][c];
        assert(here == g[r as int][c as int]);
        match here {
            GridCell::Fillable { cell } => {
                let ghost mid = puzzle@;
                let ghost clues_mid = puzzle.clues@;
                let ghost cells_mid = puzzle.cells@;
                proof {
                    assert(position_agrees(here, r as int, c as int, before));
                    assert(mid.clues[k as int] == clues_mid[k as int]@);
                    assert(mid.cells[cell as int] == cells_mid[cell as int]@);
                }
                puzzle.clues[k].members.push(cell);
                match axis {
                    Axis::Vertical => {
                        puzzle.cells[cell].vertical = Some(k);
                        r = r + 1;
                    },
                    Axis::Horizontal => {
                        puzzle.cells[cell].horizontal = Some(k);
                        c = c + 1;
                    },
                }
                proof {
                    let rest = run_from(g, r as int, c as int, axis);
                    assert((walked + seq![cell]) + rest =~= walked + (seq![cell] + rest));
                    assert(walked.push(cell) =~= walked + seq![cell]);
                    assert forall|i: int| 0 <= i < before.clues.len() && i != k implies puzzle@.clues[i]
                        == mid.clues[i] by {
                        assert(puzzle.clues@[i] == clues_mid[i]);
                    }
                    assert(puzzle@.clues[k as int] == puzzle.clues@[k as int]@);
                    assert forall|j: int| 0 <= j < before.cells.len() && j != cell implies puzzle@.cells[j]
                        == mid.cells[j] by {
                        assert(puzzle.cells@[j] == cells_mid[j]);
                    }
                    assert(puzzle@.cells[cell as int] == puzzle.cells@[cell as int]@);
                    assert(before.cells.len() == puzzle.cells.len());
                    lemma_one_more_walked(before, k as int, walked, cell, puzzle@);
                }
            },
            _ => {
                assert(walked + Seq::<usize>::empty() =~= walked);
                break ;
            },
        }
    }
    proof {
        lemma_all_walked(g, before, k);
    }
}

/// The place of a direction in the order in which the two runs of one clue
/// marker are linked.
spec fn rank(axis: Axis) -> int {
    match axis {
        Axis::Vertical => 0,
        Axis::Horizontal => 1,
    }
}

/// The run is linked before the scan of the grid, in reading order, comes to
/// the run of rank `phase` at (`r`, `c`).
spec fn reached(clue: ClueView, r: int, c: int, phase: int) -> bool {
    clue.row < r || (clue.row == r && (clue.col < c || (clue.col == c && rank(clue.axis)
        < phase)))
}

/// The run that reaches the cell along `axis`, if it is linked by then.
spec fn owner_if_reached(parsed: ParsedView, j: int, axis: Axis, r: int, c: int, phase: int)
    -> Option<usize> {
    let cell = parsed.puzzle.cells[j];
    match owner(parsed.grid, cell.row as int, cell.col as int, axis) {
        Some(k) => if k < parsed.puzzle.clues.len() && reached(
            parsed.puzzle.clues[k as int],
            r,
            c,
            phase,
        ) {
            Some(k)
        } else {
            None
        },
        None => None,
    }
}

/// The graph when the scan comes to the run of rank `phase` at (`r`, `c`).
#[verifier::opaque]
spec fn linked_until(parsed: ParsedView, r: int, c: int, phase: int) -> PuzzleView {
    let p = parsed.puzzle;
    PuzzleView {
        clues: Seq::new(
            p.clues.len(),
            |k: int|
                if reached(p.clues[k], r, c, phase) {
                    ClueView { members: run_of(parsed.grid, p.clues[k]), ..p.clues[k] }
                } else {
                    p.clues[k]
                },
        ),
        cells: Seq::new(
            p.cells.len(),
            |j: int|
                CellView {
                    vertical: owner_if_reached(parsed, j, Axis::Vertical, r, c, phase),
                    horizontal: owner_if_reached(parsed, j, Axis::Horizontal, r, c, phase),
                    ..p.cells[j]
                },
        ),
    }
}

proof fn lemma_linked_until_sited(parsed: ParsedView, r: int, c: int, phase: int)
    requires
        parsed.well_formed(),
    ensures
        sites_agree(parsed.grid, linked_until(parsed, r, c, phase)),
{
    reveal(linked_until);
    let q = linked_until(parsed, r, c, phase);
    let p = parsed.puzzle;
    let grid = parsed.grid;
    assert forall|i: int, j: int|
        0 <= i < grid.len() && 0 <= j < grid[i].len() implies position_agrees(
        #[trigger] grid[i][j],
        i,
        j,
        q,
    ) by {
        assert(position_agrees(grid[i][j], i, j, p));
    }
    assert forall|j: int| 0 <= j < q.cells.len() implies cell_sited(
        grid,
        #[trigger] q.cells[j],
        j,
    ) by {
        assert(cell_sited(grid, p.cells[j], j));
    }
    assert forall|k: int| 0 <= k < q.clues.len() implies clue_sited(
        grid,
        #[trigger] q.clues[k],
        k,
    ) by {
        assert(clue_sited(grid, p.clues[k], k));
    }
}

proof fn lemma_nothing_linked(parsed: ParsedView)
    requires
        parsed.well_formed(),
    ensures
        linked_until(parsed, 0, 0, 0) == parsed.puzzle,
{
    reveal(linked_until);
    let q = linked_until(parsed, 0, 0, 0);
    assert(q.clues =~= parsed.puzzle.clues);
    assert(q.cells =~= parsed.puzzle.cells);
}

/// Linking the run of direction `axis` at (`r`, `c`), where the grid holds
/// one, takes the graph from one phase of the scan to the next.
proof fn lemma_link_step(parsed: ParsedView, r: int, c: int, axis: Axis)
    requires
        parsed.well_formed(),
        inside(parsed.grid, r, c),
    ensures
        sites_agree(parsed.grid, linked_until(parsed, r, c, rank(axis))),
        match parsed.grid[r][c].slot(axis) {
            Some(k) => k < parsed.puzzle.clues.len() && linked_until(
                parsed,
                r,
                c,
                rank(axis),
            ).clues[k as int].members.len() == 0 && with_run_linked(
                parsed.grid,
                linked_until(parsed, r, c, rank(axis)),
                k as int,
            ) == linked_until(parsed, r, c, rank(axis) + 1),
            None => linked_until(parsed, r, c, rank(axis)) == linked_until(
                parsed,
                r,
                c,
                rank(axis) + 1,
            ),
        },
{
    reveal(linked_until);
    let grid = parsed.grid;
    let p = parsed.puzzle;
    let phase = rank(axis);
    let q = linked_until(parsed, r, c, phase);
    let next = linked_until(parsed, r, c, phase + 1);
    lemma_linked_until_sited(parsed, r, c, phase);
    assert(position_agrees(grid[r][c], r, c, p));
    // which runs are linked in this phase
    assert forall|i: int| 0 <= i < p.clues.len() implies (reached(p.clues[i], r, c, phase + 1) <==> (
    reached(p.clues[i], r, c, phase) || grid[r][c].slot(axis) == Some(i as usize))) by {
        assert(clue_sited(grid, p.clues[i], i));
        if grid[r][c].slot(axis) == Some(i as usize) {
            assert(p.clues[i].row == r && p.clues[i].col == c && p.clues[i].axis == axis);
        }
    }
    assert forall|j: int, a: Axis| 0 <= j < p.cells.len() implies (#[trigger] owner_if_reached(
        parsed,
        j,
        a,
        r,
        c,
        phase + 1,
    )) == (match owner(grid, p.cells[j].row as int, p.cells[j].col as int, a) {
        Some(i) => if a == axis && grid[r][c].slot(axis) == Some(i) {
            Some(i)
        } else {
            owner_if_reached(parsed, j, a, r, c, phase)
        },
        None => None,
    }) by {
        match owner(grid, p.cells[j].row as int, p.cells[j].col as int, a) {
            Some(i) => {
                lemma_owned_is_in_run(grid, p, p.cells[j].row as int, p.cells[j].col as int, a, i);
            },
            None => {},
        }
    }
    match grid[r][c].slot(axis) {
        Some(k) => {
            let done = with_run_linked(grid, q, k as int);
            assert(done.clues =~= next.clues);
            assert forall|j: int| 0 <= j < p.cells.len() implies done.cells[j] == next.cells[j] by {
                let a = axis;
                let other = match axis {
                    Axis::Vertical => Axis::Horizontal,
                    Axis::Horizontal => Axis::Vertical,
                };
                let _ = owner_if_reached(parsed, j, a, r, c, phase + 1);
                let _ = owner_if_reached(parsed, j, other, r, c, phase + 1);
            }
            assert(done.cells =~= next.cells);
        },
        None => {
            assert(q.clues =~= next.clues);
            assert forall|j: int| 0 <= j < p.cells.len() implies q.cells[j] == next.cells[j] by {
                let _ = owner_if_reached(parsed, j, Axis::Vertical, r, c, phase + 1);
                let _ = owner_if_reached(parsed, j, Axis::Horizontal, r, c, phase + 1);
            }
            assert(q.cells =~= next.cells);
        },
    }
}

/// The scan moves on to the next column, or from the end of a row to the
/// next row, without the graph changing.
proof fn lemma_scan_moves_on(parsed: ParsedView, r: int, c: int)
    requires
        parsed.well_formed(),
        0 <= r < parsed.grid.len(),
        0 <= c <= parsed.grid[r].len(),
    ensures
        c < parsed.grid[r].len() ==> linked_until(parsed, r, c, 2) == linked_until(
            parsed,
            r,
            c + 1,
            0,
        ),
        c == parsed.grid[r].len() ==> linked_until(parsed, r, c, 0) == linked_until(
            parsed,
            r + 1,
            0,
            0,
        ),
{
    reveal(linked_until);
    let p = parsed.puzzle;
    let (a, b) = if c < parsed.grid[r].len() {
        (linked_until(parsed, r, c, 2), linked_until(parsed, r, c + 1, 0))
    } else {
        (linked_until(parsed, r, c, 0), linked_until(parsed, r + 1, 0, 0))
    };
    assert forall|k: int| 0 <= k < p.clues.len() implies a.clues[k] == b.clues[k] by {
        assert(clue_sited(parsed.grid, p.clues[k], k));
    }
    assert(a.clues =~= b.clues);
    assert forall|j: int| 0 <= j < p.cells.len() implies a.cells[j] == b.cells[j] by {
        let cell = p.cells[j];
        match owner(parsed.grid, cell.row as int, cell.col as int, Axis::Vertical) {
            Some(k) => {
                lemma_owned_is_in_run(
                    parsed.grid,
                    p,
                    cell.row as int,
                    cell.col as int,
                    Axis::Vertical,
                    k,
                );
                assert(clue_sited(parsed.grid, p.clues[k as int], k as int));
            },
            None => {},
        }
        match owner(parsed.grid, cell.row as int, cell.col as int, Axis::Horizontal) {
            Some(k) => {
                lemma_owned_is_in_run(
                    parsed.grid,
                    p,
                    cell.row as int,
                    cell.col as int,
                    Axis::Horizontal,
                    k,
                );
                assert(clue_sited(parsed.grid, p.clues[k as int], k as int));
            },
            None => {},
        }
    }
    assert(a.cells =~= b.cells);
}

proof fn lemma_all_linked(parsed: ParsedView)
    requires
        parsed.well_formed(),
    ensures
        linked_until(parsed, parsed.grid.len() as int, 0, 0) == linked(parsed),
{
    reveal(linked_until);
    let p = parsed.puzzle;
    let a = linked_until(parsed, parsed.grid.len() as int, 0, 0);
    let b = linked(parsed);
    assert forall|k: int| 0 <= k < p.clues.len() implies a.clues[k] == b.clues[k] by {
        assert(clue_sited(parsed.grid, p.clues[k], k));
    }
    assert(a.clues =~= b.clues);
    assert forall|j: int| 0 <= j < p.cells.len() implies a.cells[j] == b.cells[j] by {
        let cell = p.cells[j];
        match owner(parsed.grid, cell.row as int, cell.col as int, Axis::Vertical) {
            Some(k) => {
                lemma_owned_is_in_run(
                    parsed.grid,
                    p,
                    cell.row as int,
                    cell.col as int,
                    Axis::Vertical,
                    k,
                );
                assert(clue_sited(parsed.grid, p.clues[k as int], k as int));
            },
            None => {},
        }
        match owner(parsed.grid, cell.row as int, cell.col as int, Axis::Horizontal) {
            Some(k) => {
                lemma_owned_is_in_run(
                    parsed.grid,
                    p,
                    cell.row as int,
                    cell.col as int,
                    Axis::Horizontal,
                    k,
                );
                assert(clue_sited(parsed.grid, p.clues[k as int], k as int));
            },
            None => {},
        }
    }
    assert(a.cells =~= b.cells);
}

/// The graph that a puzzle text describes, or the first thing that is wrong
/// with the text or with the graph.
pub open spec fn graph_of(text: Seq<u8>) -> Result<PuzzleView, SetupError> {
    match parsed(text) {
        Err(e) => Err(e),
        Ok(grid) => match link_fault(linked(grid)) {
            Some(e) => Err(e),
            None => Ok(with_siblings(linked(grid))),
        },
    }
}

/// Where no cell from `from` on is reported, each of them names two runs.
pub proof fn lemma_no_missing_run(cells: Seq<CellView>, from: int)
    requires
        0 <= from,
        missing_run(cells, from) is None,
    ensures
        forall|j: int|
            from <= j < cells.len() ==> (#[trigger] cells[j]).vertical is Some
                && cells[j].horizontal is Some,
    decreases cells.len() - from,
{
    if from < cells.len() {
        lemma_no_missing_run(cells, from + 1);
    }
}

/// Where no run from `from` on is reported, each of them has as many cells
/// as declared.
pub proof fn lemma_no_wrong_length(clues: Seq<ClueView>, from: int)
    requires
        0 <= from,
        wrong_length(clues, from) is None,
    ensures
        forall|k: int|
            from <= k < clues.len() ==> (#[trigger] clues[k]).members.len() == clues[k].length,
    decreases clues.len() - from,
{
    if from < clues.len() {
        lemma_no_wrong_length(clues, from + 1);
    }
}

/// A grid that was read from a text and links without a fault gives a graph
/// in which runs and cells name each other.
pub proof fn lemma_linked_connected(parsed: ParsedView)
    requires
        parsed.well_formed(),
        link_fault(linked(parsed)) is None,
    ensures
        linked(parsed).connected(),
{
    let grid = parsed.grid;
    let p = parsed.puzzle;
    let q = linked(parsed);
    lemma_no_missing_run(q.cells, 0);
    lemma_no_wrong_length(q.clues, 0);
    assert forall|k: int| 0 <= k < q.clues.len() implies #[trigger] clue_connected(q, k) by {
        let clue = p.clues[k];
        assert(clue_sited(grid, clue, k));
        let (r, c) = match clue.axis {
            Axis::Vertical => (clue.row + 1, clue.col as int),
            Axis::Horizontal => (clue.row as int, clue.col + 1),
        };
        assert(owner(grid, r, c, clue.axis) == Some(k as usize));
        lemma_run_is_owned(grid, p, r, c, clue.axis, k as usize);
        assert(q.clues[k].members == run_from(grid, r, c, clue.axis));
        assert(q.clues[k].members.len() == q.clues[k].length);
    }
    assert forall|j: int| 0 <= j < q.cells.len() implies #[trigger] cell_connected(q, j) by {
        let cell = p.cells[j];
        assert(cell_sited(grid, cell, j));
        assert(q.cells[j].vertical is Some && q.cells[j].horizontal is Some);
        let v = q.cells[j].vertical->0;
        let h = q.cells[j].horizontal->0;
        lemma_owned_is_in_run(grid, p, cell.row as int, cell.col as int, Axis::Vertical, v);
        lemma_owned_is_in_run(grid, p, cell.row as int, cell.col as int, Axis::Horizontal, h);
        assert(run_from(grid, cell.row as int, cell.col as int, Axis::Vertical)[0] == j as usize);
        assert(run_from(grid, cell.row as int, cell.col as int, Axis::Horizontal)[0]
            == j as usize);
        assert(run_from(grid, cell.row as int, cell.col as int, Axis::Vertical).contains(
            j as usize,
        ));
        assert(run_from(grid, cell.row as int, cell.col as int, Axis::Horizontal).contains(
            j as usize,
        ));
    }
}

/// Looks for a cell outside a run, then for a run of the wrong length.
pub fn check_links(puzzle: &Puzzle) -> (fault: Option<SetupError>)
    ensures
        fault == link_fault(puzzle@),
{
    let mut j: usize = 0;
    while j < puzzle.cells.len()
        invariant
            j <= puzzle.cells@.len(),
            missing_run(puzzle@.cells, j as int) == missing_run(puzzle@.cells, 0),
        decreases puzzle.cells@.len() - j,
    {
        assert(puzzle@.cells[j as int] == puzzle.cells@[j as int]@);
        if puzzle.cells[j].vertical.is_none() {
            return Some(SetupError::MissingRun { cell: j, axis: Axis::Vertical });
        }
        if puzzle.cells[j].horizontal.is_none() {
            return Some(SetupError::MissingRun { cell: j, axis: Axis::Horizontal });
        }
        j = j + 1;
    }
    let mut k: usize = 0;
    while k < puzzle.clues.len()
        invariant
            k <= puzzle.clues@.len(),
            missing_run(puzzle@.cells, 0) is None,
            wrong_length(puzzle@.clues, k as int) == wrong_length(puzzle@.clues, 0),
        decreases puzzle.clues@.len() - k,
    {
        assert(puzzle@.clues[k as int] == puzzle.clues@[k as int]@);
        if puzzle.clues[k].members.len() != puzzle.clues[k].length as usize {
            return Some(SetupError::RunLength { clue: k });
        }
        k = k + 1;
    }
    None
}

/// Why a grid cannot be linked, if it cannot: it is not as a puzzle text
/// gives it, or its graph has a fault.
pub open spec fn connect_fault(parsed: ParsedView) -> Option<SetupError> {
    if parsed.well_formed() {
        link_fault(linked(parsed))
    } else {
        Some(SetupError::Inconsistent)
    }
}

/// Links the runs and cells of a grid.
///
/// Every clue marker is visited in reading order, its vertical run before
/// its horizontal one. The result is the graph in which each run holds the
/// cells that follow its marker, and each cell names the two runs that
/// reach it and holds its siblings. A cell that no run reaches in one of the directions, or a run with
/// another number of cells than declared, is an error; so is a grid that
/// does not agree with its lists of runs and cells, which no puzzle text
/// gives.
pub fn connect(parsed: ParsedPuzzle) -> (r: Result<Puzzle, SetupError>)
    ensures
        match connect_fault(parsed@) {
            Some(e) => r == Err::<Puzzle, SetupError>(e),
            None => r matches Ok(p) && p@ == with_siblings(linked(parsed@)) && p@.connected()
                && parents_distinct(p@) && siblings_mutual(p@) && p@.unassigned(),
        },
{
    if !is_well_formed(&parsed) {
        return Err(SetupError::Inconsistent);
    }
    let ghost start = parsed@;
    let ParsedPuzzle { grid, puzzle } = parsed;
    let mut puzzle = puzzle;
    proof {
        lemma_nothing_linked(start);
    }
    let mut r: usize = 0;
    while r < grid.len()
        invariant
            r <= grid@.len(),
            start.well_formed(),
            start.grid == nested_view(grid@),
            puzzle@ == linked_until(start, r as int, 0, 0),
        decreases grid@.len() - r,
    {
        let mut c: usize = 0;
        while c < grid[r].len()
            invariant
                r < grid@.len(),
                c <= grid@[r as int]@.len(),
                start.well_formed(),
                start.grid == nested_view(grid@),
                puzzle@ == linked_until(start, r as int, c as int, 0),
            decreases grid@[r as int]@.len() - c,
        {
            let here = grid[r][c];
            assert(here == start.grid[r as int][c as int]);
            proof {
                lemma_link_step(start, r as int, c as int, Axis::Vertical);
            }
            match here.read_slot(Axis::Vertical) {
                Some(k) => {
                    link_run(&grid, &mut puzzle, r, c, Axis::Vertical, k);
                },
                None => {},
            }
            proof {
                lemma_link_step(start, r as int, c as int, Axis::Horizontal);
            }
            match here.read_slot(Axis::Horizontal) {
                Some(k) => {
                    link_run(&grid, &mut puzzle, r, c, Axis::Horizontal, k);
                },
                None => {},
            }
            proof {
                lemma_scan_moves_on(start, r as int, c as int);
            }
            c = c + 1;
        }
        proof {
            lemma_scan_moves_on(start, r as int, c as int);
        }
        r = r + 1;
    }
    proof {
        lemma_all_linked(start);
    }
    match check_links(&puzzle) {
        Some(e) => Err(e),
        None => {
            proof {
                lemma_linked_connected(start);
                lemma_with_siblings(puzzle@);
            }
            set_siblings(&mut puzzle);
            proof {
                lemma_parents_distinct(puzzle@);
            }
            Ok(puzzle)
        },
    }
}

/// Reads a puzzle text and links its runs and cells.
pub fn insert_puzzle_and_connect_parents_and_children(text: &[u8]) -> (r: Result<
    Puzzle,
    SetupError,
>)
    ensures
        match graph_of(text@) {
            Ok(v) => r matches Ok(p) && p@ == v && v.connected() && parents_distinct(v)
                && siblings_mutual(v) && v.unassigned(),
            Err(e) => r == Err::<Puzzle, SetupError>(e),
        },
{
    match parse(text) {
        Ok(parsed) => connect(parsed),
        Err(e) => Err(e),
    }
}

/// What is wrong with a graph, if anything: a cell outside a run, a run of
/// the wrong length, or runs and cells that do not name each other.
pub open spec fn graph_fault(p: PuzzleView) -> Option<SetupError> {
    match link_fault(p) {
        Some(e) => Some(e),
        None => if p.connected() {
            None
        } else {
            Some(SetupError::Inconsistent)
        },
    }
}

fn holds_cell(list: &Vec<usize>, x: usize) -> (r: bool)
    ensures
        r == list@.contains(x),
{
    let mut i: usize = 0;
    while i < list.len()
        invariant
            i <= list@.len(),
            forall|a: int| 0 <= a < i ==> list@[a] != x,
        decreases list@.len() - i,
    {
        if list[i] == x {
            return true;
        }
        i = i + 1;
    }
    false
}

fn clue_is_connected(puzzle: &Puzzle, k: usize) -> (ok: bool)
    requires
        k < puzzle@.clues.len(),
    ensures
        ok == clue_connected(puzzle@, k as int),
{
    assert(puzzle@.clues[k as int] == puzzle.clues@[k as int]@);
    let declared = Signature { sum: puzzle.clues[k].sum, length: puzzle.clues[k].length };
    if puzzle.clues[k].index != k || !declared.is_valid() || puzzle.clues[k].members.len()
        != puzzle.clues[k].length as usize {
        return false;
    }
    let axis = puzzle.clues[k].axis;
    let ghost members = puzzle@.clues[k as int].members;
    let mut i: usize = 0;
    while i < puzzle.clues[k].members.len()
        invariant
            k < puzzle.clues@.len(),
            members == puzzle.clues@[k as int].members@,
            axis == puzzle.clues@[k as int].axis,
            i <= members.len(),
            forall|a: int|
                0 <= a < i ==> (#[trigger] members[a]) < puzzle@.cells.len()
                    && puzzle@.cells[members[a] as int].parent(axis) == Some(k),
        decreases members.len() - i,
    {
        let m = puzzle.clues[k].members[i];
        if m >= puzzle.cells.len() {
            assert(!(members[i as int] < puzzle@.cells.len()));
            return false;
        }
        assert(puzzle@.cells[m as int] == puzzle.cells@[m as int]@);
        let parent = match axis {
            Axis::Vertical => puzzle.cells[m].vertical,
            Axis::Horizontal => puzzle.cells[m].horizontal,
        };
        let named = match parent {
            Some(p) => p == k,
            None => false,
        };
        if !named {
            assert(puzzle@.cells[members[i as int] as int].parent(axis) != Some(k));
            return false;
        }
        i = i + 1;
    }
    true
}

fn cell_is_in_run(puzzle: &Puzzle, j: usize, axis: Axis) -> (ok: bool)
    requires
        j < puzzle@.cells.len(),
    ensures
        ok == cell_in_run(puzzle@, j as int, axis),
{
    assert(puzzle@.cells[j as int] == puzzle.cells@[j as int]@);
    let parent = match axis {
        Axis::Vertical => puzzle.cells[j].vertical,
        Axis::Horizontal => puzzle.cells[j].horizontal,
    };
    match parent {
        Some(k) => {
            if k < puzzle.clues.len() {
                assert(puzzle@.clues[k as int] == puzzle.clues@[k as int]@);
                puzzle.clues[k].axis == axis && holds_cell(&puzzle.clues[k].members, j)
            } else {
                false
            }
        },
        None => false,
    }
}

/// Tells whether the runs and cells of a graph name each other.
pub fn is_connected(puzzle: &Puzzle) -> (ok: bool)
    ensures
        ok == puzzle@.connected(),
{
    let mut k: usize = 0;
    while k < puzzle.clues.len()
        invariant
            k <= puzzle.clues@.len(),
            forall|a: int| 0 <= a < k ==> #[trigger] clue_connected(puzzle@, a),
        decreases puzzle.clues@.len() - k,
    {
        if !clue_is_connected(puzzle, k) {
            return false;
        }
        k = k + 1;
    }
    let mut j: usize = 0;
    while j < puzzle.cells.len()
        invariant
            j <= puzzle.cells@.len(),
            forall|a: int| 0 <= a < puzzle@.clues.len() ==> #[trigger] clue_connected(puzzle@, a),
            forall|a: int| 0 <= a < j ==> #[trigger] cell_connected(puzzle@, a),
        decreases puzzle.cells@.len() - j,
    {
        assert(puzzle@.cells[j as int] == puzzle.cells@[j as int]@);
        if puzzle.cells[j].index != j || !cell_is_in_run(puzzle, j, Axis::Vertical)
            || !cell_is_in_run(puzzle, j, Axis::Horizontal) {
            assert(!cell_connected(puzzle@, j as int));
            return false;
        }
        j = j + 1;
    }
    true
}

/// Looks for what is wrong with a graph.
pub fn check_graph(puzzle: &Puzzle) -> (fault: Option<SetupError>)
    ensures
        fault == graph_fault(puzzle@),
{
    match check_links(puzzle) {
        Some(e) => Some(e),
        None => if is_connected(puzzle) {
            None
        } else {
            Some(SetupError::Inconsistent)
        },
    }
}

/// A graph whose runs and cells name each other has no fault.
pub proof fn lemma_connected_has_no_fault(p: PuzzleView)
    requires
        p.connected(),
    ensures
        graph_fault(p) is None,
{
    lemma_missing_run_none(p, 0);
    lemma_wrong_length_none(p, 0);
}

proof fn lemma_missing_run_none(p: PuzzleView, from: int)
    requires
        p.connected(),
        0 <= from,
    ensures
        missing_run(p.cells, from) is None,
    decreases p.cells.len() - from,
{
    if from < p.cells.len() {
        assert(cell_connected(p, from));
        assert(cell_in_run(p, from, Axis::Vertical));
        assert(cell_in_run(p, from, Axis::Horizontal));
        lemma_missing_run_none(p, from + 1);
    }
}

proof fn lemma_wrong_length_none(p: PuzzleView, from: int)
    requires
        p.connected(),
        0 <= from,
    ensures
        wrong_length(p.clues, from) is None,
    decreases p.clues.len() - from,
{
    if from < p.clues.len() {
        assert(clue_connected(p, from));
        lemma_wrong_length_none(p, from + 1);
    }
}

} // verus!
