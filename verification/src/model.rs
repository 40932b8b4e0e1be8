//! The data of a puzzle: grid positions, runs (clues), fillable cells, and
//! the mathematical views that the contracts of this crate speak of.

use vstd::prelude::*;

verus! {

/// The direction in which a run extends from its clue marker.
#[derive(Clone, Copy, Debug, PartialEq, Eq, Structural)]
pub enum Axis {
    /// Downwards, one row at a time.
    Vertical,
    /// To the right, one column at a time.
    Horizontal,
}

/// The key under which the combinations of a run are found: its target sum
/// and the number of its cells.
#[derive(Clone, Copy, Debug, PartialEq, Eq, Structural)]
pub struct Signature {
    pub sum: u8,
    pub length: u8,
}

impl Signature {
    /// A sum from 1 to 45 over 1 to 9 cells.
    pub open spec fn valid(self) -> bool {
        1 <= self.sum <= 45 && 1 <= self.length <= 9
    }

    /// Tells whether the signature is valid.
    pub fn is_valid(&self) -> (r: bool)
        ensures
            r == self.valid(),
    {
        1 <= self.sum && self.sum <= 45 && 1 <= self.length && self.length <= 9
    }
}

/// What one position of the grid holds.
#[derive(Clone, Copy, Debug, PartialEq, Eq)]
pub enum GridCell {
    /// Nothing can be written here.
    Blocked,
    /// A clue marker: the index of the run that starts below it, and of the
    /// run that starts to its right, where there is one.
    Clue { vertical: Option<usize>, horizontal: Option<usize> },
    /// A cell to fill, by its index in the list of cells.
    Fillable { cell: usize },
}

impl GridCell {
    /// The run that this position starts along `axis`, if it is a clue
    /// marker with a run in that direction.
    pub open spec fn slot(self, axis: Axis) -> Option<usize> {
        match self {
            GridCell::Clue { vertical, horizontal } => match axis {
                Axis::Vertical => vertical,
                Axis::Horizontal => horizontal,
            },
            _ => None,
        }
    }
}

/// A run: consecutive fillable cells in one direction that must hold
/// distinct digits adding up to `sum`.
#[derive(Clone, Debug, PartialEq, Eq)]
pub struct Clue {
    /// Position of this run in the list of runs.
    pub index: usize,
    /// Row of the clue marker.
    pub row: usize,
    /// Column of the clue marker.
    pub col: usize,
    pub axis: Axis,
    /// Target sum.
    pub sum: u8,
    /// Number of cells that the puzzle text declares for the run.
    pub length: u8,
    /// Indices of the cells of the run, in reading order.
    pub members: Vec<usize>,
    /// The admissible digit combinations.
    pub combinations: Vec<Vec<u8>>,
}

/// A fillable position.
#[derive(Clone, Debug, PartialEq, Eq)]
pub struct Cell {
    /// Position of this cell in the list of cells.
    pub index: usize,
    pub row: usize,
    pub col: usize,
    /// Index of the vertical run through this cell.
    pub vertical: Option<usize>,
    /// Index of the horizontal run through this cell.
    pub horizontal: Option<usize>,
    /// The other cells of its two runs, ascending.
    pub siblings: Vec<usize>,
    /// The digit written here; 0 while there is none.
    pub value: u8,
    /// The digits that both runs allow, ascending.
    pub possible_values: Vec<u8>,
}

/// The runs and cells of one puzzle. They refer to each other by index.
#[derive(Clone, Debug, PartialEq, Eq)]
pub struct Puzzle {
    pub clues: Vec<Clue>,
    pub cells: Vec<Cell>,
}

/// What reading a puzzle text yields: the grid, and the runs and cells found
/// in it, not yet linked.
#[derive(Clone, Debug, PartialEq, Eq)]
pub struct ParsedPuzzle {
    pub grid: Vec<Vec<GridCell>>,
    pub puzzle: Puzzle,
}

/// Why a puzzle could not be set up.
#[derive(Clone, Copy, Debug, PartialEq, Eq)]
pub enum SetupError {
    /// The puzzle text is malformed at this row and column of the grid.
    PuzzleFormat { row: usize, column: usize },
    /// This line of the combination table is malformed.
    TableFormat { line: usize },
    /// This run has another number of cells than the puzzle text declares.
    RunLength { clue: usize },
    /// This cell lies in no run along `axis`.
    MissingRun { cell: usize, axis: Axis },
    /// The grid, the runs and the cells do not describe each other.
    Inconsistent,
    /// The table holds no combination for this run.
    UnsatisfiableClue { clue: usize },
    /// No digit is allowed by both runs of this cell.
    UnsatisfiableCell { cell: usize },
}

/// The kinds of faults.
#[derive(Clone, Copy, Debug, PartialEq, Eq, Structural)]
pub enum ErrorKind {
    /// A text is malformed.
    Format,
    /// Grid, runs and cells do not fit together.
    Graph,
    /// A run has no combination.
    UnsatisfiableClue,
    /// A cell has no candidate.
    UnsatisfiableCell,
}

impl SetupError {
    /// The kind of this fault.
    pub open spec fn kind_of(self) -> ErrorKind {
        match self {
            SetupError::PuzzleFormat { .. } | SetupError::TableFormat { .. } => ErrorKind::Format,
            SetupError::RunLength { .. } | SetupError::MissingRun { .. } | SetupError::Inconsistent => {
                ErrorKind::Graph
            },
            SetupError::UnsatisfiableClue { .. } => ErrorKind::UnsatisfiableClue,
            SetupError::UnsatisfiableCell { .. } => ErrorKind::UnsatisfiableCell,
        }
    }

    /// The kind of this fault.
    pub fn kind(&self) -> (k: ErrorKind)
        ensures
            k == self.kind_of(),
    {
        match self {
            SetupError::PuzzleFormat { .. } => ErrorKind::Format,
            SetupError::TableFormat { .. } => ErrorKind::Format,
            SetupError::RunLength { .. } => ErrorKind::Graph,
            SetupError::MissingRun { .. } => ErrorKind::Graph,
            SetupError::Inconsistent => ErrorKind::Graph,
            SetupError::UnsatisfiableClue { .. } => ErrorKind::UnsatisfiableClue,
            SetupError::UnsatisfiableCell { .. } => ErrorKind::UnsatisfiableCell,
        }
    }
}

/// A run as a mathematical value.
pub struct ClueView {
    pub index: usize,
    pub row: usize,
    pub col: usize,
    pub axis: Axis,
    pub sum: u8,
    pub length: u8,
    pub members: Seq<usize>,
    pub combinations: Seq<Seq<u8>>,
}

/// A cell as a mathematical value.
pub struct CellView {
    pub index: usize,
    pub row: usize,
    pub col: usize,
    pub vertical: Option<usize>,
    pub horizontal: Option<usize>,
    pub siblings: Seq<usize>,
    pub value: u8,
    pub possible_values: Seq<u8>,
}

/// The graph of runs and cells as a mathematical value.
pub struct PuzzleView {
    pub clues: Seq<ClueView>,
    pub cells: Seq<CellView>,
}

/// A grid with its unlinked runs and cells as a mathematical value.
pub struct ParsedView {
    pub grid: Seq<Seq<GridCell>>,
    pub puzzle: PuzzleView,
}

/// The sequences that a vector of vectors holds.
pub open spec fn nested_view<T>(v: Seq<Vec<T>>) -> Seq<Seq<T>> {
    Seq::new(v.len(), |i: int| v[i]@)
}

impl View for Clue {
    type V = ClueView;

    open spec fn view(&self) -> ClueView {
        ClueView {
            index: self.index,
            row: self.row,
            col: self.col,
            axis: self.axis,
            sum: self.sum,
            length: self.length,
            members: self.members@,
            combinations: nested_view(self.combinations@),
        }
    }
}

impl View for Cell {
    type V = CellView;

    open spec fn view(&self) -> CellView {
        CellView {
            index: self.index,
            row: self.row,
            col: self.col,
            vertical: self.vertical,
            horizontal: self.horizontal,
            siblings: self.siblings@,
            value: self.value,
            possible_values: self.possible_values@,
        }
    }
}

/// The sequence that holds what `goal` holds below index `k`, and what
/// `start` holds from there on.
pub open spec fn replaced_below<T>(start: Seq<T>, goal: Seq<T>, k: int) -> Seq<T> {
    Seq::new(
        start.len(),
        |i: int|
            if i < k {
                goal[i]
            } else {
                start[i]
            },
    )
}

/// The runs that a vector holds, each as a mathematical value.
pub open spec fn clues_view(v: Seq<Clue>) -> Seq<ClueView> {
    Seq::new(v.len(), |i: int| v[i]@)
}

/// The cells that a vector holds, each as a mathematical value.
pub open spec fn cells_view(v: Seq<Cell>) -> Seq<CellView> {
    Seq::new(v.len(), |i: int| v[i]@)
}

impl View for Puzzle {
    type V = PuzzleView;

    open spec fn view(&self) -> PuzzleView {
        PuzzleView { clues: clues_view(self.clues@), cells: cells_view(self.cells@) }
    }
}

impl View for ParsedPuzzle {
    type V = ParsedView;

    open spec fn view(&self) -> ParsedView {
        ParsedView { grid: nested_view(self.grid@), puzzle: self.puzzle@ }
    }
}

impl ClueView {
    /// The sum of the run with the number of cells it really has.
    pub open spec fn signature(self) -> Signature {
        Signature { sum: self.sum, length: self.members.len() as u8 }
    }

    /// The sum of the run with the number of cells declared for it.
    pub open spec fn declared(self) -> Signature {
        Signature { sum: self.sum, length: self.length }
    }
}

impl GridCell {
    /// The run that this position starts along `axis`.
    pub fn read_slot(&self, axis: Axis) -> (slot: Option<usize>)
        ensures
            slot == self.slot(axis),
    {
        match self {
            GridCell::Clue { vertical, horizontal } => match axis {
                Axis::Vertical => *vertical,
                Axis::Horizontal => *horizontal,
            },
            _ => None,
        }
    }
}

impl CellView {
    /// The run through this cell along `axis`.
    pub open spec fn parent(self, axis: Axis) -> Option<usize> {
        match axis {
            Axis::Vertical => self.vertical,
            Axis::Horizontal => self.horizontal,
        }
    }
}

} // verus!
