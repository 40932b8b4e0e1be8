//! The whole setup, from the two texts to the graph that a solver works on,
//! and what holds of every such graph.

use crate::derive::{
    candidates, combinations_valid, declared_signatures, distinct, distinct_signatures,
    set_possible_combinations, set_siblings_and_possible_values, signatures, unsatisfiable_cell, unsatisfiable_clue, with_candidates, with_combinations,
};
use crate::graph::{
    clue_connected, graph_of, insert_puzzle_and_connect_parents_and_children,
    lemma_connected_has_no_fault, lemma_linked_connected, lemma_parents_distinct, link_fault,
    linked, parents_distinct,
};
use crate::grid::{parse, parsed};
use crate::model::{ParsedView, Puzzle, PuzzleView, SetupError, Signature};
use crate::siblings::{siblings, siblings_mutual};
use crate::table::{digit_sum, table_of, valid_combination, LineView};
use vstd::prelude::*;

verus! {

/// The graph with the combinations of the table and with the siblings and
/// candidates of every cell.
pub open spec fn derived(p: PuzzleView, table: Seq<LineView>) -> PuzzleView {
    with_candidates(with_combinations(p, table))
}

/// What the two texts give: the finished graph, or the first fault. Faults
/// of the puzzle text come first, then faults of its graph, then faults of
/// the table text, then a run without a combination, then a cell without a
/// candidate.
pub open spec fn setup_of(puzzle_text: Seq<u8>, table_text: Seq<u8>) -> Result<
    PuzzleView,
    SetupError,
> {
    match graph_of(puzzle_text) {
        Err(e) => Err(e),
        Ok(graph) => match table_of(table_text) {
            Err(e) => Err(e),
            Ok(table) => match unsatisfiable_clue(with_combinations(graph, table).clues, 0) {
                Some(e) => Err(e),
                None => match unsatisfiable_cell(derived(graph, table).cells, 0) {
                    Some(e) => Err(e),
                    None => Ok(derived(graph, table)),
                },
            },
        },
    }
}

impl PuzzleView {
    /// What holds of a graph that is ready for a solver: runs and cells
    /// name each other, and the two runs of a cell differ; every run has
    /// combinations, each of as many distinct digits from 1 to 9 as the run
    /// has cells, adding up to its sum; every cell has its siblings, which
    /// have it as their sibling, and at least one candidate, and no digit
    /// yet.
    pub open spec fn ready(self) -> bool {
        &&& self.connected()
        &&& parents_distinct(self)
        &&& self.unassigned()
        &&& combinations_valid(self)
        &&& siblings_mutual(self)
        &&& forall|k: int|
            0 <= k < self.clues.len() ==> (#[trigger] self.clues[k]).combinations.len() > 0
        &&& forall|j: int|
            0 <= j < self.cells.len() ==> (#[trigger] self.cells[j]).possible_values.len() > 0
                && self.cells[j].possible_values == candidates(self, j)
                && self.cells[j].siblings == siblings(self, j)
    }
}

/// Where no run from `from` on is reported, each of them has a combination.
pub proof fn lemma_no_unsatisfiable_clue(p: PuzzleView, from: int)
    requires
        0 <= from,
        unsatisfiable_clue(p.clues, from) is None,
    ensures
        forall|k: int| from <= k < p.clues.len() ==> (#[trigger] p.clues[k]).combinations.len() > 0,
    decreases p.clues.len() - from,
{
    if from < p.clues.len() {
        lemma_no_unsatisfiable_clue(p, from + 1);
    }
}

/// Where no cell from `from` on is reported, each of them has a candidate.
pub proof fn lemma_no_unsatisfiable_cell(p: PuzzleView, from: int)
    requires
        0 <= from,
        unsatisfiable_cell(p.cells, from) is None,
    ensures
        forall|j: int|
            from <= j < p.cells.len() ==> (#[trigger] p.cells[j]).possible_values.len() > 0,
    decreases p.cells.len() - from,
{
    if from < p.cells.len() {
        lemma_no_unsatisfiable_cell(p, from + 1);
    }
}

/// Deriving the siblings and candidates of a graph that has them changes
/// nothing.
pub proof fn lemma_candidates_idempotent(p: PuzzleView)
    ensures
        with_candidates(with_candidates(p)) == with_candidates(p),
{
    let q = with_candidates(p);
    let r = with_candidates(q);
    assert forall|j: int| 0 <= j < q.cells.len() implies r.cells[j] == q.cells[j] by {
        assert(siblings(q, j) == siblings(p, j));
        assert(candidates(q, j) == candidates(p, j));
    }
    assert(r.cells =~= q.cells);
}

/// Running the derivation a second time on its own result, with the same
/// table, gives that result again: the same combinations, siblings and
/// candidates.
pub proof fn lemma_derived_idempotent(p: PuzzleView, table: Seq<LineView>)
    ensures
        derived(derived(p, table), table) == derived(p, table),
{
    let c = with_combinations(p, table);
    let q = derived(p, table);
    let c2 = with_combinations(q, table);
    assert(c2.clues =~= c.clues);
    let r = with_candidates(c2);
    assert forall|j: int| 0 <= j < q.cells.len() implies r.cells[j] == q.cells[j] by {
        assert(siblings(c2, j) == siblings(c, j));
        assert(candidates(c2, j) == candidates(c, j));
    }
    assert(r.cells =~= q.cells);
}

/// In a linked graph whose combinations are valid, every run has as many
/// cells as the puzzle text declares for it, and every combination of the
/// run has as many digits as the run has cells, all from 1 to 9, no two
/// equal, adding up to the sum of the run.
pub proof fn lemma_runs_and_combinations(p: PuzzleView, k: int, i: int)
    requires
        p.connected(),
        combinations_valid(p),
        0 <= k < p.clues.len(),
        0 <= i < p.clues[k].combinations.len(),
    ensures
        p.clues[k].members.len() == p.clues[k].length,
        p.clues[k].combinations[i].len() == p.clues[k].members.len(),
        p.clues[k].combinations[i].no_duplicates(),
        forall|a: int|
            0 <= a < p.clues[k].combinations[i].len() ==> 1 <= #[trigger] p.clues[k].combinations[i][a]
                <= 9,
        digit_sum(p.clues[k].combinations[i]) == p.clues[k].sum,
{
    assert(clue_connected(p, k));
    assert(valid_combination(p.clues[k].declared(), p.clues[k].combinations[i]));
}

/// The runs of a grid that links without a fault have the sums and lengths
/// that the puzzle text declares, run by run.
pub proof fn lemma_runs_as_declared(grid: ParsedView)
    requires
        grid.well_formed(),
        link_fault(linked(grid)) is None,
    ensures
        signatures(linked(grid).clues) == declared_signatures(grid.puzzle.clues),
{
    lemma_linked_connected(grid);
    let q = linked(grid);
    assert forall|k: int| 0 <= k < q.clues.len() implies signatures(q.clues)[k]
        == declared_signatures(grid.puzzle.clues)[k] by {
        assert(clue_connected(q, k));
    }
    assert(signatures(q.clues) =~= declared_signatures(grid.puzzle.clues));
}

/// Reads a puzzle text and lists the signatures that it declares, each
/// once, where it first occurs.
pub fn insert_puzzle(text: &[u8]) -> (r: Result<Vec<Signature>, SetupError>)
    ensures
        match parsed(text@) {
            Ok(v) => r matches Ok(list) && list@ == distinct(
                declared_signatures(v.puzzle.clues),
                v.puzzle.clues.len() as int,
            ),
            Err(e) => r == Err::<Vec<Signature>, SetupError>(e),
        },
{
    match parse(text) {
        Err(e) => Err(e),
        Ok(grid) => {
            let mut sigs: Vec<Signature> = Vec::new();
            let mut k: usize = 0;
            while k < grid.puzzle.clues.len()
                invariant
                    k <= grid.puzzle.clues@.len(),
                    sigs@ == declared_signatures(grid@.puzzle.clues).take(k as int),
                decreases grid.puzzle.clues@.len() - k,
            {
                let sig = Signature {
                    sum: grid.puzzle.clues[k].sum,
                    length: grid.puzzle.clues[k].length,
                };
                proof {
                    assert(grid@.puzzle.clues[k as int] == grid.puzzle.clues@[k as int]@);
                    assert(sigs@.push(sig) =~= declared_signatures(grid@.puzzle.clues).take(k + 1));
                }
                sigs.push(sig);
                k = k + 1;
            }
            proof {
                assert(sigs@ =~= declared_signatures(grid@.puzzle.clues));
            }
            Ok(distinct_signatures(&sigs))
        },
    }
}

/// Sets a puzzle up: reads the puzzle text and links its runs and cells,
/// reads the table text and gives every run its combinations, and gives
/// every cell its siblings and candidates. The first fault ends the setup.
pub fn puzzle_setup(puzzle_text: &[u8], table_text: &[u8]) -> (r: Result<Puzzle, SetupError>)
    ensures
        match setup_of(puzzle_text@, table_text@) {
            Ok(v) => r matches Ok(p) && p@ == v && v.ready(),
            Err(e) => r == Err::<Puzzle, SetupError>(e),
        },
{
    let mut puzzle = match insert_puzzle_and_connect_parents_and_children(puzzle_text) {
        Ok(puzzle) => puzzle,
        Err(e) => {
            return Err(e);
        },
    };
    proof {
        lemma_connected_has_no_fault(puzzle@);
    }
    match set_possible_combinations(&mut puzzle, table_text) {
        Ok(()) => {},
        Err(e) => {
            return Err(e);
        },
    }
    let ghost clued = puzzle@;
    proof {
        lemma_connected_has_no_fault(clued);
    }
    match set_siblings_and_possible_values(&mut puzzle) {
        Ok(()) => {},
        Err(e) => {
            return Err(e);
        },
    }
    proof {
        lemma_parents_distinct(puzzle@);
        lemma_no_unsatisfiable_clue(clued, 0);
        lemma_no_unsatisfiable_cell(puzzle@, 0);
        lemma_candidates_idempotent(clued);
        let v = puzzle@;
        assert forall|j: int| 0 <= j < v.cells.len() implies (#[trigger] v.cells[j]).possible_values
            == candidates(v, j) && v.cells[j].siblings == siblings(v, j) by {
            assert(with_candidates(v).cells[j] == v.cells[j]);
        }
    }
    Ok(puzzle)
}

} // verus!
