//! Candidate derivation: every run gets its combinations from the table,
//! and every cell gets its siblings and the digits that both of its runs
//! allow.

use crate::graph::{cell_connected, cell_in_run, check_graph, clue_connected, graph_fault};
use crate::model::{
    nested_view, replaced_below, Axis, CellView, ClueView, Puzzle, PuzzleView, SetupError,
    Signature,
};
use crate::siblings::{
    has_siblings, lemma_siblings_mutual, lemma_with_siblings, set_siblings, siblings,
    siblings_mutual, with_siblings,
};
use crate::table::{
    all_valid, combinations_for, get_possible_sum_combinations, is_needed,
    lemma_combinations_valid, lemma_restricted_keeps_needed, table_of, valid_combination,
    CombinationTable, LineView,
};
use vstd::prelude::*;

verus! {

/// The signatures of the runs: each sum with the number of cells that the
/// run has.
pub open spec fn signatures(clues: Seq<ClueView>) -> Seq<Signature> {
    Seq::new(clues.len(), |k: int| clues[k].signature())
}

/// The signatures that the puzzle text declares for the runs.
pub open spec fn declared_signatures(clues: Seq<ClueView>) -> Seq<Signature> {
    Seq::new(clues.len(), |k: int| clues[k].declared())
}

/// The first `n` signatures without repetitions, each where it first
/// occurs.
pub open spec fn distinct(sigs: Seq<Signature>, n: int) -> Seq<Signature>
    decreases n,
{
    if n <= 0 {
        Seq::empty()
    } else {
        let before = distinct(sigs, n - 1);
        if before.contains(sigs[n - 1]) {
            before
        } else {
            before.push(sigs[n - 1])
        }
    }
}

/// The graph in which every run holds the combinations that the table lists
/// for its signature.
pub open spec fn with_combinations(p: PuzzleView, table: Seq<LineView>) -> PuzzleView {
    PuzzleView {
        clues: Seq::new(
            p.clues.len(),
            |k: int|
                ClueView {
                    combinations: combinations_for(table, p.clues[k].signature()),
                    ..p.clues[k]
                },
        ),
        cells: p.cells,
    }
}

/// The first run, from index `from` on, that has no combination, as the
/// error that reports it.
pub open spec fn unsatisfiable_clue(clues: Seq<ClueView>, from: int) -> Option<SetupError>
    decreases clues.len() - from,
{
    if from < 0 || from >= clues.len() {
        None
    } else if clues[from].combinations.len() == 0 {
        Some(SetupError::UnsatisfiableClue { clue: from as usize })
    } else {
        unsatisfiable_clue(clues, from + 1)
    }
}

/// The first cell, from index `from` on, that has no candidate, as the
/// error that reports it.
pub open spec fn unsatisfiable_cell(cells: Seq<CellView>, from: int) -> Option<SetupError>
    decreases cells.len() - from,
{
    if from < 0 || from >= cells.len() {
        None
    } else if cells[from].possible_values.len() == 0 {
        Some(SetupError::UnsatisfiableCell { cell: from as usize })
    } else {
        unsatisfiable_cell(cells, from + 1)
    }
}

/// The digit `d` occurs in one of the combinations.
pub open spec fn occurs(combinations: Seq<Seq<u8>>, d: u8) -> bool {
    exists|i: int, k: int|
        0 <= i < combinations.len() && 0 <= k < combinations[i].len() && #[trigger] combinations[i][k]
            == d
}

/// The digits from 1 up to, but not including, `n` that occur in a
/// combination of the one run and in a combination of the other, ascending.
pub open spec fn common_digits(vertical: Seq<Seq<u8>>, horizontal: Seq<Seq<u8>>, n: int) -> Seq<u8>
    decreases n,
{
    if n <= 1 {
        Seq::empty()
    } else {
        let before = common_digits(vertical, horizontal, n - 1);
        if occurs(vertical, (n - 1) as u8) && occurs(horizontal, (n - 1) as u8) {
            before.push((n - 1) as u8)
        } else {
            before
        }
    }
}

/// The candidates of the cell `j`: the digits from 1 to 9 that a combination
/// of its vertical run holds and a combination of its horizontal run holds.
pub open spec fn candidates(p: PuzzleView, j: int) -> Seq<u8> {
    match (p.cells[j].vertical, p.cells[j].horizontal) {
        (Some(v), Some(h)) => common_digits(
            p.clues[v as int].combinations,
            p.clues[h as int].combinations,
            10,
        ),
        _ => Seq::empty(),
    }
}

/// The graph in which every cell holds its siblings and its candidates.
pub open spec fn with_candidates(p: PuzzleView) -> PuzzleView {
    PuzzleView {
        clues: p.clues,
        cells: Seq::new(
            p.cells.len(),
            |j: int|
                CellView {
                    siblings: siblings(p, j),
                    possible_values: candidates(p, j),
                    ..p.cells[j]
                },
        ),
    }
}

/// Every combination of every run is a combination for what the run
/// declares: as many distinct digits from 1 to 9 as it has cells, adding up
/// to its sum.
pub open spec fn combinations_valid(p: PuzzleView) -> bool {
    forall|k: int, i: int|
        0 <= k < p.clues.len() && 0 <= i < p.clues[k].combinations.len() ==> valid_combination(
            p.clues[k].declared(),
            #[trigger] p.clues[k].combinations[i],
        )
}

/// Giving the runs their combinations leaves them linked to their cells.
pub proof fn lemma_with_combinations_connected(p: PuzzleView, table: Seq<LineView>)
    requires
        p.connected(),
    ensures
        with_combinations(p, table).connected(),
{
    let q = with_combinations(p, table);
    assert forall|k: int| 0 <= k < q.clues.len() implies #[trigger] clue_connected(q, k) by {
        assert(clue_connected(p, k));
    }
    assert forall|j: int| 0 <= j < q.cells.len() implies #[trigger] cell_connected(q, j) by {
        assert(cell_connected(p, j));
    }
}

/// Giving the cells their siblings and candidates leaves them linked to
/// their runs.
pub proof fn lemma_with_candidates_connected(p: PuzzleView)
    requires
        p.connected(),
    ensures
        with_candidates(p).connected(),
{
    let q = with_candidates(p);
    assert forall|k: int| 0 <= k < q.clues.len() implies #[trigger] clue_connected(q, k) by {
        assert(clue_connected(p, k));
    }
    assert forall|j: int| 0 <= j < q.cells.len() implies #[trigger] cell_connected(q, j) by {
        assert(cell_connected(p, j));
    }
}

/// With a table of valid lines, the combinations that the runs get are
/// valid.
pub proof fn lemma_with_combinations_valid(p: PuzzleView, table: Seq<LineView>)
    requires
        p.connected(),
        all_valid(table),
    ensures
        combinations_valid(with_combinations(p, table)),
{
    let q = with_combinations(p, table);
    assert forall|k: int, i: int|
        0 <= k < q.clues.len() && 0 <= i < q.clues[k].combinations.len() implies valid_combination(
        q.clues[k].declared(),
        #[trigger] q.clues[k].combinations[i],
    ) by {
        assert(clue_connected(p, k));
        lemma_combinations_valid(table, p.clues[k].signature());
    }
}

/// After the siblings were derived, every cell holds them.
pub proof fn lemma_with_candidates_has_siblings(p: PuzzleView)
    ensures
        has_siblings(with_candidates(p)),
{
    let q = with_candidates(p);
    assert forall|j: int| 0 <= j < q.cells.len() implies (#[trigger] q.cells[j]).siblings
        == siblings(q, j) by {
        assert(siblings(q, j) == siblings(p, j));
    }
}

/// The siblings that are derived for a linked graph are mutual.
pub proof fn lemma_with_candidates_mutual(p: PuzzleView)
    requires
        p.connected(),
    ensures
        siblings_mutual(with_candidates(p)),
{
    lemma_with_candidates_connected(p);
    lemma_with_candidates_has_siblings(p);
    lemma_siblings_mutual(with_candidates(p));
}

/// Tells whether the digit `d` occurs in one of the combinations.
pub fn uses_digit(combinations: &Vec<Vec<u8>>, d: u8) -> (r: bool)
    ensures
        r == occurs(nested_view(combinations@), d),
{
    let ghost all = nested_view(combinations@);
    let mut i: usize = 0;
    while i < combinations.len()
        invariant
            i <= combinations@.len(),
            all == nested_view(combinations@),
            forall|a: int, b: int| 0 <= a < i && 0 <= b < all[a].len() ==> #[trigger] all[a][b] != d,
        decreases combinations@.len() - i,
    {
        let mut k: usize = 0;
        while k < combinations[i].len()
            invariant
                i < combinations@.len(),
                all == nested_view(combinations@),
                k <= all[i as int].len(),
                forall|b: int| 0 <= b < k ==> all[i as int][b] != d,
            decreases all[i as int].len() - k,
        {
            if combinations[i][k] == d {
                assert(all[i as int][k as int] == d);
                return true;
            }
            k = k + 1;
        }
        i = i + 1;
    }
    false
}

/// The digits from 1 to 9 that occur in a combination of the one run and in
/// a combination of the other.
pub fn common_candidates(vertical: &Vec<Vec<u8>>, horizontal: &Vec<Vec<u8>>) -> (out: Vec<u8>)
    ensures
        out@ == common_digits(nested_view(vertical@), nested_view(horizontal@), 10),
{
    let mut out: Vec<u8> = Vec::new();
    let mut d: u8 = 1;
    while d < 10
        invariant
            1 <= d <= 10,
            out@ == common_digits(nested_view(vertical@), nested_view(horizontal@), d as int),
        decreases 10 - d,
    {
        if uses_digit(vertical, d) && uses_digit(horizontal, d) {
            out.push(d);
        }
        d = d + 1;
    }
    out
}

/// The signatures of a list without repetitions, each where it first
/// occurs.
pub fn distinct_signatures(sigs: &Vec<Signature>) -> (out: Vec<Signature>)
    ensures
        out@ == distinct(sigs@, sigs@.len() as int),
{
    let mut out: Vec<Signature> = Vec::new();
    let mut i: usize = 0;
    while i < sigs.len()
        invariant
            i <= sigs@.len(),
            out@ == distinct(sigs@, i as int),
        decreases sigs@.len() - i,
    {
        if !is_needed(&out, sigs[i]) {
            out.push(sigs[i]);
        }
        i = i + 1;
    }
    out
}

/// The signatures under which the combinations of the runs are looked up,
/// without repetitions; the fault of the graph, where it has one.
pub fn needed_signatures(puzzle: &Puzzle) -> (r: Result<Vec<Signature>, SetupError>)
    ensures
        match graph_fault(puzzle@) {
            Some(e) => r == Err::<Vec<Signature>, SetupError>(e),
            None => r matches Ok(out) && out@ == distinct(
                signatures(puzzle@.clues),
                puzzle@.clues.len() as int,
            ),
        },
{
    match check_graph(puzzle) {
        Some(e) => Err(e),
        None => Ok(needed_of(puzzle)),
    }
}

fn needed_of(puzzle: &Puzzle) -> (out: Vec<Signature>)
    requires
        puzzle@.connected(),
    ensures
        out@ == distinct(signatures(puzzle@.clues), puzzle@.clues.len() as int),
{
    let mut sigs: Vec<Signature> = Vec::new();
    let mut k: usize = 0;
    while k < puzzle.clues.len()
        invariant
            k <= puzzle.clues@.len(),
            puzzle@.connected(),
            sigs@ == signatures(puzzle@.clues).take(k as int),
        decreases puzzle.clues@.len() - k,
    {
        let sig = run_signature(puzzle, k);
        proof {
            assert(sigs@.push(sig) =~= signatures(puzzle@.clues).take(k + 1));
        }
        sigs.push(sig);
        k = k + 1;
    }
    proof {
        assert(sigs@ =~= signatures(puzzle@.clues));
    }
    distinct_signatures(&sigs)
}

/// The sum of the run `k` with the number of its cells.
fn run_signature(puzzle: &Puzzle, k: usize) -> (sig: Signature)
    requires
        puzzle@.connected(),
        k < puzzle@.clues.len(),
    ensures
        sig == puzzle@.clues[k as int].signature(),
        sig == puzzle@.clues[k as int].declared(),
{
    assert(clue_connected(puzzle@, k as int));
    assert(puzzle@.clues[k as int] == puzzle.clues@[k as int]@);
    Signature { sum: puzzle.clues[k].sum, length: puzzle.clues[k].members.len() as u8 }
}

/// Looks for a run without a combination.
pub fn check_combinations(puzzle: &Puzzle) -> (fault: Option<SetupError>)
    ensures
        fault == unsatisfiable_clue(puzzle@.clues, 0),
{
    let mut k: usize = 0;
    while k < puzzle.clues.len()
        invariant
            k <= puzzle.clues@.len(),
            unsatisfiable_clue(puzzle@.clues, k as int) == unsatisfiable_clue(puzzle@.clues, 0),
        decreases puzzle.clues@.len() - k,
    {
        assert(puzzle@.clues[k as int] == puzzle.clues@[k as int]@);
        if puzzle.clues[k].combinations.len() == 0 {
            return Some(SetupError::UnsatisfiableClue { clue: k });
        }
        k = k + 1;
    }
    None
}

/// Looks for a cell without a candidate.
pub fn check_candidates(puzzle: &Puzzle) -> (fault: Option<SetupError>)
    ensures
        fault == unsatisfiable_cell(puzzle@.cells, 0),
{
    let mut j: usize = 0;
    while j < puzzle.cells.len()
        invariant
            j <= puzzle.cells@.len(),
            unsatisfiable_cell(puzzle@.cells, j as int) == unsatisfiable_cell(puzzle@.cells, 0),
        decreases puzzle.cells@.len() - j,
    {
        assert(puzzle@.cells[j as int] == puzzle.cells@[j as int]@);
        if puzzle.cells[j].possible_values.len() == 0 {
            return Some(SetupError::UnsatisfiableCell { cell: j });
        }
        j = j + 1;
    }
    None
}

/// What a check found, as a result.
pub open spec fn outcome(fault: Option<SetupError>) -> Result<(), SetupError> {
    match fault {
        Some(e) => Err(e),
        None => Ok(()),
    }
}

fn report(fault: Option<SetupError>) -> (r: Result<(), SetupError>)
    ensures
        r == outcome(fault),
{
    match fault {
        Some(e) => Err(e),
        None => Ok(()),
    }
}

/// Gives every run the combinations that the table lists for its sum and
/// its number of cells, as the table lists them. A run for which the table
/// lists none is left without combinations; the first such run is reported.
/// A graph with a fault is left as it is, and the fault is reported.
pub fn assign_combinations(puzzle: &mut Puzzle, table: &CombinationTable) -> (r: Result<
    (),
    SetupError,
>)
    ensures
        match graph_fault(old(puzzle)@) {
            Some(e) => r == Err::<(), SetupError>(e) && final(puzzle)@ == old(puzzle)@,
            None => final(puzzle)@ == with_combinations(old(puzzle)@, table@)
                && final(puzzle)@.connected() && combinations_valid(final(puzzle)@) && r
                == outcome(unsatisfiable_clue(final(puzzle)@.clues, 0)),
        },
{
    match check_graph(puzzle) {
        Some(e) => Err(e),
        None => assign(puzzle, table),
    }
}

fn assign(puzzle: &mut Puzzle, table: &CombinationTable) -> (r: Result<(), SetupError>)
    requires
        old(puzzle)@.connected(),
    ensures
        final(puzzle)@ == with_combinations(old(puzzle)@, table@),
        final(puzzle)@.connected(),
        combinations_valid(final(puzzle)@),
        r == outcome(unsatisfiable_clue(final(puzzle)@.clues, 0)),
{
    let ghost start = puzzle@;
    let ghost goal = with_combinations(start, table@);
    let mut k: usize = 0;
    proof {
        assert(puzzle@.clues =~= replaced_below(start.clues, goal.clues, 0));
    }
    while k < puzzle.clues.len()
        invariant
            k <= puzzle.clues@.len(),
            puzzle.clues@.len() == start.clues.len(),
            start.connected(),
            goal == with_combinations(start, table@),
            puzzle@.cells == start.cells,
            k > 0 ==> all_valid(table@),
            puzzle@.clues == replaced_below(start.clues, goal.clues, k as int),
        decreases puzzle.clues@.len() - k,
    {
        let ghost mid = puzzle@;
        let ghost clues_mid = puzzle.clues@;
        assert(mid.clues[k as int] == clues_mid[k as int]@);
        assert(clue_connected(start, k as int));
        let sig = Signature { sum: puzzle.clues[k].sum, length: puzzle.clues[k].members.len() as u8 };
        assert(sig == start.clues[k as int].signature());
        let found = match table.lookup(sig) {
            Some(found) => found,
            None => Vec::new(),
        };
        proof {
            assert(nested_view(found@) =~= combinations_for(table@, sig));
        }
        puzzle.clues[k].combinations = found;
        proof {
            assert(puzzle@.cells =~= mid.cells);
            assert forall|i: int| 0 <= i < start.clues.len() implies (#[trigger] puzzle@.clues[i])
                == replaced_below(start.clues, goal.clues, k + 1)[i] by {
                if i != k {
                    assert(puzzle.clues@[i] == clues_mid[i]);
                    assert(puzzle@.clues[i] == mid.clues[i]);
                } else {
                    assert(puzzle@.clues[i] == puzzle.clues@[i]@);
                }
            }
            assert(puzzle@.clues =~= replaced_below(start.clues, goal.clues, k + 1));
        }
        k = k + 1;
    }
    proof {
        assert(puzzle@.clues =~= goal.clues);
        lemma_with_combinations_connected(start, table@);
        if k > 0 {
            lemma_with_combinations_valid(start, table@);
        }
    }
    report(check_combinations(puzzle))
}

/// What the list without repetitions holds: every one of the first `n`
/// signatures, nothing else, and nothing twice.
pub proof fn lemma_distinct(sigs: Seq<Signature>, n: int)
    requires
        0 <= n <= sigs.len(),
    ensures
        distinct(sigs, n).no_duplicates(),
        forall|k: int| 0 <= k < n ==> distinct(sigs, n).contains(#[trigger] sigs[k]),
        forall|i: int|
            0 <= i < distinct(sigs, n).len() ==> sigs.take(n).contains(
                #[trigger] distinct(sigs, n)[i],
            ),
    decreases n,
{
    if n > 0 {
        lemma_distinct(sigs, n - 1);
        let before = distinct(sigs, n - 1);
        let here = distinct(sigs, n);
        let last = sigs[n - 1];
        assert(sigs.take(n)[n - 1] == last);
        assert forall|k: int| 0 <= k < n implies here.contains(#[trigger] sigs[k]) by {
            if k < n - 1 {
                let i = choose|i: int| 0 <= i < before.len() && before[i] == sigs[k];
                assert(here[i] == sigs[k]);
            } else if before.contains(last) {
            } else {
                assert(here[before.len() as int] == last);
            }
        }
        assert forall|i: int| 0 <= i < here.len() implies sigs.take(n).contains(
            #[trigger] here[i],
        ) by {
            if i < before.len() {
                let shorter = sigs.take(n - 1);
                let k = choose|k: int| 0 <= k < shorter.len() && shorter[k] == before[i];
                assert(sigs.take(n)[k] == here[i]);
            }
        }
    }
}

/// What the list of common digits holds: the digits from 1 below `n` that
/// occur in both runs, each once and in ascending order.
pub proof fn lemma_common_digits(vertical: Seq<Seq<u8>>, horizontal: Seq<Seq<u8>>, n: int)
    requires
        1 <= n <= 256,
    ensures
        forall|d: u8|
            #![trigger common_digits(vertical, horizontal, n).contains(d)]
            common_digits(vertical, horizontal, n).contains(d) <==> (1 <= d < n && occurs(
                vertical,
                d,
            ) && occurs(horizontal, d)),
        forall|a: int, b: int|
            0 <= a < b < common_digits(vertical, horizontal, n).len() ==> common_digits(
                vertical,
                horizontal,
                n,
            )[a] < common_digits(vertical, horizontal, n)[b],
        forall|a: int|
            0 <= a < common_digits(vertical, horizontal, n).len() ==> 1 <= (
            #[trigger] common_digits(vertical, horizontal, n)[a]) < n,
    decreases n,
{
    if n > 1 {
        lemma_common_digits(vertical, horizontal, n - 1);
        let before = common_digits(vertical, horizontal, n - 1);
        let here = common_digits(vertical, horizontal, n);
        let last = (n - 1) as u8;
        let pushed = occurs(vertical, last) && occurs(horizontal, last);
        assert(pushed ==> here == before.push(last));
        assert(!pushed ==> here == before);
        assert forall|d: u8| here.contains(d) implies (1 <= d < n && occurs(vertical, d) && occurs(
            horizontal,
            d,
        )) by {
            let i = choose|i: int| 0 <= i < here.len() && here[i] == d;
            if pushed && i == before.len() {
                assert(d == last);
            } else {
                assert(before[i] == d);
                assert(before.contains(d));
            }
        }
        assert forall|d: u8|
            (1 <= d < n && occurs(vertical, d) && occurs(horizontal, d)) implies here.contains(
            d,
        ) by {
            if d == last {
                assert(here[before.len() as int] == d);
            } else {
                assert(before.contains(d));
                let i = choose|i: int| 0 <= i < before.len() && before[i] == d;
                assert(here[i] == d);
            }
        }
        assert forall|a: int, b: int| 0 <= a < b < here.len() implies here[a] < here[b] by {
            if pushed && b == before.len() {
                assert(before[a] < n - 1);
            } else {
                assert(before[a] < before[b]);
            }
        }
    }
}

/// Reads the table text, keeps the lines that the runs of the puzzle need,
/// and gives every run its combinations. A graph with a fault, and a table
/// text that cannot be read, leave the puzzle as it is.
pub fn set_possible_combinations(puzzle: &mut Puzzle, table_text: &[u8]) -> (r: Result<
    (),
    SetupError,
>)
    ensures
        match graph_fault(old(puzzle)@) {
            Some(e) => r == Err::<(), SetupError>(e) && final(puzzle)@ == old(puzzle)@,
            None => match table_of(table_text@) {
                Err(e) => r == Err::<(), SetupError>(e) && final(puzzle)@ == old(puzzle)@,
                Ok(all) => final(puzzle)@ == with_combinations(old(puzzle)@, all)
                    && final(puzzle)@.connected() && combinations_valid(final(puzzle)@) && r
                    == outcome(unsatisfiable_clue(final(puzzle)@.clues, 0)),
            },
        },
{
    match check_graph(puzzle) {
        Some(e) => {
            return Err(e);
        },
        None => {},
    }
    let needed = needed_of(puzzle);
    match get_possible_sum_combinations(&needed, table_text) {
        Err(e) => Err(e),
        Ok(table) => {
            proof {
                let all = table_of(table_text@)->Ok_0;
                let p = puzzle@;
                let sigs = signatures(p.clues);
                assert forall|k: int| 0 <= k < p.clues.len() implies combinations_for(
                    table@,
                    #[trigger] p.clues[k].signature(),
                ) == combinations_for(all, p.clues[k].signature()) by {
                    lemma_distinct(sigs, sigs.len() as int);
                    assert(sigs[k] == p.clues[k].signature());
                    lemma_restricted_keeps_needed(all, needed@, p.clues[k].signature());
                }
                assert(with_combinations(p, table@).clues =~= with_combinations(p, all).clues);
            }
            assign(puzzle, &table)
        },
    }
}

/// Gives every cell its siblings, which are the other cells of its two
/// runs in ascending order, and its candidates, which are the digits from 1
/// to 9 that occur in a combination of its vertical run and in a
/// combination of its horizontal run, in ascending order. The first cell
/// without a candidate is reported. A graph with a fault, such as a cell
/// that lies in no run in one of the directions, is left as it is, and the
/// fault is reported.
pub fn set_siblings_and_possible_values(puzzle: &mut Puzzle) -> (r: Result<(), SetupError>)
    ensures
        match graph_fault(old(puzzle)@) {
            Some(e) => r == Err::<(), SetupError>(e) && final(puzzle)@ == old(puzzle)@,
            None => final(puzzle)@ == with_candidates(old(puzzle)@) && final(puzzle)@.connected()
                && siblings_mutual(final(puzzle)@) && r == outcome(
                unsatisfiable_cell(final(puzzle)@.cells, 0),
            ),
        },
{
    match check_graph(puzzle) {
        Some(e) => Err(e),
        None => fill_cells(puzzle),
    }
}

fn fill_cells(puzzle: &mut Puzzle) -> (r: Result<(), SetupError>)
    requires
        old(puzzle)@.connected(),
    ensures
        final(puzzle)@ == with_candidates(old(puzzle)@),
        final(puzzle)@.connected(),
        siblings_mutual(final(puzzle)@),
        r == outcome(unsatisfiable_cell(final(puzzle)@.cells, 0)),
{
    let ghost before = puzzle@;
    set_siblings(puzzle);
    let ghost start = puzzle@;
    let ghost goal = with_candidates(before);
    let n = puzzle.cells.len();
    let mut j: usize = 0;
    proof {
        lemma_with_siblings(before);
        assert(puzzle@.cells =~= replaced_below(start.cells, goal.cells, 0));
    }
    while j < n
        invariant
            j <= n,
            n == puzzle.cells@.len(),
            n == start.cells.len(),
            puzzle.clues@.len() == start.clues.len(),
            start == with_siblings(before),
            start.connected(),
            goal == with_candidates(before),
            puzzle@.clues == start.clues,
            puzzle@.cells == replaced_below(start.cells, goal.cells, j as int),
        decreases n - j,
    {
        let ghost mid = puzzle@;
        let ghost cells_mid = puzzle.cells@;
        proof {
            assert(mid.cells[j as int] == cells_mid[j as int]@);
            assert(cell_connected(start, j as int));
            assert(cell_in_run(start, j as int, Axis::Vertical));
            assert(cell_in_run(start, j as int, Axis::Horizontal));
        }
        let v = puzzle.cells[j].vertical.unwrap();
        let h = puzzle.cells[j].horizontal.unwrap();
        proof {
            assert(mid.clues[v as int] == puzzle.clues@[v as int]@);
            assert(mid.clues[h as int] == puzzle.clues@[h as int]@);
        }
        let common = common_candidates(
            &puzzle.clues[v].combinations,
            &puzzle.clues[h].combinations,
        );
        puzzle.cells[j].possible_values = common;
        proof {
            assert(puzzle@.clues =~= mid.clues);
            assert forall|i: int| 0 <= i < start.cells.len() implies (#[trigger] puzzle@.cells[i])
                == replaced_below(start.cells, goal.cells, j + 1)[i] by {
                if i != j {
                    assert(puzzle.cells@[i] == cells_mid[i]);
                    assert(puzzle@.cells[i] == mid.cells[i]);
                } else {
                    assert(puzzle@.cells[i] == puzzle.cells@[i]@);
                }
            }
            assert(puzzle@.cells =~= replaced_below(start.cells, goal.cells, j + 1));
        }
        j = j + 1;
    }
    proof {
        assert(puzzle@.cells =~= goal.cells);
        lemma_with_candidates_connected(before);
        lemma_with_candidates_mutual(before);
    }
    report(check_candidates(puzzle))
}

/// What `derive` reports: a run without a combination comes before a cell
/// without a candidate.
pub open spec fn derive_fault(p: PuzzleView) -> Option<SetupError> {
    match unsatisfiable_clue(p.clues, 0) {
        Some(e) => Some(e),
        None => unsatisfiable_cell(p.cells, 0),
    }
}

/// Gives every run its combinations from the table, then every cell its
/// siblings and its candidates. Both steps are carried out whatever they
/// find; the first run without a combination is reported, or else the
/// first cell without a candidate. A graph with a fault is left as it is,
/// and the fault is reported.
pub fn derive(puzzle: &mut Puzzle, table: &CombinationTable) -> (r: Result<(), SetupError>)
    ensures
        match graph_fault(old(puzzle)@) {
            Some(e) => r == Err::<(), SetupError>(e) && final(puzzle)@ == old(puzzle)@,
            None => final(puzzle)@ == with_candidates(with_combinations(old(puzzle)@, table@))
                && final(puzzle)@.connected() && combinations_valid(final(puzzle)@)
                && siblings_mutual(final(puzzle)@) && r == outcome(
                derive_fault(final(puzzle)@),
            ),
        },
{
    match check_graph(puzzle) {
        Some(e) => {
            return Err(e);
        },
        None => {},
    }
    let runs = assign(puzzle, table);
    let cells = fill_cells(puzzle);
    match runs {
        Err(e) => Err(e),
        Ok(()) => cells,
    }
}

} // verus!
