//! Siblings: for every cell, the other cells of its two runs.

use crate::graph::{cell_connected, cell_in_run, clue_connected};
use crate::model::{replaced_below, Axis, CellView, Puzzle, PuzzleView};
use vstd::prelude::*;

verus! {

/// The cell indices below `n`, other than `j`, that are among the cells of
/// the one run or of the other, ascending.
pub open spec fn sharing(vertical: Seq<usize>, horizontal: Seq<usize>, j: int, n: int) -> Seq<
    usize,
>
    decreases n,
{
    if n <= 0 {
        Seq::empty()
    } else {
        let before = sharing(vertical, horizontal, j, n - 1);
        if n - 1 != j && (vertical.contains((n - 1) as usize) || horizontal.contains(
            (n - 1) as usize,
        )) {
            before.push((n - 1) as usize)
        } else {
            before
        }
    }
}

/// The siblings of the cell `j`: the other cells of its two runs.
pub open spec fn siblings(p: PuzzleView, j: int) -> Seq<usize> {
    match (p.cells[j].vertical, p.cells[j].horizontal) {
        (Some(v), Some(h)) => sharing(
            p.clues[v as int].members,
            p.clues[h as int].members,
            j,
            p.cells.len() as int,
        ),
        _ => Seq::empty(),
    }
}

/// The graph in which every cell holds its siblings.
pub open spec fn with_siblings(p: PuzzleView) -> PuzzleView {
    PuzzleView {
        clues: p.clues,
        cells: Seq::new(p.cells.len(), |j: int| CellView { siblings: siblings(p, j), ..p.cells[j] }),
    }
}

/// Every cell holds its siblings.
pub open spec fn has_siblings(p: PuzzleView) -> bool {
    forall|j: int| 0 <= j < p.cells.len() ==> (#[trigger] p.cells[j]).siblings == siblings(p, j)
}

/// No cell is its own sibling, and where `b` is a sibling of `a`, `a` is a
/// sibling of `b`.
pub open spec fn siblings_mutual(p: PuzzleView) -> bool {
    forall|a: usize, b: usize|
        a < p.cells.len() && #[trigger] p.cells[a as int].siblings.contains(b) ==> a != b && b
            < p.cells.len() && p.cells[b as int].siblings.contains(a)
}

/// What the list of shared cells holds: the indices below `n`, other than
/// `j`, of the cells of the two runs, each once and in ascending order.
pub proof fn lemma_sharing(vertical: Seq<usize>, horizontal: Seq<usize>, j: int, n: int)
    requires
        0 <= n <= usize::MAX + 1,
    ensures
        forall|x: usize|
            #![trigger sharing(vertical, horizontal, j, n).contains(x)]
            sharing(vertical, horizontal, j, n).contains(x) <==> (x < n && x != j && (
            vertical.contains(x) || horizontal.contains(x))),
        ascending(sharing(vertical, horizontal, j, n)),
        forall|a: int|
            0 <= a < sharing(vertical, horizontal, j, n).len() ==> sharing(
                vertical,
                horizontal,
                j,
                n,
            )[a] < n,
    decreases n,
{
    if n > 0 {
        lemma_sharing(vertical, horizontal, j, n - 1);
        let before = sharing(vertical, horizontal, j, n - 1);
        let here = sharing(vertical, horizontal, j, n);
        let last = (n - 1) as usize;
        let pushed = last != j && (vertical.contains(last) || horizontal.contains(last));
        assert(pushed ==> here == before.push(last));
        assert(!pushed ==> here == before);
        assert forall|x: usize| here.contains(x) implies (x < n && x != j && (vertical.contains(x)
            || horizontal.contains(x))) by {
            let i = choose|i: int| 0 <= i < here.len() && here[i] == x;
            if pushed && i == before.len() {
                assert(x == last);
            } else {
                assert(before[i] == x);
                assert(before.contains(x));
            }
        }
        assert forall|x: usize|
            (x < n && x != j && (vertical.contains(x) || horizontal.contains(x))) implies here.contains(
            x,
        ) by {
            if x == last {
                assert(here[before.len() as int] == x);
            } else {
                assert(x < n - 1);
                assert(before.contains(x));
                let i = choose|i: int| 0 <= i < before.len() && before[i] == x;
                assert(here[i] == x);
            }
        }
        assert forall|a: int, b: int| 0 <= a < b < here.len() implies here[a] < here[b] by {
            if pushed && b == before.len() {
                assert(before[a] < n - 1);
            } else {
                assert(before[a] < before[b]);
            }
        }
    }
}

/// In a linked graph whose cells hold their siblings, no cell is its own
/// sibling, and where `b` is a sibling of `a`, `a` is a sibling of `b`.
pub proof fn lemma_siblings_symmetric(p: PuzzleView, a: usize, b: usize)
    requires
        p.connected(),
        has_siblings(p),
        a < p.cells.len(),
        p.cells[a as int].siblings.contains(b),
    ensures
        a != b,
        b < p.cells.len(),
        p.cells[b as int].siblings.contains(a),
{
    let n = p.cells.len() as int;
    assert(cell_connected(p, n - 1));
    assert(cell_connected(p, a as int));
    assert(cell_in_run(p, a as int, Axis::Vertical));
    assert(cell_in_run(p, a as int, Axis::Horizontal));
    let va = p.cells[a as int].vertical->0;
    let ha = p.cells[a as int].horizontal->0;
    lemma_sharing(p.clues[va as int].members, p.clues[ha as int].members, a as int, n);
    assert(cell_connected(p, b as int));
    assert(cell_in_run(p, b as int, Axis::Vertical));
    assert(cell_in_run(p, b as int, Axis::Horizontal));
    let vb = p.cells[b as int].vertical->0;
    let hb = p.cells[b as int].horizontal->0;
    lemma_sharing(p.clues[vb as int].members, p.clues[hb as int].members, b as int, n);
    if p.clues[va as int].members.contains(b) {
        assert(clue_connected(p, va as int));
        let i = choose|i: int|
            0 <= i < p.clues[va as int].members.len() && p.clues[va as int].members[i] == b;
        assert(p.cells[p.clues[va as int].members[i] as int].parent(Axis::Vertical) == Some(va));
        assert(vb == va);
    } else {
        assert(clue_connected(p, ha as int));
        let i = choose|i: int|
            0 <= i < p.clues[ha as int].members.len() && p.clues[ha as int].members[i] == b;
        assert(p.cells[p.clues[ha as int].members[i] as int].parent(Axis::Horizontal) == Some(ha));
        assert(hb == ha);
    }
}

/// In a linked graph whose cells hold their siblings, siblings are mutual.
pub proof fn lemma_siblings_mutual(p: PuzzleView)
    requires
        p.connected(),
        has_siblings(p),
    ensures
        siblings_mutual(p),
{
    assert forall|a: usize, b: usize|
        a < p.cells.len() && #[trigger] p.cells[a as int].siblings.contains(b) implies a != b && b
        < p.cells.len() && p.cells[b as int].siblings.contains(a) by {
        lemma_siblings_symmetric(p, a, b);
    }
}

/// Giving the cells of a linked graph their siblings leaves runs and cells
/// linked, and the siblings are mutual.
pub proof fn lemma_with_siblings(p: PuzzleView)
    requires
        p.connected(),
    ensures
        with_siblings(p).connected(),
        has_siblings(with_siblings(p)),
        siblings_mutual(with_siblings(p)),
{
    let q = with_siblings(p);
    assert forall|k: int| 0 <= k < q.clues.len() implies #[trigger] clue_connected(q, k) by {
        assert(clue_connected(p, k));
    }
    assert forall|j: int| 0 <= j < q.cells.len() implies #[trigger] cell_connected(q, j) by {
        assert(cell_connected(p, j));
    }
    assert forall|j: int| 0 <= j < q.cells.len() implies (#[trigger] q.cells[j]).siblings
        == siblings(q, j) by {
        assert(siblings(q, j) == siblings(p, j));
    }
    lemma_siblings_mutual(q);
}

/// Every element is less than those behind it.
pub open spec fn ascending(s: Seq<usize>) -> bool {
    forall|a: int, b: int| 0 <= a < b < s.len() ==> s[a] < s[b]
}

/// Two ascending sequences that hold the same elements are equal.
pub proof fn lemma_ascending_equal(s: Seq<usize>, t: Seq<usize>)
    requires
        ascending(s),
        ascending(t),
        forall|y: usize|
            #![trigger s.contains(y)]
            #![trigger t.contains(y)]
            s.contains(y) <==> t.contains(y),
    ensures
        s == t,
    decreases s.len(),
{
    if s.len() == 0 {
        if t.len() > 0 {
            assert(t.contains(t[0]));
        }
        assert(s =~= t);
    } else {
        assert(s.contains(s.last()));
        let at = choose|i: int| 0 <= i < t.len() && t[i] == s.last();
        assert(t.contains(t.last()));
        let back = choose|i: int| 0 <= i < s.len() && s[i] == t.last();
        assert(s.last() == t.last());
        let s0 = s.drop_last();
        let t0 = t.drop_last();
        assert forall|y: usize|
            #![trigger s0.contains(y)]
            #![trigger t0.contains(y)]
            s0.contains(y) <==> t0.contains(y) by {
            if s0.contains(y) {
                let i = choose|i: int| 0 <= i < s0.len() && s0[i] == y;
                assert(s[i] == y);
                assert(s.contains(y));
                let k = choose|k: int| 0 <= k < t.len() && t[k] == y;
                assert(t0[k] == y);
            }
            if t0.contains(y) {
                let i = choose|i: int| 0 <= i < t0.len() && t0[i] == y;
                assert(t[i] == y);
                assert(t.contains(y));
                let k = choose|k: int| 0 <= k < s.len() && s[k] == y;
                assert(s0[k] == y);
            }
        }
        lemma_ascending_equal(s0, t0);
        assert(s =~= s0.push(s.last()));
        assert(t =~= t0.push(t.last()));
    }
}

/// Puts `x` into an ascending list, unless it is there already.
fn insert_ascending(list: &mut Vec<usize>, x: usize)
    requires
        ascending(old(list)@),
    ensures
        ascending(final(list)@),
        forall|y: usize|
            #![trigger final(list)@.contains(y)]
            final(list)@.contains(y) <==> (old(list)@.contains(y) || y == x),
{
    let ghost before = list@;
    let mut i: usize = 0;
    while i < list.len() && list[i] < x
        invariant
            i <= list@.len(),
            list@ == before,
            forall|a: int| 0 <= a < i ==> list@[a] < x,
        decreases list@.len() - i,
    {
        i = i + 1;
    }
    if i < list.len() && list[i] == x {
        assert(before.contains(x));
        return ;
    }
    list.insert(i, x);
    proof {
        let after = list@;
        assert(after.len() == before.len() + 1);
        assert(after[i as int] == x);
        assert(forall|a: int| 0 <= a < i ==> after[a] == before[a]);
        assert(forall|a: int| i < a < after.len() ==> after[a] == before[a - 1]);
        assert forall|a: int, b: int| 0 <= a < b < after.len() implies after[a] < after[b] by {
            if b > i {
                assert(before[i as int] <= before[b - 1]);
            }
        }
        assert forall|y: usize| #![trigger after.contains(y)] after.contains(y) <==> (
        before.contains(y) || y == x) by {
            if after.contains(y) {
                let a = choose|a: int| 0 <= a < after.len() && after[a] == y;
                if a < i {
                    assert(before[a] == y);
                } else if a > i {
                    assert(before[a - 1] == y);
                }
            }
            if before.contains(y) {
                let a = choose|a: int| 0 <= a < before.len() && before[a] == y;
                if a < i {
                    assert(after[a] == y);
                } else {
                    assert(after[a + 1] == y);
                }
            }
        }
    }
}

/// Puts into `list` the cells of `run` that are below `n` and other than
/// `j`.
fn insert_others(list: &mut Vec<usize>, run: &Vec<usize>, j: usize, n: usize)
    requires
        ascending(old(list)@),
    ensures
        ascending(final(list)@),
        forall|y: usize|
            #![trigger final(list)@.contains(y)]
            final(list)@.contains(y) <==> (old(list)@.contains(y) || (y < n && y != j
                && run@.contains(y))),
{
    let ghost before = list@;
    let mut i: usize = 0;
    while i < run.len()
        invariant
            i <= run@.len(),
            ascending(list@),
            forall|y: usize|
                #![trigger list@.contains(y)]
                list@.contains(y) <==> (before.contains(y) || (y < n && y != j && run@.take(
                    i as int,
                ).contains(y))),
        decreases run@.len() - i,
    {
        let x = run[i];
        let ghost mid = list@;
        if x < n && x != j {
            insert_ascending(list, x);
        }
        proof {
            let shorter = run@.take(i as int);
            let longer = run@.take(i + 1);
            assert(longer[i as int] == x);
            assert forall|y: usize| #![trigger longer.contains(y)] longer.contains(y) <==> (
            shorter.contains(y) || y == x) by {
                if longer.contains(y) {
                    let a = choose|a: int| 0 <= a < longer.len() && longer[a] == y;
                    if a < i {
                        assert(shorter[a] == y);
                    }
                }
                if shorter.contains(y) {
                    let a = choose|a: int| 0 <= a < shorter.len() && shorter[a] == y;
                    assert(longer[a] == y);
                }
            }
        }
        i = i + 1;
    }
    proof {
        assert(run@.take(i as int) =~= run@);
    }
}

/// The cell indices below `n`, other than `j`, among the cells of the one
/// run or of the other.
pub fn shared_cells(vertical: &Vec<usize>, horizontal: &Vec<usize>, j: usize, n: usize) -> (out:
    Vec<usize>)
    ensures
        out@ == sharing(vertical@, horizontal@, j as int, n as int),
{
    let mut out: Vec<usize> = Vec::new();
    insert_others(&mut out, vertical, j, n);
    insert_others(&mut out, horizontal, j, n);
    proof {
        lemma_sharing(vertical@, horizontal@, j as int, n as int);
        lemma_ascending_equal(out@, sharing(vertical@, horizontal@, j as int, n as int));
    }
    out
}

/// Gives every cell of a linked graph its siblings.
pub(crate) fn set_siblings(puzzle: &mut Puzzle)
    requires
        old(puzzle)@.connected(),
    ensures
        final(puzzle)@ == with_siblings(old(puzzle)@),
{
    let ghost start = puzzle@;
    let ghost goal = with_siblings(start);
    let n = puzzle.cells.len();
    let mut j: usize = 0;
    proof {
        assert(puzzle@.cells =~= replaced_below(start.cells, goal.cells, 0));
    }
    while j < n
        invariant
            j <= n,
            n == puzzle.cells@.len(),
            n == start.cells.len(),
            puzzle.clues@.len() == start.clues.len(),
            start.connected(),
            goal == with_siblings(start),
            puzzle@.clues == start.clues,
            puzzle@.cells == replaced_below(start.cells, goal.cells, j as int),
        decreases n - j,
    {
        let ghost mid = puzzle@;
        let ghost cells_mid = puzzle.cells@;
        proof {
            assert(mid.cells[j as int] == cells_mid[j as int]@);
            assert(cell_connected(start, j as int));
            assert(cell_in_run(start, j as int, Axis::Vertical));
            assert(cell_in_run(start, j as int, Axis::Horizontal));
        }
        let v = puzzle.cells[j].vertical.unwrap();
        let h = puzzle.cells[j].horizontal.unwrap();
        proof {
            assert(mid.clues[v as int] == puzzle.clues@[v as int]@);
            assert(mid.clues[h as int] == puzzle.clues@[h as int]@);
        }
        let shared = shared_cells(&puzzle.clues[v].members, &puzzle.clues[h].members, j, n);
        puzzle.cells[j].siblings = shared;
        proof {
            assert(puzzle@.clues =~= mid.clues);
            assert forall|i: int| 0 <= i < start.cells.len() implies (#[trigger] puzzle@.cells[i])
                == replaced_below(start.cells, goal.cells, j + 1)[i] by {
                if i != j {
                    assert(puzzle.cells@[i] == cells_mid[i]);
                    assert(puzzle@.cells[i] == mid.cells[i]);
                } else {
                    assert(puzzle@.cells[i] == puzzle.cells@[i]@);
                }
            }
            assert(puzzle@.cells =~= replaced_below(start.cells, goal.cells, j + 1));
        }
        j = j + 1;
    }
    proof {
        assert(puzzle@.cells =~= goal.cells);
    }
}

} // verus!
