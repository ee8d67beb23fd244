use vstd::prelude::*;
use crate::cell::{Cell, Style};

verus! {

/// Whether the cell's style asks for italic letters.
pub open spec fn is_italic(c: Cell) -> bool {
    c.style.flags & Style::ITALIC != 0
}

/// Whether cell `i` belongs to a run of the wanted kind.
pub open spec fn wanted(cells: Seq<Cell>, italic: bool, i: int) -> bool {
    is_italic(cells[i]) == italic
}

/// Whether index `i` lies in one of the runs.
pub open spec fn in_some_run(runs: Seq<(usize, usize)>, i: int) -> bool {
    exists|k: int| 0 <= k < runs.len() && (#[trigger] runs[k]).0 <= i < runs[k].1
}

/// Whether `runs` lists, left to right, the maximal runs `[start, end)` of
/// consecutive cells whose italic flag is `italic`.
pub open spec fn maximal_runs(cells: Seq<Cell>, italic: bool, runs: Seq<(usize, usize)>) -> bool {
    &&& forall|k: int|
        0 <= k < runs.len() ==> (#[trigger] runs[k]).0 < runs[k].1 && runs[k].1 <= cells.len()
    &&& forall|k: int, i: int|
        #![trigger runs[k], wanted(cells, italic, i)]
        0 <= k < runs.len() && runs[k].0 <= i < runs[k].1 ==> wanted(cells, italic, i)
    &&& forall|k: int|
        0 <= k < runs.len() ==> ((#[trigger] runs[k]).0 == 0 || !wanted(
            cells,
            italic,
            runs[k].0 - 1,
        ))
    &&& forall|k: int|
        0 <= k < runs.len() ==> ((#[trigger] runs[k]).1 == cells.len() || !wanted(
            cells,
            italic,
            runs[k].1 as int,
        ))
    &&& forall|k: int| 0 <= k < runs.len() - 1 ==> (#[trigger] runs[k]).1 < runs[k + 1].0
    &&& forall|i: int| 0 <= i < cells.len() && wanted(cells, italic, i) ==> in_some_run(runs, i)
}

/// The maximal runs `[start, end)`, left to right, of consecutive cells
/// whose italic flag is `italic`: the groups of a row that are shaped
/// together with one face.
pub fn shaping_runs(cells: &[Cell], italic: bool) -> (r: Vec<(usize, usize)>)
    ensures
        maximal_runs(cells@, italic, r@),
{
    let n = cells.len();
    let mut runs: Vec<(usize, usize)> = Vec::new();
    let mut open: Option<usize> = None;
    let mut i: usize = 0;
    while i < n
        invariant
            n == cells@.len(),
            i <= n,
            forall|k: int|
                0 <= k < runs@.len() ==> (#[trigger] runs@[k]).0 < runs@[k].1 && runs@[k].1 < i,
            forall|k: int, j: int|
                #![trigger runs@[k], wanted(cells@, italic, j)]
                0 <= k < runs@.len() && runs@[k].0 <= j < runs@[k].1 ==> wanted(cells@, italic, j),
            forall|k: int|
                0 <= k < runs@.len() ==> ((#[trigger] runs@[k]).0 == 0 || !wanted(
                    cells@,
                    italic,
                    runs@[k].0 - 1,
                )),
            forall|k: int|
                0 <= k < runs@.len() ==> !wanted(cells@, italic, (#[trigger] runs@[k]).1 as int),
            forall|k: int| 0 <= k < runs@.len() - 1 ==> (#[trigger] runs@[k]).1 < runs@[k + 1].0,
            match open {
                Some(s) => {
                    &&& s < i
                    &&& (s == 0 || !wanted(cells@, italic, s - 1))
                    &&& forall|j: int| s <= j < i ==> wanted(cells@, italic, j)
                    &&& (runs@.len() > 0 ==> runs@[runs@.len() - 1].1 < s)
                    &&& forall|j: int|
                        0 <= j < s && wanted(cells@, italic, j) ==> in_some_run(runs@, j)
                },
                None => {
                    &&& (i == 0 || !wanted(cells@, italic, i - 1))
                    &&& forall|j: int|
                        0 <= j < i && wanted(cells@, italic, j) ==> in_some_run(runs@, j)
                },
            },
        decreases n - i,
    {
        let here = cells[i].style.italic() == italic;
        let ghost before = runs@;
        match open {
            Some(s) => {
                if !here {
                    runs.push((s, i));
                    open = None;
                    proof {
                        let k = runs@.len() - 1;
                        assert(runs@[k] == (s, i));
                        assert forall|j: int|
                            0 <= j < i + 1 && wanted(cells@, italic, j) implies in_some_run(
                            runs@,
                            j,
                        ) by {
                            if j < s {
                                assert(in_some_run(before, j));
                                let k0 = choose|k0: int|
                                    0 <= k0 < before.len() && (#[trigger] before[k0]).0 <= j
                                        < before[k0].1;
                                assert(runs@[k0] == before[k0]);
                            } else {
                                assert(runs@[k].0 <= j < runs@[k].1);
                            }
                        }
                    }
                }
            },
            None => {
                if here {
                    open = Some(i);
                }
            },
        }
        i = i + 1;
    }
    let ghost before = runs@;
    if let Some(s) = open {
        runs.push((s, n));
        proof {
            let k = runs@.len() - 1;
            assert forall|j: int|
                0 <= j < n && wanted(cells@, italic, j) implies in_some_run(runs@, j) by {
                if j < s {
                    assert(in_some_run(before, j));
                    let k0 = choose|k0: int|
                        0 <= k0 < before.len() && (#[trigger] before[k0]).0 <= j < before[k0].1;
                    assert(runs@[k0] == before[k0]);
                } else {
                    assert(runs@[k].0 <= j < runs@[k].1);
                }
            }
        }
    }
    proof {
        assert forall|j: int|
            0 <= j < n && wanted(cells@, italic, j) implies in_some_run(runs@, j) by {
            if open is None {
                assert(in_some_run(before, j));
                let k0 = choose|k0: int|
                    0 <= k0 < before.len() && (#[trigger] before[k0]).0 <= j < before[k0].1;
                assert(runs@[k0] == before[k0]);
            }
        }
    }
    runs
}

/// The italic runs and the upright runs of a row together hold each cell
/// exactly once: every letter is shaped with exactly one face.
pub proof fn lemma_runs_partition(
    cells: Seq<Cell>,
    italic_runs: Seq<(usize, usize)>,
    upright_runs: Seq<(usize, usize)>,
)
    requires
        maximal_runs(cells, true, italic_runs),
        maximal_runs(cells, false, upright_runs),
    ensures
        forall|i: int|
            0 <= i < cells.len() ==> (in_some_run(italic_runs, i) <==> !in_some_run(upright_runs, i)),
        forall|i: int| 0 <= i < cells.len() ==> (in_some_run(italic_runs, i) <==> is_italic(cells[i])),
        forall|i: int|
            0 <= i < cells.len() ==> (in_some_run(italic_runs, i) <==> cells[i].style.flags & 4u8
                != 0),
{
    assert forall|i: int| 0 <= i < cells.len() implies (in_some_run(italic_runs, i)
        <==> is_italic(cells[i])) && (in_some_run(upright_runs, i) <==> !is_italic(cells[i])) by {
        if in_some_run(italic_runs, i) {
            let k = choose|k: int|
                0 <= k < italic_runs.len() && (#[trigger] italic_runs[k]).0 <= i < italic_runs[k].1;
            assert(wanted(cells, true, i));
        }
        if in_some_run(upright_runs, i) {
            let k = choose|k: int|
                0 <= k < upright_runs.len() && (#[trigger] upright_runs[k]).0 <= i
                    < upright_runs[k].1;
            assert(wanted(cells, false, i));
        }
        if is_italic(cells[i]) {
            assert(wanted(cells, true, i));
        } else {
            assert(wanted(cells, false, i));
        }
    }
}

/// Runs listed left to right: every run ends before any later one starts.
proof fn lemma_runs_sorted(cells: Seq<Cell>, italic: bool, runs: Seq<(usize, usize)>, j: int, k: int)
    requires
        maximal_runs(cells, italic, runs),
        0 <= j < k < runs.len(),
    ensures
        runs[j].1 < runs[k].0,
    decreases k - j,
{
    if j + 1 < k {
        lemma_runs_sorted(cells, italic, runs, j + 1, k);
        assert(runs[j].1 < runs[j + 1].0);
    } else {
        assert(runs[j].1 < runs[j + 1].0);
    }
}

/// In maximal runs, no wanted cell lies between the end of run `k - 1` (or
/// the row's start) and the start of run `k`.
proof fn lemma_no_gap(cells: Seq<Cell>, italic: bool, runs: Seq<(usize, usize)>, k: int, i: int)
    requires
        maximal_runs(cells, italic, runs),
        0 <= k < runs.len(),
        (if k == 0 { 0 } else { runs[k - 1].1 as int }) <= i < runs[k].0,
    ensures
        !wanted(cells, italic, i),
{
    if wanted(cells, italic, i) {
        assert(in_some_run(runs, i));
        let j = choose|j: int| 0 <= j < runs.len() && (#[trigger] runs[j]).0 <= i < runs[j].1;
        if j < k {
            if j < k - 1 {
                lemma_runs_sorted(cells, italic, runs, j, k - 1);
            }
        } else if j > k {
            lemma_runs_sorted(cells, italic, runs, k, j);
        }
    }
}

/// In maximal runs, no wanted cell lies past the end of the last run.
proof fn lemma_no_tail(cells: Seq<Cell>, italic: bool, runs: Seq<(usize, usize)>, i: int)
    requires
        maximal_runs(cells, italic, runs),
        (if runs.len() == 0 { 0 } else { runs[runs.len() - 1].1 as int }) <= i < cells.len(),
    ensures
        !wanted(cells, italic, i),
{
    if wanted(cells, italic, i) {
        assert(in_some_run(runs, i));
        let j = choose|j: int| 0 <= j < runs.len() && (#[trigger] runs[j]).0 <= i < runs[j].1;
        if j < runs.len() - 1 {
            lemma_runs_sorted(cells, italic, runs, j, runs.len() - 1);
        }
    }
}

/// Two lists of maximal runs agree on their first `k` runs.
proof fn lemma_same_prefix(
    cells: Seq<Cell>,
    italic: bool,
    a: Seq<(usize, usize)>,
    b: Seq<(usize, usize)>,
    k: int,
)
    requires
        maximal_runs(cells, italic, a),
        maximal_runs(cells, italic, b),
        0 <= k <= a.len(),
        k <= b.len(),
    ensures
        forall|j: int| 0 <= j < k ==> a[j] == b[j],
    decreases k,
{
    if k > 0 {
        let m = k - 1;
        lemma_same_prefix(cells, italic, a, b, m);
        let sa = a[m].0 as int;
        let sb = b[m].0 as int;
        assert(wanted(cells, italic, sa));
        assert(wanted(cells, italic, sb));
        if m > 0 {
            assert(a[m - 1] == b[m - 1]);
            assert(a[m - 1].1 < a[m].0);
            assert(b[m - 1].1 < b[m].0);
        }
        if sa < sb {
            lemma_no_gap(cells, italic, b, m, sa);
        } else if sb < sa {
            lemma_no_gap(cells, italic, a, m, sb);
        }
        let ea = a[m].1 as int;
        let eb = b[m].1 as int;
        if ea < eb {
            assert(wanted(cells, italic, ea));
        } else if eb < ea {
            assert(wanted(cells, italic, eb));
        }
    }
}

/// A row has one list of maximal runs of each kind: `maximal_runs` pins
/// down the result of `shaping_runs`.
pub proof fn lemma_maximal_runs_unique(
    cells: Seq<Cell>,
    italic: bool,
    a: Seq<(usize, usize)>,
    b: Seq<(usize, usize)>,
)
    requires
        maximal_runs(cells, italic, a),
        maximal_runs(cells, italic, b),
    ensures
        a == b,
{
    let n = if a.len() < b.len() {
        a.len() as int
    } else {
        b.len() as int
    };
    lemma_same_prefix(cells, italic, a, b, n);
    if a.len() < b.len() {
        let s = b[n].0 as int;
        assert(wanted(cells, italic, s));
        if n > 0 {
            assert(a[n - 1] == b[n - 1]);
            assert(b[n - 1].1 < b[n].0);
        }
        lemma_no_tail(cells, italic, a, s);
    } else if b.len() < a.len() {
        let s = a[n].0 as int;
        assert(wanted(cells, italic, s));
        if n > 0 {
            assert(a[n - 1] == b[n - 1]);
            assert(a[n - 1].1 < a[n].0);
        }
        lemma_no_tail(cells, italic, b, s);
    }
    assert(a =~= b);
}

} // verus!
