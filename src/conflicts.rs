use vstd::prelude::*;
use itertools::Itertools;
use crate::grid::{Board, Sudoku, SudokuCellValue, is_isqrt};

verus! {

/// Cells `i` and `j` of an N×N board with boxes of side B share a row, a
/// column or a box.
pub open spec fn same_unit(n: nat, b: nat, i: int, j: int) -> bool {
    let (r1, c1, r2, c2) = (i / n as int, i % n as int, j / n as int, j % n as int);
    r1 == r2 || c1 == c2 || (r1 / b as int == r2 / b as int && c1 / b as int == c2 / b as int)
}

/// `i` and `j` are two distinct cells of the board that must hold different digits.
pub open spec fn conflict(n: nat, b: nat, i: int, j: int) -> bool {
    &&& 0 <= i < n * n
    &&& 0 <= j < n * n
    &&& i != j
    &&& same_unit(n, b, i, j)
}

/// Two cells that must differ hold the same digit.
pub open spec fn violating(g: Board, i: int, j: int) -> bool {
    &&& conflict(g.side, g.box_side, i, j)
    &&& g.cells[i] is Digit
    &&& g.cells[i] == g.cells[j]
}

/// No two cells that must differ hold the same digit.
pub open spec fn consistent(g: Board) -> bool {
    forall|i: int, j: int| !#[trigger] violating(g, i, j)
}

/// A complete, valid filling of the board.
pub open spec fn solved(g: Board) -> bool {
    &&& g.wf()
    &&& g.full()
    &&& g.digits_in_range()
    &&& consistent(g)
}

/// `s` is a complete, valid filling of the board that keeps every digit of `g`.
pub open spec fn solution_of(s: Board, g: Board) -> bool {
    solved(s) && s.extends(g)
}

/// `s` lists the pair (i, j).
pub open spec fn lists_pair(s: Seq<(usize, usize)>, i: int, j: int) -> bool {
    exists|k: int| 0 <= k < s.len() && s[k].0 == i && s[k].1 == j
}

/// Relies on itertools' `tuple_combinations` over `0..n`: each pair i < j < n
/// comes exactly once, in lexicographic order.
#[verifier::external_body]
#[allow(deprecated)]
fn index_pairs(n: usize) -> (r: Vec<(usize, usize)>)
    ensures
        forall|k: int| 0 <= k < r@.len() ==> (#[trigger] r@[k]).0 < r@[k].1 < n,
        forall|i: int, j: int| 0 <= i < j < n ==> #[trigger] lists_pair(r@, i, j),
        forall|k1: int, k2: int| 0 <= k1 < k2 < r@.len() ==> pair_less(#[trigger] r@[k1], #[trigger] r@[k2]),
{
    (0..n).tuple_combinations().collect()
}

/// Lexicographic order on pairs.
pub open spec fn pair_less(p: (usize, usize), q: (usize, usize)) -> bool {
    p.0 < q.0 || (p.0 == q.0 && p.1 < q.1)
}

proof fn lemma_lists_pair_push(s: Seq<(usize, usize)>, x: (usize, usize))
    ensures
        forall|i: int, j: int| #[trigger] lists_pair(s, i, j) ==> lists_pair(s.push(x), i, j),
        lists_pair(s.push(x), x.0 as int, x.1 as int),
{
    assert forall|i: int, j: int| #[trigger] lists_pair(s, i, j) implies lists_pair(s.push(x), i, j) by {
        let k = choose|k: int| 0 <= k < s.len() && s[k].0 == i && s[k].1 == j;
        assert(s.push(x)[k] == s[k]);
    }
    assert(s.push(x)[s.len() as int] == x);
}

/// Every pair (i, j), i < j, of cells that must differ on a board of side
/// `side` and box side `box_side`, in lexicographic order.
pub fn conflict_pairs(side: usize, box_side: usize) -> (r: Vec<(usize, usize)>)
    requires
        side * side <= usize::MAX,
        is_isqrt(box_side as nat, side as nat),
    ensures
        forall|k: int|
            0 <= k < r@.len() ==> (#[trigger] r@[k]).0 < r@[k].1 && conflict(
                side as nat,
                box_side as nat,
                r@[k].0 as int,
                r@[k].1 as int,
            ),
        forall|i: int, j: int|
            i < j && #[trigger] conflict(side as nat, box_side as nat, i, j) ==> lists_pair(r@, i, j),
        forall|k1: int, k2: int| 0 <= k1 < k2 < r@.len() ==> pair_less(#[trigger] r@[k1], #[trigger] r@[k2]),
{
    let cells = side * side;
    let all = index_pairs(cells);
    let mut out: Vec<(usize, usize)> = Vec::new();
    let mut k: usize = 0;
    while k < all.len()
        invariant
            cells == side * side,
            is_isqrt(box_side as nat, side as nat),
            k <= all@.len(),
            forall|m: int| 0 <= m < all@.len() ==> (#[trigger] all@[m]).0 < all@[m].1 < cells,
            forall|i: int, j: int| 0 <= i < j < cells ==> #[trigger] lists_pair(all@, i, j),
            forall|k1: int, k2: int|
                0 <= k1 < k2 < all@.len() ==> pair_less(#[trigger] all@[k1], #[trigger] all@[k2]),
            forall|m: int|
                0 <= m < out@.len() ==> (#[trigger] out@[m]).0 < out@[m].1 && conflict(
                    side as nat,
                    box_side as nat,
                    out@[m].0 as int,
                    out@[m].1 as int,
                ),
            forall|m: int, q: int|
                0 <= m < out@.len() && k <= q < all@.len() ==> pair_less(#[trigger] out@[m], #[trigger] all@[q]),
            forall|q: int|
                0 <= q < k && conflict(side as nat, box_side as nat, (#[trigger] all@[q]).0 as int, all@[q].1 as int)
                    ==> lists_pair(out@, all@[q].0 as int, all@[q].1 as int),
            forall|k1: int, k2: int| 0 <= k1 < k2 < out@.len() ==> pair_less(#[trigger] out@[k1], #[trigger] out@[k2]),
        decreases all@.len() - k,
    {
        let (i, j) = all[k];
        proof {
            assert(side > 0) by (nonlinear_arith)
                requires
                    j < cells,
                    cells == side * side,
            ;
            assert(box_side > 0) by (nonlinear_arith)
                requires
                    side > 0,
                    side < (box_side + 1) * (box_side + 1),
            ;
        }
        let (r1, c1, r2, c2) = (i / side, i % side, j / side, j % side);
        let same = r1 == r2 || c1 == c2 || (r1 / box_side == r2 / box_side && c1 / box_side
            == c2 / box_side);
        let ghost before = out@;
        if same {
            out.push((i, j));
            proof {
                lemma_lists_pair_push(before, (i, j));
                assert forall|m: int, q: int|
                    0 <= m < out@.len() && k + 1 <= q < all@.len() implies pair_less(#[trigger] out@[m], #[trigger] all@[q]) by {
                    if m < before.len() {
                        assert(out@[m] == before[m]);
                    }
                }
                assert forall|k1: int, k2: int| 0 <= k1 < k2 < out@.len() implies pair_less(#[trigger] out@[k1], #[trigger] out@[k2]) by {
                    assert(out@[k1] == before[k1]);
                    if k2 < before.len() {
                        assert(out@[k2] == before[k2]);
                    }
                }
            }
        }
        k += 1;
    }
    proof {
        assert forall|i: int, j: int|
            i < j && #[trigger] conflict(side as nat, box_side as nat, i, j) implies lists_pair(out@, i, j) by {
            assert(lists_pair(all@, i, j));
            let q = choose|q: int| 0 <= q < all@.len() && all@[q].0 == i && all@[q].1 == j;
            assert(conflict(side as nat, box_side as nat, all@[q].0 as int, all@[q].1 as int));
        }
    }
    out
}

/// Whether no two cells that must differ hold the same digit, checked over
/// every pair once.
pub fn is_consistent(sudoku: &Sudoku) -> (r: bool)
    requires
        sudoku@.wf(),
    ensures
        r == consistent(sudoku@),
{
    let ghost g = sudoku@;
    let pairs = conflict_pairs(sudoku.side(), sudoku.box_side());
    let mut k: usize = 0;
    while k < pairs.len()
        invariant
            sudoku@ == g,
            g.wf(),
            k <= pairs@.len(),
            forall|m: int| 0 <= m < pairs@.len() ==> (#[trigger] pairs@[m]).0 < pairs@[m].1 && conflict(
                g.side,
                g.box_side,
                pairs@[m].0 as int,
                pairs@[m].1 as int,
            ),
            forall|i: int, j: int| i < j && #[trigger] conflict(g.side, g.box_side, i, j) ==> lists_pair(pairs@, i, j),
            forall|m: int| 0 <= m < k ==> !violating(g, (#[trigger] pairs@[m]).0 as int, pairs@[m].1 as int),
        decreases pairs@.len() - k,
    {
        let (i, j) = pairs[k];
        if let Some(a) = sudoku.get_raw(i).value() {
            if let Some(b) = sudoku.get_raw(j).value() {
                if a == b {
                    proof {
                        assert(violating(g, i as int, j as int));
                    }
                    return false;
                }
            }
        }
        k += 1;
    }
    proof {
        assert forall|i: int, j: int| !#[trigger] violating(g, i, j) by {
            if violating(g, i, j) {
                if i < j {
                    assert(lists_pair(pairs@, i, j));
                    let m = choose|m: int| 0 <= m < pairs@.len() && pairs@[m].0 == i && pairs@[m].1 == j;
                    assert(!violating(g, pairs@[m].0 as int, pairs@[m].1 as int));
                } else {
                    assert(violating(g, j, i));
                    assert(lists_pair(pairs@, j, i));
                    let m = choose|m: int| 0 <= m < pairs@.len() && pairs@[m].0 == j && pairs@[m].1 == i;
                    assert(!violating(g, pairs@[m].0 as int, pairs@[m].1 as int));
                }
            }
        }
    }
    true
}

} // verus!
