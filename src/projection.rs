use vstd::prelude::*;
use crate::backtrack::{clashes, violates_constraints};
use crate::grid::{Board, Sudoku, lemma_cell_index};

verus! {

/// How an alternating-projection run ended: with a valid board, or with
/// its iterations used up (the last board is kept all the same).
#[derive(Debug, Clone, Copy, PartialEq, Eq)]
pub enum SolveResult {
    IterationsExhausted,
    Success,
}

/// Digit `d + 1` may go in the cell at `row`, `column`: the cell is empty and
/// no cell that must differ from it holds that digit.
pub open spec fn placeable(g: Board, row: int, column: int, d: int) -> bool {
    &&& g.at(row, column) is Empty
    &&& !clashes(g, row * g.side + column, (d + 1) as usize)
}

/// The `m`-th entry (row, column, digit index) of simplex group (`family`,
/// `u`, `v`) on an N×N board with boxes of side B: family 0 is row `u` and
/// digit `v`, family 1 column `u` and digit `v`, family 2 box `u` (boxes in
/// row-major order) and digit `v`, family 3 the cell at row `u`, column `v`.
pub open spec fn slot(n: int, b: int, family: int, u: int, v: int, m: int) -> (int, int, int) {
    if family == 0 {
        (u, m, v)
    } else if family == 1 {
        (m, u, v)
    } else if family == 2 {
        ((u / b) * b + m / b, (u % b) * b + m % b, v)
    } else {
        (u, v, m)
    }
}

/// The position of (row, column, digit index) in the row-major N×N×N tensor.
pub open spec fn offset(n: int, e: (int, int, int)) -> int {
    (e.0 * n + e.1) * n + e.2
}

/// `x` is the tensor offset of entry `m` of group (`family`, `u`, `v`),
/// whose digit may go in its cell.
pub open spec fn hit(g: Board, family: int, u: int, v: int, m: int, x: usize) -> bool {
    let e = slot(g.side as int, g.box_side as int, family, u, v, m);
    &&& 0 <= m < g.side
    &&& placeable(g, e.0, e.1, e.2)
    &&& x == offset(g.side as int, e)
}

/// `x` is the tensor offset of some entry of group (`family`, `u`, `v`) whose
/// digit may go in its cell.
pub open spec fn in_group(g: Board, family: int, u: int, v: int, x: usize) -> bool {
    exists|m: int| #[trigger] hit(g, family, u, v, m, x)
}

/// `group` lists exactly the entries of group (`family`, `u`, `v`) whose digit
/// may go in their cell.
pub open spec fn group_ok(g: Board, family: int, u: int, v: int, group: Seq<usize>) -> bool {
    &&& forall|q: int| 0 <= q < group.len() ==> #[trigger] in_group(g, family, u, v, group[q])
    &&& forall|m: int| #[trigger] hit(g, family, u, v, m, offset(g.side as int, slot(g.side as int, g.box_side as int, family, u, v, m)) as usize)
        ==> group.contains(offset(g.side as int, slot(g.side as int, g.box_side as int, family, u, v, m)) as usize)
}

/// Group `k` is group (k / N / N, (k / N) % N, k % N).
proof fn lemma_group_index(n: int, f: int, u: int, v: int)
    requires
        n > 0,
        f >= 0,
        0 <= u < n,
        0 <= v < n,
    ensures
        ((f * n + u) * n + v) / n / n == f,
        (((f * n + u) * n + v) / n) % n == u,
        ((f * n + u) * n + v) % n == v,
{
    assert(f * n + u >= 0) by (nonlinear_arith)
        requires
            n > 0,
            f >= 0,
            u >= 0,
    ;
    vstd::arithmetic::div_mod::lemma_fundamental_div_mod_converse((f * n + u) * n + v, n, f * n + u, v);
    vstd::arithmetic::div_mod::lemma_fundamental_div_mod_converse(f * n + u, n, f, u);
}

/// Every entry of every group lies on the board.
proof fn lemma_slot_bounds(n: int, b: int, family: int, u: int, v: int, m: int)
    requires
        b > 0,
        n == b * b,
        0 <= family < 4,
        0 <= u < n,
        0 <= v < n,
        0 <= m < n,
    ensures
        0 <= slot(n, b, family, u, v, m).0 < n,
        0 <= slot(n, b, family, u, v, m).1 < n,
        0 <= slot(n, b, family, u, v, m).2 < n,
        0 <= offset(n, slot(n, b, family, u, v, m)) < n * n * n,
{
    let e = slot(n, b, family, u, v, m);
    if family == 2 {
        assert(0 <= u / b < b && 0 <= m / b < b && 0 <= u % b < b && 0 <= m % b < b) by (nonlinear_arith)
            requires
                b > 0,
                n == b * b,
                0 <= u < n,
                0 <= m < n,
        {
            vstd::arithmetic::div_mod::lemma_fundamental_div_mod(u, b);
            vstd::arithmetic::div_mod::lemma_fundamental_div_mod(m, b);
        }
        assert(0 <= (u / b) * b + m / b < n && 0 <= (u % b) * b + m % b < n) by (nonlinear_arith)
            requires
                n == b * b,
                0 <= u / b < b,
                0 <= m / b < b,
                0 <= u % b < b,
                0 <= m % b < b,
        ;
    }
    assert(0 <= (e.0 * n + e.1) * n + e.2 < n * n * n) by (nonlinear_arith)
        requires
            0 <= e.0 < n,
            0 <= e.1 < n,
            0 <= e.2 < n,
    ;
}

/// Whether digit `d + 1` may go in the cell at `row`, `column`.
pub fn digit_can_go_here(sudoku: &Sudoku, row: usize, column: usize, d: usize) -> (r: bool)
    requires
        sudoku@.square(),
        row < sudoku@.side,
        column < sudoku@.side,
        d < sudoku@.side,
    ensures
        r == placeable(sudoku@, row as int, column as int, d as int),
{
    proof {
        lemma_cell_index(sudoku@.side as int, row as int, column as int);
    }
    let side = sudoku.side();
    sudoku.get(row, column).is_empty() && !violates_constraints(sudoku, row * side + column, d + 1)
}

/// The entries of one simplex group whose digit may go in their cell.
fn build_group(sudoku: &Sudoku, family: usize, u: usize, v: usize) -> (r: Vec<usize>)
    requires
        sudoku@.square(),
        sudoku@.side > 0,
        sudoku@.side * sudoku@.side * sudoku@.side <= usize::MAX,
        family < 4,
        u < sudoku@.side,
        v < sudoku@.side,
    ensures
        group_ok(sudoku@, family as int, u as int, v as int, r@),
{
    let ghost g = sudoku@;
    let n = sudoku.side();
    let b = sudoku.box_side();
    proof {
        assert(b > 0) by (nonlinear_arith)
            requires
                n == b * b,
                n > 0,
        ;
    }
    let mut group: Vec<usize> = Vec::new();
    let ghost mut witnesses: Seq<int> = Seq::empty();
    let mut m: usize = 0;
    while m < n
        invariant
            g == sudoku@,
            g.square(),
            n == g.side,
            b == g.box_side,
            b > 0,
            n * n * n <= usize::MAX,
            family < 4,
            u < n,
            v < n,
            m <= n,
            witnesses.len() == group@.len(),
            forall|q: int| 0 <= q < group@.len() ==> hit(g, family as int, u as int, v as int, witnesses[q], #[trigger] group@[q]),
            forall|mm: int| mm < m && #[trigger] hit(g, family as int, u as int, v as int, mm, offset(g.side as int, slot(g.side as int, g.box_side as int, family as int, u as int, v as int, mm)) as usize)
                ==> group@.contains(offset(g.side as int, slot(g.side as int, g.box_side as int, family as int, u as int, v as int, mm)) as usize),
        decreases n - m,
    {
        proof {
            lemma_slot_bounds(n as int, b as int, family as int, u as int, v as int, m as int);
        }
        let (row, column, d) = if family == 0 {
            (u, m, v)
        } else if family == 1 {
            (m, u, v)
        } else if family == 2 {
            ((u / b) * b + m / b, (u % b) * b + m % b, v)
        } else {
            (u, v, m)
        };
        let ghost e = slot(n as int, b as int, family as int, u as int, v as int, m as int);
        assert(row == e.0 && column == e.1 && d == e.2);
        let ghost before = group@;
        if digit_can_go_here(sudoku, row, column, d) {
            proof {
                assert((row * n + column) * n + d < n * n * n);
                assert(row * n + column < n * n) by (nonlinear_arith)
                    requires
                        row < n,
                        column < n,
                ;
            }
            group.push((row * n + column) * n + d);
            proof {
                assert(hit(g, family as int, u as int, v as int, m as int, group@[before.len() as int]));
                witnesses = witnesses.push(m as int);
                assert forall|q: int| 0 <= q < group@.len() implies hit(g, family as int, u as int, v as int, witnesses[q], #[trigger] group@[q]) by {
                    if q < before.len() {
                        assert(group@[q] == before[q]);
                    }
                }
                assert forall|mm: int| mm < m + 1 && #[trigger] hit(g, family as int, u as int, v as int, mm, offset(g.side as int, slot(g.side as int, g.box_side as int, family as int, u as int, v as int, mm)) as usize)
                    implies group@.contains(offset(g.side as int, slot(g.side as int, g.box_side as int, family as int, u as int, v as int, mm)) as usize) by {
                    let x = offset(g.side as int, slot(g.side as int, g.box_side as int, family as int, u as int, v as int, mm)) as usize;
                    if mm < m {
                        let q = choose|q: int| 0 <= q < before.len() && before[q] == x;
                        assert(group@[q] == before[q]);
                    } else {
                        assert(group@[before.len() as int] == x);
                    }
                }
            }
        } else {
            proof {
                assert forall|mm: int| mm < m + 1 && #[trigger] hit(g, family as int, u as int, v as int, mm, offset(g.side as int, slot(g.side as int, g.box_side as int, family as int, u as int, v as int, mm)) as usize)
                    implies group@.contains(offset(g.side as int, slot(g.side as int, g.box_side as int, family as int, u as int, v as int, mm)) as usize) by {
                    if mm == m {
                        assert(!placeable(g, row as int, column as int, d as int));
                    }
                }
            }
        }
        m += 1;
    }
    proof {
        assert forall|q: int| 0 <= q < group@.len() implies #[trigger] in_group(sudoku@, family as int, u as int, v as int, group@[q]) by {
            assert(hit(sudoku@, family as int, u as int, v as int, witnesses[q], group@[q]));
        }
        assert(g == sudoku@);
        assert forall|mm: int| #[trigger] hit(g, family as int, u as int, v as int, mm, offset(g.side as int, slot(g.side as int, g.box_side as int, family as int, u as int, v as int, mm)) as usize)
            implies group@.contains(offset(g.side as int, slot(g.side as int, g.box_side as int, family as int, u as int, v as int, mm)) as usize) by {
            assert(mm < m);
        }
    }
    group
}

/// The simplex groups of the board, as lists of offsets into the row-major
/// N×N×N tensor: for each row and digit, then each column and digit, then
/// each box and digit, then each cell, the entries whose digit may go in
/// their cell. Group k is group (k / N / N, (k / N) % N, k % N) of `slot`.
pub fn simplex_groups(sudoku: &Sudoku) -> (r: Vec<Vec<usize>>)
    requires
        sudoku@.square(),
        sudoku@.side * sudoku@.side * sudoku@.side <= usize::MAX,
    ensures
        r@.len() == 4 * sudoku@.side * sudoku@.side,
        forall|k: int|
            0 <= k < r@.len() ==> group_ok(
                sudoku@,
                k / sudoku@.side as int / sudoku@.side as int,
                (k / sudoku@.side as int) % sudoku@.side as int,
                k % sudoku@.side as int,
                #[trigger] r@[k]@,
            ),
{
    let ghost g = sudoku@;
    let n = sudoku.side();
    let mut groups: Vec<Vec<usize>> = Vec::new();
    if n == 0 {
        return groups;
    }
    let ghost ni = n as int;
    let mut family: usize = 0;
    while family < 4
        invariant
            g == sudoku@,
            g.square(),
            n == g.side,
            ni == n,
            n > 0,
            n * n * n <= usize::MAX,
            family <= 4,
            groups@.len() == family * n * n,
            forall|k: int| 0 <= k < groups@.len() ==> group_ok(g, k / ni / ni, (k / ni) % ni, k % ni, #[trigger] groups@[k]@),
        decreases 4 - family,
    {
        let mut u: usize = 0;
        while u < n
            invariant
                g == sudoku@,
                g.square(),
                n == g.side,
                ni == n,
                n > 0,
                n * n * n <= usize::MAX,
                family < 4,
                u <= n,
                groups@.len() == (family * n + u) * n,
                forall|k: int| 0 <= k < groups@.len() ==> group_ok(g, k / ni / ni, (k / ni) % ni, k % ni, #[trigger] groups@[k]@),
            decreases n - u,
        {
            let mut v: usize = 0;
            while v < n
                invariant
                    g == sudoku@,
                    g.square(),
                    n == g.side,
                    ni == n,
                    n > 0,
                    n * n * n <= usize::MAX,
                    family < 4,
                    u < n,
                    v <= n,
                    groups@.len() == (family * n + u) * n + v,
                    forall|k: int| 0 <= k < groups@.len() ==> group_ok(g, k / ni / ni, (k / ni) % ni, k % ni, #[trigger] groups@[k]@),
                decreases n - v,
            {
                let group = build_group(sudoku, family, u, v);
                let ghost before = groups@;
                groups.push(group);
                proof {
                    lemma_group_index(ni, family as int, u as int, v as int);
                    assert forall|k: int| 0 <= k < groups@.len() implies group_ok(g, k / ni / ni, (k / ni) % ni, k % ni, #[trigger] groups@[k]@) by {
                        if k < before.len() {
                            assert(groups@[k] == before[k]);
                        }
                    }
                }
                v += 1;
            }
            proof {
                assert((family * n + u) * n + n == (family * n + u + 1) * n) by (nonlinear_arith);
            }
            u += 1;
        }
        proof {
            assert((family * n + n) * n == (family + 1) * n * n) by (nonlinear_arith);
        }
        family += 1;
    }
    groups
}

} // verus!
