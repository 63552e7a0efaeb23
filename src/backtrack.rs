use vstd::prelude::*;
use std::collections::BTreeSet;
use itertools::Itertools;
use crate::conflicts::{conflict, conflict_pairs, consistent, is_consistent, lists_pair, pair_less, solution_of, solved, violating};
use crate::grid::{Board, Sudoku, SudokuCell, SudokuCellValue, lemma_box_offset, lemma_cell_index, lemma_cell_split};

verus! {

/// The board admits no valid completion.
pub enum SolveError {
    Infeasible,
}

/// A cell that must differ from `a` holds `d` on the board `g`.
pub open spec fn justified(g: Board, a: int, d: int) -> bool {
    exists|j: int| #[trigger] conflict(g.side, g.box_side, a, j) && g.cells[j] == SudokuCell::Digit(d as usize)
}

/// The candidate digits of an empty cell `i`: digits in 1..=N, and every digit
/// of 1..=N left out is held by a cell that must differ from `i`.
pub open spec fn candidates_ok(start: Board, i: int, cs: Seq<usize>) -> bool {
    &&& forall|q: int| 0 <= q < cs.len() ==> 1 <= #[trigger] cs[q] <= start.side
    &&& forall|d: int| 1 <= d <= start.side && !cs.contains(d as usize) ==> #[trigger] justified(start, i, d)
}

/// How many digits of 1..=`top` no cell that must differ from `a` holds.
pub open spec fn free_digits(g: Board, a: int, top: int) -> nat
    decreases top,
{
    if top <= 0 {
        0
    } else {
        free_digits(g, a, top - 1) + if justified(g, a, top) {
            0nat
        } else {
            1nat
        }
    }
}

/// `cs` is exactly the candidate list of the empty cell `i`: ascending, with
/// the digits of 1..=N that no cell that must differ from `i` holds.
pub open spec fn candidates_exact(start: Board, i: int, cs: Seq<usize>) -> bool {
    &&& candidates_ok(start, i, cs)
    &&& forall|q1: int, q2: int| 0 <= q1 < q2 < cs.len() ==> #[trigger] cs[q1] < #[trigger] cs[q2]
    &&& forall|q: int| 0 <= q < cs.len() ==> !justified(start, i, #[trigger] cs[q] as int)
    &&& cs.len() == free_digits(start, i, start.side as int)
}

/// The fixed search plan: `order` lists each empty cell of `start` once, and
/// `cands[i]` holds the candidate digits of each empty cell `i`.
pub open spec fn plan(start: Board, order: Seq<usize>, cands: Seq<Vec<usize>>) -> bool {
    &&& start.square()
    &&& start.digits_in_range()
    &&& order.no_duplicates()
    &&& forall|k: int| 0 <= k < order.len() ==> (#[trigger] order[k]) < start.cells.len() && start.cells[order[k] as int] is Empty
    &&& forall|i: int| 0 <= i < start.cells.len() && (#[trigger] start.cells[i]) is Empty ==> order.contains(i as usize)
    &&& cands.len() == start.cells.len()
    &&& forall|i: int| 0 <= i < cands.len() && (#[trigger] start.cells[i]) is Empty ==> candidates_exact(start, i, cands[i]@)
}

/// The board `g` at search depth `depth`: the first `depth` cells of the order
/// hold digits, the others are empty, the rest is as in `start`, and no two
/// cells that must differ hold the same digit.
pub open spec fn stage(g: Board, start: Board, order: Seq<usize>, depth: int) -> bool {
    &&& g.square()
    &&& g.side == start.side
    &&& g.box_side == start.box_side
    &&& forall|i: int| 0 <= i < g.cells.len() && !order.contains(i as usize) ==> #[trigger] g.cells[i] == start.cells[i]
    &&& forall|k: int| depth <= k < order.len() ==> g.cells[#[trigger] order[k] as int] is Empty
    &&& forall|k: int| 0 <= k < depth ==> g.cells[#[trigger] order[k] as int] is Digit && 1 <= g.cells[order[k] as int]->Digit_0 <= g.side
    &&& consistent(g)
}

/// No completion of `g` holds `v` in cell `x`.
pub open spec fn ruled_out(g: Board, x: int, v: usize) -> bool {
    forall|s: Board| #[trigger] solution_of(s, g) ==> s.cells[x] != SudokuCell::Digit(v)
}

proof fn lemma_stage_keeps_clues(g: Board, start: Board, order: Seq<usize>, cands: Seq<Vec<usize>>, depth: int, j: int)
    requires
        plan(start, order, cands),
        stage(g, start, order, depth),
        0 <= j < start.cells.len(),
        start.cells[j] is Digit,
    ensures
        g.cells[j] == start.cells[j],
{
    if order.contains(j as usize) {
        let k = choose|k: int| 0 <= k < order.len() && order[k] == j as usize;
        assert(start.cells[order[k] as int] is Empty);
    }
}

proof fn lemma_stage_full(g: Board, start: Board, order: Seq<usize>, cands: Seq<Vec<usize>>)
    requires
        plan(start, order, cands),
        stage(g, start, order, order.len() as int),
    ensures
        solution_of(g, g),
{
    assert forall|i: int| 0 <= i < g.cells.len() implies (#[trigger] g.cells[i]) is Digit && 1 <= g.cells[i]->Digit_0 <= g.side by {
        if order.contains(i as usize) {
            let k = choose|k: int| 0 <= k < order.len() && order[k] == i as usize;
            assert(g.cells[order[k] as int] is Digit);
        } else {
            assert(g.cells[i] == start.cells[i]);
        }
    }
}

proof fn lemma_exhausted(g: Board, start: Board, order: Seq<usize>, cands: Seq<Vec<usize>>, depth: int, x: int, cs: Seq<usize>)
    requires
        plan(start, order, cands),
        stage(g, start, order, depth),
        0 <= depth < order.len(),
        x == order[depth],
        cs == cands[x]@,
        forall|q: int| 0 <= q < cs.len() ==> ruled_out(g, x, #[trigger] cs[q]),
    ensures
        forall|s: Board| !solution_of(s, g),
{
    assert forall|s: Board| !solution_of(s, g) by {
        if solution_of(s, g) {
            let d = s.cells[x]->Digit_0;
            assert(s.cells[x] is Digit);
            if cs.contains(d) {
                let q = choose|q: int| 0 <= q < cs.len() && cs[q] == d;
                assert(ruled_out(g, x, cs[q]));
            } else {
                assert(start.cells[x] is Empty);
                assert(justified(start, x, d as int));
                let j = choose|j: int| #[trigger] conflict(start.side, start.box_side, x, j) && start.cells[j] == SudokuCell::Digit(d);
                lemma_stage_keeps_clues(g, start, order, cands, depth, j);
                assert(violating(s, x, j));
            }
        }
    }
}

/// Relies on itertools' `sorted_unstable`: the same items in ascending order,
/// pairs compared by their first field, then by their second.
#[verifier::external_body]
fn sort_by_count(items: Vec<(usize, usize)>) -> (r: Vec<(usize, usize)>)
    ensures
        r@.to_multiset() == items@.to_multiset(),
        forall|k1: int, k2: int| 0 <= k1 < k2 < r@.len() ==> !pair_less(#[trigger] r@[k2], #[trigger] r@[k1]),
{
    items.into_iter().sorted_unstable().collect()
}

/// Cell `i` comes before cell `j` in the search: fewer candidates, or as many
/// and a lower index.
pub open spec fn key_less(g: Board, i: int, j: int) -> bool {
    let n = g.side as int;
    ||| free_digits(g, i, n) < free_digits(g, j, n)
    ||| (free_digits(g, i, n) == free_digits(g, j, n) && i < j)
}

/// `o` is the search order of `g`: each empty cell once, fewest candidates
/// first, ties by index.
pub open spec fn search_order_of(g: Board, o: Seq<usize>) -> bool {
    &&& forall|k: int| 0 <= k < o.len() ==> (#[trigger] o[k]) < g.cells.len() && g.cells[o[k] as int] is Empty
    &&& forall|i: int| 0 <= i < g.cells.len() && (#[trigger] g.cells[i]) is Empty ==> o.contains(i as usize)
    &&& forall|k1: int, k2: int| 0 <= k1 < k2 < o.len() ==> key_less(g, #[trigger] o[k1] as int, #[trigger] o[k2] as int)
}

/// The search order of `g`.
pub open spec fn search_order(g: Board) -> Seq<usize> {
    choose|o: Seq<usize>| search_order_of(g, o)
}

/// Board `a` comes before board `b` when they are compared digit by digit
/// along the cells `o[k..]`.
pub open spec fn before(a: Board, b: Board, o: Seq<usize>, k: int) -> bool
    decreases o.len() - k,
{
    if k < 0 || k >= o.len() {
        false
    } else {
        let x = o[k] as int;
        ||| a.cells[x]->Digit_0 < b.cells[x]->Digit_0
        ||| (a.cells[x] == b.cells[x] && before(a, b, o, k + 1))
    }
}

/// The completion that `backtrack` returns: the first in the search order.
pub open spec fn first_completion(g: Board) -> Board {
    choose|s: Board|
        solution_of(s, g) && forall|s2: Board| #[trigger] solution_of(s2, g) ==> !before(s2, s, search_order(g), 0)
}

proof fn lemma_order_prefix(g: Board, o1: Seq<usize>, o2: Seq<usize>, k: int)
    requires
        search_order_of(g, o1),
        search_order_of(g, o2),
        0 <= k,
        forall|j: int| 0 <= j < k && j < o1.len() && j < o2.len() ==> o1[j] == o2[j],
    ensures
        forall|j: int| 0 <= j < o1.len() && j < o2.len() ==> o1[j] == o2[j],
    decreases o1.len() - k,
{
    if k < o1.len() && k < o2.len() {
        let x = o1[k];
        let y = o2[k];
        if x != y {
            assert(o2.contains(x)) by {
                assert(g.cells[o1[k] as int] is Empty);
            }
            let m = choose|m: int| 0 <= m < o2.len() && o2[m] == x;
            assert(o1.contains(y)) by {
                assert(g.cells[o2[k] as int] is Empty);
            }
            let m2 = choose|m: int| 0 <= m < o1.len() && o1[m] == y;
            if m < k {
                assert(o1[m] == x);
                assert(key_less(g, o1[m] as int, o1[k] as int));
            } else if m2 < k {
                assert(o2[m2] == y);
                assert(key_less(g, o2[m2] as int, o2[k] as int));
            } else {
                assert(key_less(g, o2[k] as int, o2[m] as int));
                assert(key_less(g, o1[k] as int, o1[m2] as int));
            }
        }
        lemma_order_prefix(g, o1, o2, k + 1);
    }
}

/// The search order is unique.
proof fn lemma_order_unique(g: Board, o1: Seq<usize>, o2: Seq<usize>)
    requires
        search_order_of(g, o1),
        search_order_of(g, o2),
    ensures
        o1 == o2,
{
    lemma_order_prefix(g, o1, o2, 0);
    if o1.len() > o2.len() {
        let x = o1[o2.len() as int];
        assert(g.cells[o1[o2.len() as int] as int] is Empty);
        let m = choose|m: int| 0 <= m < o2.len() && o2[m] == x;
        assert(o1[m] == x);
        assert(key_less(g, o1[m] as int, o1[o2.len() as int] as int));
    } else if o2.len() > o1.len() {
        let x = o2[o1.len() as int];
        assert(g.cells[o2[o1.len() as int] as int] is Empty);
        let m = choose|m: int| 0 <= m < o1.len() && o1[m] == x;
        assert(o2[m] == x);
        assert(key_less(g, o2[m] as int, o2[o1.len() as int] as int));
    }
    assert(o1 =~= o2);
}

/// Two full boards, neither before the other along `o[k..]`, agree there.
proof fn lemma_before_total(a: Board, b: Board, o: Seq<usize>, k: int)
    requires
        0 <= k,
        forall|j: int| k <= j < o.len() ==> (o[j] as int) < a.cells.len() && (o[j] as int) < b.cells.len(),
        a.full(),
        b.full(),
        !before(a, b, o, k),
        !before(b, a, o, k),
    ensures
        forall|j: int| k <= j < o.len() ==> a.cells[#[trigger] o[j] as int] == b.cells[o[j] as int],
    decreases o.len() - k,
{
    if k < o.len() {
        let x = o[k] as int;
        assert(a.cells[x] is Digit && b.cells[x] is Digit);
        assert(a.cells[x] == b.cells[x]);
        lemma_before_total(a, b, o, k + 1);
    }
}

/// Depth-first search from `depth` on: tries the candidates of cell
/// `order[depth]` in ascending order, checking each new digit only against
/// the digits already on the board.
fn search(sudoku: &mut Sudoku, order: &Vec<usize>, cands: &Vec<Vec<usize>>, depth: usize, Ghost(start): Ghost<Board>) -> (found: bool)
    requires
        plan(start, order@, cands@),
        depth <= order@.len(),
        stage(old(sudoku)@, start, order@, depth as int),
    ensures
        found ==> solution_of(final(sudoku)@, old(sudoku)@),
        found ==> forall|s2: Board| #[trigger] solution_of(s2, old(sudoku)@) ==> !before(s2, final(sudoku)@, order@, depth as int),
        !found ==> final(sudoku)@ == old(sudoku)@,
        !found ==> forall|s: Board| !solution_of(s, old(sudoku)@),
    decreases order@.len() - depth,
{
    let ghost g = sudoku@;
    if depth == order.len() {
        proof {
            lemma_stage_full(g, start, order@, cands@);
        }
        return true;
    }
    let x = order[depth];
    let cs = &cands[x];
    let len = order.len();
    let mut p: usize = 0;
    while p < cs.len()
        invariant
            sudoku@ == g,
            g == old(sudoku)@,
            plan(start, order@, cands@),
            stage(g, start, order@, depth as int),
            depth < order@.len(),
            len == order@.len(),
            x == order@[depth as int],
            cs@ == cands@[x as int]@,
            p <= cs@.len(),
            forall|q: int| 0 <= q < p ==> ruled_out(g, x as int, #[trigger] cs@[q]),
        decreases cs@.len() - p,
    {
        let v = cs[p];
        proof {
            assert(start.cells[x as int] is Empty);
            assert(candidates_ok(start, x as int, cs@));
            assert(1 <= cs@[p as int] <= start.side);
        }
        sudoku.set_raw(x, SudokuCell::Digit(v));
        let ghost g1 = sudoku@;
        if !violates_constraints(sudoku, x, v) {
            proof {
                assert forall|i: int, j: int| !#[trigger] violating(g1, i, j) by {
                    if violating(g1, i, j) {
                        if i == x {
                            assert(clashes(g1, x as int, v));
                        } else if j == x {
                            assert(conflict(g1.side, g1.box_side, x as int, i));
                            assert(clashes(g1, x as int, v));
                        } else {
                            assert(violating(g, i, j));
                        }
                    }
                }
                assert forall|k: int| depth + 1 <= k < order@.len() implies g1.cells[#[trigger] order@[k] as int] is Empty by {
                    assert(order@[k] != order@[depth as int]);
                }
                assert forall|k: int| 0 <= k < depth + 1 implies g1.cells[#[trigger] order@[k] as int] is Digit
                    && 1 <= g1.cells[order@[k] as int]->Digit_0 <= g1.side by {
                    if k < depth {
                        assert(order@[k] != order@[depth as int]);
                    }
                }
                assert forall|i: int| 0 <= i < g1.cells.len() && !order@.contains(i as usize) implies #[trigger] g1.cells[i] == start.cells[i] by {
                    assert(i != x);
                }
                assert(stage(g1, start, order@, depth + 1));
            }
            if search(sudoku, order, cands, depth + 1, Ghost(start)) {
                proof {
                    let f = sudoku@;
                    assert forall|i: int| 0 <= i < g.cells.len() && (#[trigger] g.cells[i]) is Digit implies f.cells[i] == g.cells[i] by {
                        assert(g1.cells[i] == g.cells[i]);
                    }
                    assert(candidates_exact(start, x as int, cs@));
                    assert forall|s2: Board| #[trigger] solution_of(s2, g) implies !before(s2, f, order@, depth as int) by {
                        if before(s2, f, order@, depth as int) {
                            assert(f.cells[x as int] == SudokuCell::Digit(v));
                            assert(s2.cells[x as int] is Digit);
                            let w = s2.cells[x as int]->Digit_0;
                            if w < v {
                                if justified(start, x as int, w as int) {
                                    let j = choose|j: int| #[trigger] conflict(start.side, start.box_side, x as int, j) && start.cells[j] == SudokuCell::Digit(w);
                                    lemma_stage_keeps_clues(g, start, order@, cands@, depth as int, j);
                                    assert(violating(s2, x as int, j));
                                }
                                assert(1 <= w <= start.side);
                                assert(cs@.contains(w));
                                let q = choose|q: int| 0 <= q < cs@.len() && cs@[q] == w;
                                if q >= p {
                                    if q > p {
                                        assert(cs@[p as int] < cs@[q]);
                                    }
                                }
                                assert(ruled_out(g, x as int, cs@[q]));
                            } else {
                                assert(s2.cells[x as int] == f.cells[x as int]);
                                assert(solution_of(s2, g1));
                            }
                        }
                    }
                }
                return true;
            }
            proof {
                assert forall|s: Board| #[trigger] solution_of(s, g) implies s.cells[x as int] != SudokuCell::Digit(v) by {
                    if s.cells[x as int] == SudokuCell::Digit(v) {
                        assert(solution_of(s, g1));
                    }
                }
            }
        } else {
            proof {
                let j = choose|j: int| #[trigger] conflict(g1.side, g1.box_side, x as int, j) && g1.cells[j] == SudokuCell::Digit(v);
                assert forall|s: Board| #[trigger] solution_of(s, g) implies s.cells[x as int] != SudokuCell::Digit(v) by {
                    if s.cells[x as int] == SudokuCell::Digit(v) {
                        assert(violating(s, x as int, j));
                    }
                }
            }
        }
        sudoku.set_raw(x, SudokuCell::Empty);
        proof {
            assert(sudoku@.cells =~= g.cells);
        }
        p += 1;
    }
    proof {
        lemma_exhausted(g, start, order@, cands@, depth as int, x as int, cs@);
    }
    false
}

/// Some cell that must differ from `x` holds the digit `v`.
pub open spec fn clashes(g: Board, x: int, v: usize) -> bool {
    exists|j: int| #[trigger] conflict(g.side, g.box_side, x, j) && g.cells[j] == SudokuCell::Digit(v)
}

/// The cell holds the digit `v`.
fn holds(cell: &SudokuCell, v: usize) -> (r: bool)
    ensures
        r == (*cell == SudokuCell::Digit(v)),
{
    match cell.value() {
        Some(d) => d == v,
        None => false,
    }
}

/// Whether writing `new_value` in cell `last_changed` clashes with a digit in
/// the same row, column or box (the cell itself is not looked at).
pub(crate) fn violates_constraints(sudoku: &Sudoku, last_changed: usize, new_value: usize) -> (r: bool)
    requires
        sudoku@.square(),
        last_changed < sudoku@.cells.len(),
    ensures
        r == clashes(sudoku@, last_changed as int, new_value),
{
    let ghost g = sudoku@;
    let side = sudoku.side();
    let box_side = sudoku.box_side();
    let ghost n = side as int;
    let ghost b = box_side as int;
    proof {
        lemma_cell_split(n, last_changed as int);
    }
    let r = last_changed / side;
    let c = last_changed % side;
    let mut cc: usize = 0;
    while cc < side
        invariant
            g == sudoku@,
            g.square(),
            side == g.side,
            box_side == g.box_side,
            n == side,
            b == box_side,
            r < side,
            c < side,
            last_changed == r * side + c,
            cc <= side,
            forall|k: int| 0 <= k < cc && k != c ==> #[trigger] g.at(r as int, k) != SudokuCell::Digit(new_value),
        decreases side - cc,
    {
        if cc != c {
            if holds(sudoku.get(r, cc), new_value) {
                proof {
                    lemma_cell_index(n, r as int, cc as int);
                    lemma_cell_index(n, r as int, c as int);
                    let ghost j = (r * side + cc) as int;
                        assert(conflict(g.side, g.box_side, last_changed as int, j));
                        assert(g.cells[j] == SudokuCell::Digit(new_value));
                    assert(clashes(g, last_changed as int, new_value));
                }
                return true;
            }
        }
        cc += 1;
    }
    let mut rr: usize = 0;
    while rr < side
        invariant
            g == sudoku@,
            g.square(),
            side == g.side,
            box_side == g.box_side,
            n == side,
            b == box_side,
            r < side,
            c < side,
            last_changed == r * side + c,
            rr <= side,
            forall|k: int| 0 <= k < side && k != c ==> #[trigger] g.at(r as int, k) != SudokuCell::Digit(new_value),
            forall|k: int| 0 <= k < rr && k != r ==> #[trigger] g.at(k, c as int) != SudokuCell::Digit(new_value),
        decreases side - rr,
    {
        if rr != r {
            if holds(sudoku.get(rr, c), new_value) {
                proof {
                    lemma_cell_index(n, rr as int, c as int);
                    lemma_cell_index(n, r as int, c as int);
                    let ghost j = (rr * side + c) as int;
                        assert(conflict(g.side, g.box_side, last_changed as int, j));
                        assert(g.cells[j] == SudokuCell::Digit(new_value));
                    assert(clashes(g, last_changed as int, new_value));
                }
                return true;
            }
        }
        rr += 1;
    }
    proof {
        assert(b * b == n);
        assert(b > 0) by (nonlinear_arith)
            requires
                n == b * b,
                b >= 0,
                0 <= r < n,
        ;
    }
    let mut h: usize = 0;
    while h < box_side
        invariant
            g == sudoku@,
            g.square(),
            side == g.side,
            box_side == g.box_side,
            n == side,
            b == box_side,
            box_side > 0,
            r < side,
            c < side,
            last_changed == r * side + c,
            h <= box_side,
            forall|k: int| 0 <= k < side && k != c ==> #[trigger] g.at(r as int, k) != SudokuCell::Digit(new_value),
            forall|k: int| 0 <= k < side && k != r ==> #[trigger] g.at(k, c as int) != SudokuCell::Digit(new_value),
            forall|v: int, hh: int|
                0 <= v < box_side && 0 <= hh < h && (box_side * (r / box_side) + v != r
                    || box_side * (c / box_side) + hh != c) ==> #[trigger] g.at(
                    box_side * (r / box_side) + v,
                    box_side * (c / box_side) + hh,
                ) != SudokuCell::Digit(new_value),
        decreases box_side - h,
    {
        let mut v: usize = 0;
        while v < box_side
            invariant
                g == sudoku@,
                g.square(),
                side == g.side,
                box_side == g.box_side,
            n == side,
            b == box_side,
                box_side > 0,
                r < side,
                c < side,
                last_changed == r * side + c,
                h < box_side,
                v <= box_side,
                forall|k: int| 0 <= k < side && k != c ==> #[trigger] g.at(r as int, k) != SudokuCell::Digit(new_value),
                forall|k: int| 0 <= k < side && k != r ==> #[trigger] g.at(k, c as int) != SudokuCell::Digit(new_value),
                forall|vv: int, hh: int|
                    0 <= vv < box_side && 0 <= hh < h && (box_side * (r / box_side) + vv != r
                        || box_side * (c / box_side) + hh != c) ==> #[trigger] g.at(
                        box_side * (r / box_side) + vv,
                        box_side * (c / box_side) + hh,
                    ) != SudokuCell::Digit(new_value),
                forall|vv: int|
                    0 <= vv < v && (box_side * (r / box_side) + vv != r || box_side * (c
                        / box_side) + h != c) ==> #[trigger] g.at(
                        box_side * (r / box_side) + vv,
                        box_side * (c / box_side) + h,
                    ) != SudokuCell::Digit(new_value),
            decreases box_side - v,
        {
            proof {
                lemma_box_offset(b, r as int, v as int);
                lemma_box_offset(b, c as int, h as int);
            }
            let rr = box_side * (r / box_side) + v;
            let cc = box_side * (c / box_side) + h;
            if rr != r && cc != c {
                if holds(sudoku.get(rr, cc), new_value) {
                    proof {
                        lemma_cell_index(n, rr as int, cc as int);
                        lemma_cell_index(n, r as int, c as int);
                        let ghost j = (rr * side + cc) as int;
                        assert(conflict(g.side, g.box_side, last_changed as int, j));
                        assert(g.cells[j] == SudokuCell::Digit(new_value));
                    assert(clashes(g, last_changed as int, new_value));
                        assert(clashes(g, last_changed as int, new_value));
                    }
                    return true;
                }
            }
            v += 1;
        }
        h += 1;
    }
    proof {
        assert forall|j: int| conflict(g.side, g.box_side, last_changed as int, j) implies g.cells[j]
            != SudokuCell::Digit(new_value) by {
            lemma_cell_split(n, j);
            lemma_cell_index(n, r as int, c as int);
            let jr = j / n;
            let jc = j % n;
            assert(g.cells[j] == g.at(jr, jc));
            if jr != r && jc != c {
                lemma_box_offset(b, r as int, jr % b);
                lemma_box_offset(b, jr, jr % b);
                lemma_box_offset(b, c as int, jc % b);
                lemma_box_offset(b, jc, jc % b);
                assert(g.at(b * (r as int / b) + jr % b, b * (c as int / b) + jc % b) != SudokuCell::Digit(new_value));
            }
        }
    }
    false
}

/// Digit `d` is in the exclusion set of cell `a`.
pub open spec fn has(t: Seq<BTreeSet<usize>>, a: int, d: int) -> bool {
    t[a]@.contains(d as usize)
}

/// The exclusion sets of `g`, one per cell: a digit is in the set of a cell
/// only when a cell that must differ from it holds that digit.
pub open spec fn table_sound(g: Board, t: Seq<BTreeSet<usize>>) -> bool {
    &&& t.len() == g.cells.len()
    &&& forall|a: int, d: int| 0 <= a < t.len() && 0 <= d <= usize::MAX && #[trigger] has(t, a, d) ==> justified(g, a, d)
}

/// The digit held by cell `j` is in the set of cell `i` when `i` is empty.
pub open spec fn marked(g: Board, t: Seq<BTreeSet<usize>>, i: int, j: int) -> bool {
    g.cells[i] is Empty && g.cells[j] is Digit ==> has(t, i, g.cells[j]->Digit_0 as int)
}

/// Every digit held by a cell that must differ from an empty cell is in its set.
pub open spec fn table_complete(g: Board, t: Seq<BTreeSet<usize>>) -> bool {
    forall|a: int, d: int|
        0 <= a < g.cells.len() && 1 <= d <= g.side && g.cells[a] is Empty && #[trigger] justified(g, a, d) ==> has(t, a, d)
}

/// Adds, for the empty cell `this`, the digit that `that` holds to its set.
fn exclude(excluded: &mut Vec<BTreeSet<usize>>, sudoku: &Sudoku, this: usize, that: usize)
    requires
        sudoku@.square(),
        sudoku@.digits_in_range(),
        conflict(sudoku@.side, sudoku@.box_side, this as int, that as int),
        table_sound(sudoku@, old(excluded)@),
    ensures
        table_sound(sudoku@, final(excluded)@),
        forall|a: int, d: int| 0 <= a < old(excluded)@.len() && #[trigger] has(old(excluded)@, a, d) ==> has(final(excluded)@, a, d),
        marked(sudoku@, final(excluded)@, this as int, that as int),
{
    broadcast use vstd::laws_cmp::group_laws_cmp;
    let ghost g = sudoku@;
    if sudoku.get_raw(this).is_empty() {
        if let Some(v) = sudoku.get_raw(that).value() {
            let mut set: BTreeSet<usize> = BTreeSet::new();
            excluded.set_and_swap(this, &mut set);
            set.insert(v);
            excluded.set_and_swap(this, &mut set);
            proof {
                assert(excluded@[this as int]@ == old(excluded)@[this as int]@.insert(v));
                assert(justified(g, this as int, v as int));
                assert forall|a: int, d: int| 0 <= a < excluded@.len() && 0 <= d <= usize::MAX && #[trigger] has(excluded@, a, d) implies justified(g, a, d) by {
                    if a == this && d == v {
                        assert(justified(g, a, d));
                    } else if a == this {
                        assert(d as usize != v);
                        assert(old(excluded)@[a]@.contains(d as usize));
                        assert(has(old(excluded)@, a, d));
                        assert(justified(g, a, d));
                    } else {
                        assert(excluded@[a] == old(excluded)@[a]);
                        assert(has(old(excluded)@, a, d));
                        assert(justified(g, a, d));
                    }
                }
                assert forall|a: int, d: int| 0 <= a < old(excluded)@.len() && #[trigger] has(old(excluded)@, a, d) implies has(excluded@, a, d) by {
                    if a != this {
                        assert(excluded@[a] == old(excluded)@[a]);
                    }
                }
            }
        }
    }
}

/// Two items with the same cell are the same item.
pub open spec fn keyed(items: Seq<(usize, usize)>, ok: spec_fn((usize, usize)) -> bool) -> bool {
    &&& forall|m: int| 0 <= m < items.len() ==> #[trigger] ok(items[m])
    &&& forall|t1: (usize, usize), t2: (usize, usize)| #[trigger] ok(t1) && #[trigger] ok(t2) && t1.1 == t2.1 ==> t1 == t2
}

proof fn lemma_reordered_cells(items: Seq<(usize, usize)>, sorted: Seq<(usize, usize)>, order: Seq<usize>, ok: spec_fn((usize, usize)) -> bool)
    requires
        sorted.to_multiset() == items.to_multiset(),
        forall|i: int, j: int| 0 <= i < j < items.len() ==> (#[trigger] items[i]).1 < (#[trigger] items[j]).1,
        keyed(items, ok),
        order.len() == sorted.len(),
        forall|k: int| 0 <= k < order.len() ==> #[trigger] order[k] == sorted[k].1,
    ensures
        order.no_duplicates(),
        sorted.no_duplicates(),
        forall|k: int| 0 <= k < sorted.len() ==> #[trigger] ok(sorted[k]),
        forall|m: int| 0 <= m < items.len() ==> order.contains(#[trigger] items[m].1),
{
    items.to_multiset_ensures();
    sorted.to_multiset_ensures();
    assert(items.no_duplicates()) by {
        assert forall|i: int, j: int| 0 <= i < items.len() && 0 <= j < items.len() && i != j implies items[i] != items[j] by {
            if i < j {
                assert(items[i].1 < items[j].1);
            } else {
                assert(items[j].1 < items[i].1);
            }
        }
    }
    items.lemma_multiset_has_no_duplicates();
    sorted.lemma_multiset_has_no_duplicates_conv();
    assert forall|k: int| 0 <= k < sorted.len() implies #[trigger] ok(sorted[k]) by {
        assert(sorted.contains(sorted[k]));
        assert(sorted.to_multiset().count(sorted[k]) > 0);
        assert(items.to_multiset().count(sorted[k]) > 0);
        assert(items.contains(sorted[k]));
        let m = choose|m: int| 0 <= m < items.len() && items[m] == sorted[k];
        assert(ok(items[m]));
    }
    assert forall|k1: int, k2: int| 0 <= k1 < order.len() && 0 <= k2 < order.len() && k1 != k2 implies order[k1] != order[k2] by {
        assert(ok(sorted[k1]) && ok(sorted[k2]));
        assert(sorted[k1] != sorted[k2]);
    }
    assert forall|m: int| 0 <= m < items.len() implies order.contains(#[trigger] items[m].1) by {
        assert(items.contains(items[m]));
        assert(items.to_multiset().count(items[m]) > 0);
        assert(sorted.to_multiset().count(items[m]) > 0);
        assert(sorted.contains(items[m]));
        let k = choose|k: int| 0 <= k < sorted.len() && sorted[k] == items[m];
        assert(order[k] == items[m].1);
    }
}

/// Solves the board in place by depth-first search over its empty cells.
///
/// The empty cells are visited in ascending order of their number of
/// candidates, counted once from the given digits (ties by lower index), and
/// the candidates of a cell in ascending order. On success the board holds
/// the first valid completion in that order, which keeps every given digit;
/// when no completion exists, the board is left as it was and `Infeasible`
/// comes back.
pub fn backtrack(sudoku: &mut Sudoku) -> (r: Result<(), SolveError>)
    requires
        old(sudoku)@.square(),
        old(sudoku)@.digits_in_range(),
    ensures
        r is Ok <==> exists|s: Board| solution_of(s, old(sudoku)@),
        r is Ok ==> solution_of(final(sudoku)@, old(sudoku)@),
        r is Ok ==> final(sudoku)@ == first_completion(old(sudoku)@),
        r is Err ==> final(sudoku)@ == old(sudoku)@,
{
    let ghost g = sudoku@;
    let side = sudoku.side();
    let box_side = sudoku.box_side();
    let cells = side * side;
    let pairs = conflict_pairs(side, box_side);

    // Given digits that already clash leave nothing to search.
    if !is_consistent(sudoku) {
        proof {
            let (i, j) = choose|i: int, j: int| violating(g, i, j);
            assert forall|s: Board| !solution_of(s, g) by {
                if solution_of(s, g) {
                    assert(violating(s, i, j));
                }
            }
        }
        return Err(SolveError::Infeasible);
    }

    // For every cell, the digits held by the given cells it must differ from.
    let mut excluded: Vec<BTreeSet<usize>> = Vec::new();
    let mut a: usize = 0;
    while a < cells
        invariant
            sudoku@ == g,
            g.square(),
            side == g.side,
            cells == g.cells.len(),
            a <= cells,
            excluded@.len() == a,
            forall|x: int| 0 <= x < a ==> (#[trigger] excluded@[x])@ == Set::<usize>::empty(),
        decreases cells - a,
    {
        excluded.push(BTreeSet::new());
        a += 1;
    }
    let mut k: usize = 0;
    while k < pairs.len()
        invariant
            sudoku@ == g,
            g.square(),
            g.digits_in_range(),
            k <= pairs@.len(),
            forall|m: int| 0 <= m < pairs@.len() ==> (#[trigger] pairs@[m]).0 < pairs@[m].1 && conflict(
                g.side,
                g.box_side,
                pairs@[m].0 as int,
                pairs@[m].1 as int,
            ),
            table_sound(g, excluded@),
            forall|i: int, j: int| i < j && #[trigger] conflict(g.side, g.box_side, i, j) ==> lists_pair(pairs@, i, j),
            forall|m: int| 0 <= m < k ==> marked(g, excluded@, (#[trigger] pairs@[m]).0 as int, pairs@[m].1 as int)
                && marked(g, excluded@, pairs@[m].1 as int, pairs@[m].0 as int),
        decreases pairs@.len() - k,
    {
        let (i, j) = pairs[k];
        let ghost t0 = excluded@;
        exclude(&mut excluded, sudoku, i, j);
        let ghost t1 = excluded@;
        exclude(&mut excluded, sudoku, j, i);
        proof {
            assert forall|m: int| 0 <= m < k + 1 implies marked(g, excluded@, (#[trigger] pairs@[m]).0 as int, pairs@[m].1 as int)
                && marked(g, excluded@, pairs@[m].1 as int, pairs@[m].0 as int) by {
                let (x, y) = pairs@[m];
                if m < k {
                    assert(marked(g, t0, x as int, y as int) && marked(g, t0, y as int, x as int));
                }
                if g.cells[x as int] is Empty && g.cells[y as int] is Digit {
                    assert(1 <= g.cells[y as int]->Digit_0 <= g.side);
                }
                if g.cells[y as int] is Empty && g.cells[x as int] is Digit {
                    assert(1 <= g.cells[x as int]->Digit_0 <= g.side);
                }
            }
        }
        k += 1;
    }

    proof {
        assert forall|a: int, d: int|
            0 <= a < g.cells.len() && 1 <= d <= g.side && g.cells[a] is Empty && #[trigger] justified(g, a, d) implies has(excluded@, a, d) by {
            let j = choose|j: int| #[trigger] conflict(g.side, g.box_side, a, j) && g.cells[j] == SudokuCell::Digit(d as usize);
            if a < j {
                assert(lists_pair(pairs@, a, j));
                let m = choose|m: int| 0 <= m < pairs@.len() && pairs@[m].0 == a && pairs@[m].1 == j;
                assert(marked(g, excluded@, pairs@[m].0 as int, pairs@[m].1 as int));
            } else {
                assert(conflict(g.side, g.box_side, j, a));
                assert(lists_pair(pairs@, j, a));
                let m = choose|m: int| 0 <= m < pairs@.len() && pairs@[m].0 == j && pairs@[m].1 == a;
                assert(marked(g, excluded@, pairs@[m].1 as int, pairs@[m].0 as int));
            }
        }
        assert(table_complete(g, excluded@));
    }

    // The candidates of each empty cell, ascending, and (count, cell) items.
    let mut cands: Vec<Vec<usize>> = Vec::new();
    let mut items: Vec<(usize, usize)> = Vec::new();
    let mut a: usize = 0;
    while a < cells
        invariant
            sudoku@ == g,
            g.square(),
            side == g.side,
            cells == g.cells.len(),
            a <= cells,
            table_sound(g, excluded@),
            cands@.len() == a,
            table_complete(g, excluded@),
            forall|x: int| 0 <= x < a && (#[trigger] g.cells[x]) is Empty ==> candidates_exact(g, x, cands@[x]@),
            forall|m: int| 0 <= m < items@.len() ==> (#[trigger] items@[m]).1 < a && g.cells[items@[m].1 as int] is Empty
                && items@[m].0 == cands@[items@[m].1 as int]@.len(),
            forall|i: int, j: int| 0 <= i < j < items@.len() ==> (#[trigger] items@[i]).1 < (#[trigger] items@[j]).1,
            forall|x: int| 0 <= x < a && (#[trigger] g.cells[x]) is Empty ==> items@.contains((cands@[x]@.len() as usize, x as usize)),
        decreases cells - a,
    {
        let mut cs: Vec<usize> = Vec::new();
        if sudoku.get_raw(a).is_empty() {
            let mut d: usize = 1;
            while d <= side
                invariant
                    g.square(),
                    side == g.side,
                    a < cells,
                    cells == g.cells.len(),
                    table_sound(g, excluded@),
                    table_complete(g, excluded@),
                    g.cells[a as int] is Empty,
                    1 <= d <= side + 1,
                    forall|q: int| 0 <= q < cs@.len() ==> 1 <= #[trigger] cs@[q] < d,
                    forall|q1: int, q2: int| 0 <= q1 < q2 < cs@.len() ==> #[trigger] cs@[q1] < #[trigger] cs@[q2],
                    forall|q: int| 0 <= q < cs@.len() ==> !justified(g, a as int, #[trigger] cs@[q] as int),
                    cs@.len() == free_digits(g, a as int, d - 1),
                    forall|e: int| 1 <= e < d && !cs@.contains(e as usize) ==> #[trigger] justified(g, a as int, e),
                decreases side + 1 - d,
            {
                proof {
                    assert(side < usize::MAX) by (nonlinear_arith)
                        requires
                            side * side <= usize::MAX,
                            d <= side,
                    ;
                }
                if !excluded[a].contains(&d) {
                    let ghost before = cs@;
                    cs.push(d);
                    proof {
                        assert(!justified(g, a as int, d as int));
                        assert forall|q: int| 0 <= q < cs@.len() implies !justified(g, a as int, #[trigger] cs@[q] as int) by {
                            if q < before.len() {
                                assert(cs@[q] == before[q]);
                            }
                        }
                        assert forall|e: int| 1 <= e < d + 1 && !cs@.contains(e as usize) implies #[trigger] justified(g, a as int, e) by {
                            if e < d {
                                if before.contains(e as usize) {
                                    let q = choose|q: int| 0 <= q < before.len() && before[q] == e as usize;
                                    assert(cs@[q] == e as usize);
                                }
                            } else {
                                assert(cs@[before.len() as int] == d);
                            }
                        }
                    }
                } else {
                    proof {
                        assert(has(excluded@, a as int, d as int));
                        assert(justified(g, a as int, d as int));
                    }
                }
                d += 1;
            }
            let ghost before = items@;
            items.push((cs.len(), a));
            proof {
                assert(items@[before.len() as int] == (cs@.len() as usize, a));
                assert forall|x: int| 0 <= x < a && (#[trigger] g.cells[x]) is Empty implies items@.contains((cands@[x]@.len() as usize, x as usize)) by {
                    let m = choose|m: int| 0 <= m < before.len() && before[m] == (cands@[x]@.len() as usize, x as usize);
                    assert(items@[m] == before[m]);
                }
            }
        }
        let ghost before = cands@;
        cands.push(cs);
        proof {
            assert forall|x: int| 0 <= x < a + 1 && (#[trigger] g.cells[x]) is Empty implies candidates_exact(g, x, cands@[x]@) by {
                if x < a {
                    assert(cands@[x] == before[x]);
                }
            }
            assert forall|x: int| 0 <= x < a + 1 && (#[trigger] g.cells[x]) is Empty implies items@.contains((cands@[x]@.len() as usize, x as usize)) by {
                if x < a {
                    assert(cands@[x] == before[x]);
                } else {
                    assert(items@[items@.len() - 1] == (cs@.len() as usize, a));
                }
            }
            assert forall|m: int| 0 <= m < items@.len() implies (#[trigger] items@[m]).1 < a + 1 && g.cells[items@[m].1 as int] is Empty
                && items@[m].0 == cands@[items@[m].1 as int]@.len() by {
                let x = items@[m].1 as int;
                if x < a {
                    assert(cands@[x] == before[x]);
                }
            }
        }
        a += 1;
    }

    // Fewest candidates first: the order is fixed once, from the given digits.
    let sorted = sort_by_count(items);
    let mut order: Vec<usize> = Vec::new();
    let mut k: usize = 0;
    while k < sorted.len()
        invariant
            k <= sorted@.len(),
            order@.len() == k,
            forall|q: int| 0 <= q < k ==> #[trigger] order@[q] == sorted@[q].1,
        decreases sorted@.len() - k,
    {
        order.push(sorted[k].1);
        k += 1;
    }
    proof {
        let ok = |t: (usize, usize)| t.1 < cells && g.cells[t.1 as int] is Empty && t.0 == cands@[t.1 as int]@.len();
        assert(keyed(items@, ok));
        lemma_reordered_cells(items@, sorted@, order@, ok);
        assert forall|k: int| 0 <= k < order@.len() implies (#[trigger] order@[k]) < g.cells.len() && g.cells[order@[k] as int] is Empty by {
            assert(ok(sorted@[k]));
        }
        assert forall|i: int| 0 <= i < g.cells.len() && (#[trigger] g.cells[i]) is Empty implies order@.contains(i as usize) by {
            assert(items@.contains((cands@[i]@.len() as usize, i as usize)));
            let m = choose|m: int| 0 <= m < items@.len() && items@[m] == (cands@[i]@.len() as usize, i as usize);
            assert(order@.contains(items@[m].1));
        }
        assert forall|i: int| 0 <= i < cands@.len() && (#[trigger] g.cells[i]) is Empty implies candidates_exact(g, i, cands@[i]@) by {}
        assert(plan(g, order@, cands@));
        assert forall|i: int| 0 <= i < g.cells.len() && !order@.contains(i as usize) implies #[trigger] g.cells[i] == g.cells[i] by {}
        assert forall|k: int| 0 <= k < order@.len() implies g.cells[#[trigger] order@[k] as int] is Empty by {}
        assert(stage(g, g, order@, 0));
    }
    proof {
        let ok = |t: (usize, usize)| t.1 < cells && g.cells[t.1 as int] is Empty && t.0 == cands@[t.1 as int]@.len();
        lemma_reordered_cells(items@, sorted@, order@, ok);
        assert forall|k1: int, k2: int| 0 <= k1 < k2 < order@.len() implies key_less(g, #[trigger] order@[k1] as int, #[trigger] order@[k2] as int) by {
            assert(ok(sorted@[k1]) && ok(sorted@[k2]));
            assert(sorted@[k1] != sorted@[k2]);
            assert(!pair_less(sorted@[k2], sorted@[k1]));
            assert(candidates_exact(g, order@[k1] as int, cands@[order@[k1] as int]@));
            assert(candidates_exact(g, order@[k2] as int, cands@[order@[k2] as int]@));
        }
        assert(search_order_of(g, order@));
    }
    if search(sudoku, &order, &cands, 0, Ghost(g)) {
        proof {
            let f = sudoku@;
            lemma_order_unique(g, order@, search_order(g));
            assert(solution_of(f, g) && forall|s2: Board| #[trigger] solution_of(s2, g) ==> !before(s2, f, search_order(g), 0));
            let c = first_completion(g);
            assert(solution_of(c, g) && forall|s2: Board| #[trigger] solution_of(s2, g) ==> !before(s2, c, search_order(g), 0));
            assert(!before(c, f, order@, 0) && !before(f, c, order@, 0));
            lemma_before_total(c, f, order@, 0);
            assert forall|i: int| 0 <= i < g.cells.len() implies c.cells[i] == f.cells[i] by {
                if g.cells[i] is Empty {
                    let k = choose|k: int| 0 <= k < order@.len() && order@[k] == i as usize;
                    assert(c.cells[order@[k] as int] == f.cells[order@[k] as int]);
                }
            }
            assert(c.cells =~= f.cells);
        }
        Ok(())
    } else {
        Err(SolveError::Infeasible)
    }
}

/// A solved board holds different digits in every two cells that must differ.
pub proof fn lemma_solved_pairs_differ(g: Board)
    requires
        solved(g),
    ensures
        forall|i: int, j: int| #[trigger] conflict(g.side, g.box_side, i, j) ==> g.cells[i] != g.cells[j],
{
    assert forall|i: int, j: int| #[trigger] conflict(g.side, g.box_side, i, j) implies g.cells[i] != g.cells[j] by {
        assert(g.cells[i] is Digit);
        assert(!violating(g, i, j));
    }
}

/// Two equal digits given in one row leave the board without any completion,
/// so `backtrack` answers `Infeasible` on it.
pub proof fn lemma_equal_clues_in_row_infeasible(g: Board, i: int, j: int)
    requires
        g.wf(),
        0 <= i < g.cells.len(),
        0 <= j < g.cells.len(),
        i != j,
        i / g.side as int == j / g.side as int,
        g.cells[i] is Digit,
        g.cells[i] == g.cells[j],
    ensures
        forall|s: Board| !solution_of(s, g),
{
    assert forall|s: Board| !solution_of(s, g) by {
        if solution_of(s, g) {
            assert(violating(s, i, j));
        }
    }
}

} // verus!
