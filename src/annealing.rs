use vstd::prelude::*;
use crate::conflicts::{conflict, consistent, is_consistent, violating};
use crate::grid::{Board, Sudoku, SudokuCell, SudokuCellValue};

verus! {

/// alea's random number generator, carried through untouched.
#[verifier::external_type_specification]
#[verifier::external_body]
pub struct ExRng(alea::Rng);

/// Relies on alea's `Rng::u64_less_than`: for a positive bound, a value below it.
#[verifier::external_body]
fn draw_below(rng: &alea::Rng, bound: usize) -> (r: usize)
    requires
        bound > 0,
    ensures
        r < bound,
{
    rng.u64_less_than(bound as u64) as usize
}

/// Number of cells `j < m` that must differ from cell `i` and hold its digit.
pub open spec fn violations_upto(g: Board, i: int, m: int) -> nat
    decreases m,
{
    if m <= 0 {
        0
    } else {
        violations_upto(g, i, m - 1) + if violating(g, i, m - 1) {
            1nat
        } else {
            0nat
        }
    }
}

/// Number of cells that must differ from cell `i` and hold its digit.
pub open spec fn violations_at(g: Board, i: int) -> nat {
    violations_upto(g, i, g.cells.len() as int)
}

/// `counts` holds, for every cell, its number of violations on `g`.
pub open spec fn counts_match(g: Board, counts: Seq<usize>) -> bool {
    &&& counts.len() == g.cells.len()
    &&& forall|i: int| 0 <= i < counts.len() ==> #[trigger] counts[i] == violations_at(g, i)
}

/// The sum of a sequence.
pub open spec fn total(s: Seq<usize>) -> nat
    decreases s.len(),
{
    if s.len() == 0 {
        0
    } else {
        total(s.drop_last()) + s.last() as nat
    }
}

proof fn lemma_violations_bounded(g: Board, i: int, m: int)
    ensures
        violations_upto(g, i, m) <= if m < 0 { 0 } else { m },
    decreases m,
{
    if m > 0 {
        lemma_violations_bounded(g, i, m - 1);
    }
}

proof fn lemma_violations_zero(g: Board, i: int, m: int)
    requires
        consistent(g),
    ensures
        violations_upto(g, i, m) == 0,
    decreases m,
{
    if m > 0 {
        lemma_violations_zero(g, i, m - 1);
        assert(!violating(g, i, m - 1));
    }
}

proof fn lemma_violations_positive(g: Board, i: int, j: int, m: int)
    requires
        violating(g, i, j),
        0 <= j < m,
    ensures
        violations_upto(g, i, m) >= 1,
    decreases m,
{
    if m - 1 > j {
        lemma_violations_positive(g, i, j, m - 1);
    }
}

proof fn lemma_total_bounds(s: Seq<usize>)
    ensures
        (forall|k: int| 0 <= k < s.len() ==> #[trigger] s[k] == 0) ==> total(s) == 0,
        forall|k: int| 0 <= k < s.len() ==> #[trigger] s[k] <= total(s),
    decreases s.len(),
{
    if s.len() > 0 {
        lemma_total_bounds(s.drop_last());
        assert forall|k: int| 0 <= k < s.len() implies #[trigger] s[k] <= total(s) by {
            if k < s.len() - 1 {
                assert(s.drop_last()[k] == s[k]);
            }
        }
        if forall|k: int| 0 <= k < s.len() ==> #[trigger] s[k] == 0 {
            assert forall|k: int| 0 <= k < s.drop_last().len() implies #[trigger] s.drop_last()[k] == 0 by {
                assert(s.drop_last()[k] == s[k]);
            }
        }
    }
}

/// The violation score (the sum of the counts) is zero exactly when no two
/// cells that must differ hold the same digit.
pub proof fn lemma_score_zero_iff_consistent(g: Board, counts: Seq<usize>)
    requires
        g.wf(),
        counts_match(g, counts),
    ensures
        (total(counts) == 0) <==> consistent(g),
{
    lemma_total_bounds(counts);
    if consistent(g) {
        assert forall|k: int| 0 <= k < counts.len() implies #[trigger] counts[k] == 0 by {
            lemma_violations_zero(g, k, g.cells.len() as int);
        }
    }
    if total(counts) == 0 {
        assert forall|i: int, j: int| !#[trigger] violating(g, i, j) by {
            if violating(g, i, j) {
                lemma_violations_positive(g, i, j, g.cells.len() as int);
                assert(counts[i] <= total(counts));
            }
        }
    }
}

/// Whether cells `i` and `j` must differ and hold the same digit.
fn is_violating(sudoku: &Sudoku, i: usize, j: usize) -> (r: bool)
    requires
        sudoku@.wf(),
        i < sudoku@.cells.len(),
        j < sudoku@.cells.len(),
    ensures
        r == violating(sudoku@, i as int, j as int),
{
    if i == j {
        return false;
    }
    let side = sudoku.side();
    let box_side = sudoku.box_side();
    proof {
        assert(side > 0) by (nonlinear_arith)
            requires
                i < side * side,
        ;
        assert(box_side > 0) by (nonlinear_arith)
            requires
                side > 0,
                side < (box_side + 1) * (box_side + 1),
        ;
    }
    let (r1, c1, r2, c2) = (i / side, i % side, j / side, j % side);
    let same = r1 == r2 || c1 == c2 || (r1 / box_side == r2 / box_side && c1 / box_side == c2 / box_side);
    if !same {
        return false;
    }
    match (sudoku.get_raw(i).value(), sudoku.get_raw(j).value()) {
        (Some(a), Some(b)) => a == b,
        _ => false,
    }
}

/// The number of violations of one cell, counted over the whole board.
fn count_at(sudoku: &Sudoku, i: usize) -> (r: usize)
    requires
        sudoku@.wf(),
        i < sudoku@.cells.len(),
    ensures
        r == violations_at(sudoku@, i as int),
{
    let cells = sudoku.side() * sudoku.side();
    let mut n: usize = 0;
    let mut j: usize = 0;
    while j < cells
        invariant
            sudoku@.wf(),
            i < sudoku@.cells.len(),
            cells == sudoku@.cells.len(),
            j <= cells,
            n == violations_upto(sudoku@, i as int, j as int),
        decreases cells - j,
    {
        proof {
            lemma_violations_bounded(sudoku@, i as int, j as int);
        }
        if is_violating(sudoku, i, j) {
            n += 1;
        }
        j += 1;
    }
    n
}

/// The violations of every cell, counted from scratch.
pub fn violation_counts(sudoku: &Sudoku) -> (r: Vec<usize>)
    requires
        sudoku@.wf(),
    ensures
        counts_match(sudoku@, r@),
{
    let cells = sudoku.side() * sudoku.side();
    let mut out: Vec<usize> = Vec::new();
    let mut i: usize = 0;
    while i < cells
        invariant
            sudoku@.wf(),
            cells == sudoku@.cells.len(),
            i <= cells,
            out@.len() == i,
            forall|k: int| 0 <= k < i ==> #[trigger] out@[k] == violations_at(sudoku@, k),
        decreases cells - i,
    {
        out.push(count_at(sudoku, i));
        i += 1;
    }
    out
}

/// The sum of the counts, each at most `bound`.
fn sum_counts(counts: &Vec<usize>, Ghost(bound): Ghost<nat>) -> (r: usize)
    requires
        forall|k: int| 0 <= k < counts@.len() ==> #[trigger] counts@[k] <= bound,
        counts@.len() * bound <= usize::MAX,
    ensures
        r == total(counts@),
{
    let mut acc: usize = 0;
    let mut i: usize = 0;
    while i < counts.len()
        invariant
            forall|k: int| 0 <= k < counts@.len() ==> #[trigger] counts@[k] <= bound,
            counts@.len() * bound <= usize::MAX,
            i <= counts@.len(),
            acc == total(counts@.take(i as int)),
            acc <= i * bound,
        decreases counts@.len() - i,
    {
        proof {
            assert(counts@.take(i + 1).drop_last() =~= counts@.take(i as int));
            assert((i + 1) * bound <= counts@.len() * bound) by (nonlinear_arith)
                requires
                    i < counts@.len(),
            ;
            assert((i + 1) * bound == i * bound + bound) by (nonlinear_arith);
        }
        acc = acc + counts[i];
        i += 1;
    }
    proof {
        assert(counts@.take(counts@.len() as int) =~= counts@);
    }
    acc
}

/// `g` with the contents of cells `a` and `b` exchanged.
pub open spec fn swapped(g: Board, a: int, b: int) -> Board {
    Board { cells: g.cells.update(a, g.cells[b]).update(b, g.cells[a]), ..g }
}

/// Exchanging the same two cells twice gives the board back.
pub proof fn lemma_swap_back(g: Board, a: int, b: int)
    requires
        0 <= a < g.cells.len(),
        0 <= b < g.cells.len(),
    ensures
        swapped(swapped(g, a, b), a, b) == g,
{
    assert(swapped(swapped(g, a, b), a, b).cells =~= g.cells);
}

/// 1 for true, 0 for false.
pub open spec fn ind(c: bool) -> nat {
    if c {
        1
    } else {
        0
    }
}

/// Exchanging two other cells changes the count of cell `k` only through
/// its pairs with those two cells.
proof fn lemma_swap_delta(g: Board, a: int, b: int, k: int, m: int)
    requires
        g.wf(),
        0 <= a < g.cells.len(),
        0 <= b < g.cells.len(),
        0 <= k < g.cells.len(),
        a != b,
        k != a,
        k != b,
    ensures
        violations_upto(swapped(g, a, b), k, m) + ind(m > a && violating(g, k, a)) + ind(m > b && violating(g, k, b))
            == violations_upto(g, k, m) + ind(m > a && violating(swapped(g, a, b), k, a)) + ind(
            m > b && violating(swapped(g, a, b), k, b)),
    decreases m,
{
    let h = swapped(g, a, b);
    if m > 0 {
        lemma_swap_delta(g, a, b, k, m - 1);
        let j = m - 1;
        if j != a && j != b && j < g.cells.len() {
            assert(h.cells[j] == g.cells[j]);
            assert(h.cells[k] == g.cells[k]);
            assert(violating(h, k, j) == violating(g, k, j));
        }
    }
}

/// Whether cells `k` and `j` must differ and cell `k` holds `v`, a digit.
fn is_violating_with(sudoku: &Sudoku, k: usize, j: usize, v: SudokuCell) -> (r: bool)
    requires
        sudoku@.wf(),
        k < sudoku@.cells.len(),
        j < sudoku@.cells.len(),
    ensures
        r == (conflict(sudoku@.side, sudoku@.box_side, k as int, j as int) && sudoku@.cells[k as int] is Digit
            && sudoku@.cells[k as int] == v),
{
    if k == j {
        return false;
    }
    let side = sudoku.side();
    let box_side = sudoku.box_side();
    proof {
        assert(side > 0) by (nonlinear_arith)
            requires
                k < side * side,
        ;
        assert(box_side > 0) by (nonlinear_arith)
            requires
                side > 0,
                side < (box_side + 1) * (box_side + 1),
        ;
    }
    let (r1, c1, r2, c2) = (k / side, k % side, j / side, j % side);
    let same = r1 == r2 || c1 == c2 || (r1 / box_side == r2 / box_side && c1 / box_side == c2 / box_side);
    if !same {
        return false;
    }
    match (sudoku.get_raw(k).value(), v.value()) {
        (Some(a), Some(b)) => a == b,
        _ => false,
    }
}

/// The counts of `sudoku`, whose cells `a` and `b` were just exchanged, from
/// the counts `before` of the board before the exchange: the two exchanged
/// cells are counted afresh, every other cell only through its pairs with them.
fn recount(sudoku: &Sudoku, before: &Vec<usize>, a: usize, b: usize) -> (r: Vec<usize>)
    requires
        sudoku@.wf(),
        sudoku@.cells.len() * sudoku@.cells.len() <= usize::MAX,
        a < sudoku@.cells.len(),
        b < sudoku@.cells.len(),
        a != b,
        counts_match(swapped(sudoku@, a as int, b as int), before@),
    ensures
        counts_match(sudoku@, r@),
{
    let ghost g = swapped(sudoku@, a as int, b as int);
    let ghost h = sudoku@;
    proof {
        assert(swapped(g, a as int, b as int).cells =~= h.cells);
    }
    let cells = sudoku.side() * sudoku.side();
    let cell_a = *sudoku.get_raw(a);
    let cell_b = *sudoku.get_raw(b);
    let mut out: Vec<usize> = Vec::new();
    let mut k: usize = 0;
    while k < cells
        invariant
            h == sudoku@,
            h.wf(),
            cells == h.cells.len(),
            cells * cells <= usize::MAX,
            a < cells,
            b < cells,
            a != b,
            g == swapped(h, a as int, b as int),
            h == swapped(g, a as int, b as int),
            cell_a == h.cells[a as int],
            cell_b == h.cells[b as int],
            counts_match(g, before@),
            k <= cells,
            out@.len() == k,
            forall|q: int| 0 <= q < k ==> #[trigger] out@[q] == violations_at(h, q),
        decreases cells - k,
    {
        if k == a || k == b {
            out.push(count_at(sudoku, k));
        } else {
            let old_a = is_violating_with(sudoku, k, a, cell_b);
            let old_b = is_violating_with(sudoku, k, b, cell_a);
            let new_a = is_violating(sudoku, k, a);
            let new_b = is_violating(sudoku, k, b);
            proof {
                lemma_swap_delta(g, a as int, b as int, k as int, cells as int);
                assert(g.cells[a as int] == cell_b);
                assert(g.cells[b as int] == cell_a);
                assert(g.cells[k as int] == h.cells[k as int]);
                assert(old_a == violating(g, k as int, a as int));
                assert(old_b == violating(g, k as int, b as int));
                lemma_violations_bounded(g, k as int, cells as int);
                assert(cells + 2 <= usize::MAX) by (nonlinear_arith)
                    requires
                        cells * cells <= usize::MAX,
                        cells >= 2,
                ;
            }
            let mut c = before[k];
            if new_a {
                c = c + 1;
            }
            if new_b {
                c = c + 1;
            }
            if old_a {
                c = c - 1;
            }
            if old_b {
                c = c - 1;
            }
            out.push(c);
        }
        k += 1;
    }
    out
}

/// Number of cells `i < m` of `g` that hold the digit `d`.
pub open spec fn digit_count_upto(g: Board, d: int, m: int) -> nat
    decreases m,
{
    if m <= 0 {
        0
    } else {
        digit_count_upto(g, d, m - 1) + ind(g.cells[m - 1] == SudokuCell::Digit(d as usize))
    }
}

/// Number of cells of `g` that hold the digit `d`.
pub open spec fn digit_count(g: Board, d: int) -> nat {
    digit_count_upto(g, d, g.cells.len() as int)
}

/// Some digit is given more than N times.
pub open spec fn overfull(g: Board) -> bool {
    exists|d: int| 1 <= d <= g.side && #[trigger] digit_count(g, d) > g.side
}

/// The digits that seed the free cells when no hint is given: each digit d
/// of 1..=D, ascending, as many times as it is missing from N copies.
pub open spec fn fill_values(g: Board, top: int) -> Seq<usize>
    decreases top,
{
    if top <= 0 {
        Seq::empty()
    } else {
        fill_values(g, top - 1) + Seq::new((g.side - digit_count(g, top)) as nat, |t: int| top as usize)
    }
}

/// Number of empty cells `i < m`.
pub open spec fn empties_upto(g: Board, m: int) -> nat
    decreases m,
{
    if m <= 0 {
        0
    } else {
        empties_upto(g, m - 1) + ind(g.cells[m - 1] is Empty)
    }
}

/// The number of cells `i < m` that hold one of the digits 1..=`top`.
pub open spec fn digit_total(g: Board, m: int, top: int) -> nat
    decreases top,
{
    if top <= 0 {
        0
    } else {
        digit_total(g, m, top - 1) + digit_count_upto(g, top, m)
    }
}

proof fn lemma_digit_total_step(g: Board, m: int, top: int)
    requires
        m > 0,
        top <= usize::MAX,
    ensures
        digit_total(g, m, top) == digit_total(g, m - 1, top) + ind(g.cells[m - 1] is Digit && 1 <= g.cells[m - 1]->Digit_0 <= top),
    decreases top,
{
    if top > 0 {
        lemma_digit_total_step(g, m, top - 1);
        assert(digit_count_upto(g, top, m) == digit_count_upto(g, top, m - 1) + ind(g.cells[m - 1] == SudokuCell::Digit(top as usize)));
    }
}

proof fn lemma_digit_total_none(g: Board, top: int)
    ensures
        digit_total(g, 0, top) == 0,
    decreases top,
{
    if top > 0 {
        lemma_digit_total_none(g, top - 1);
    }
}

/// Every cell is empty or holds one digit of 1..=N.
proof fn lemma_cells_split(g: Board, m: int)
    requires
        g.digits_in_range(),
        g.side <= usize::MAX,
        0 <= m <= g.cells.len(),
    ensures
        empties_upto(g, m) + digit_total(g, m, g.side as int) == m,
    decreases m,
{
    if m == 0 {
        lemma_digit_total_none(g, g.side as int);
    } else {
        lemma_cells_split(g, m - 1);
        lemma_digit_total_step(g, m, g.side as int);
        let c = g.cells[m - 1];
        assert(c is Empty || 1 <= c->Digit_0 <= g.side);
        assert(empties_upto(g, m) == empties_upto(g, m - 1) + ind(c is Empty));
        if c is Empty {
            assert(ind(c is Digit && 1 <= c->Digit_0 <= g.side as int) == 0);
        } else {
            assert(ind(c is Digit && 1 <= c->Digit_0 <= g.side as int) == 1);
        }
    }
}

/// The seeding holds digits of 1..=`top`.
proof fn lemma_fill_range(g: Board, top: int)
    requires
        top <= usize::MAX,
    ensures
        forall|q: int| 0 <= q < fill_values(g, top).len() ==> 1 <= #[trigger] fill_values(g, top)[q] <= top,
    decreases top,
{
    if top > 0 {
        lemma_fill_range(g, top - 1);
        let a = fill_values(g, top - 1);
        assert forall|q: int| 0 <= q < fill_values(g, top).len() implies 1 <= #[trigger] fill_values(g, top)[q] <= top by {
            if q < a.len() {
                assert(fill_values(g, top)[q] == a[q]);
            } else {
                assert(fill_values(g, top)[q] == top as usize);
            }
        }
    }
}

/// The seeding holds as many values as the digits miss from N copies each.
proof fn lemma_fill_len(g: Board, top: int)
    requires
        0 <= top <= g.side,
        forall|d: int| 1 <= d <= g.side ==> #[trigger] digit_count(g, d) <= g.side,
    ensures
        fill_values(g, top).len() + digit_total(g, g.cells.len() as int, top) == top * g.side,
    decreases top,
{
    if top == 0 {
        assert(fill_values(g, 0).len() == 0);
        assert(digit_total(g, g.cells.len() as int, 0) == 0);
    } else {
        lemma_fill_len(g, top - 1);
        assert(digit_count(g, top) <= g.side);
        assert(fill_values(g, top).len() == fill_values(g, top - 1).len() + (g.side - digit_count(g, top)));
        assert(digit_total(g, g.cells.len() as int, top) == digit_total(g, g.cells.len() as int, top - 1) + digit_count(g, top));
        let a = fill_values(g, top - 1).len() as int;
        let t = digit_total(g, g.cells.len() as int, top - 1) as int;
        let c = digit_count(g, top) as int;
        let n = g.side as int;
        assert(a + t == (top - 1) * n);
        assert((top - 1) * n + n == top * n) by (nonlinear_arith);
        assert(fill_values(g, top).len() == a + (n - c));
        assert(a + (n - c) + t + c == top * n);
        assert(fill_values(g, top).len() + digit_total(g, g.cells.len() as int, top) == top * n);
        assert((top - 1) * g.side + g.side == top * g.side) by (nonlinear_arith);
    }
}

/// `free` lists the empty cells of `g`, ascending.
pub open spec fn lists_empty_cells(g: Board, free: Seq<usize>) -> bool {
    &&& forall|k: int| 0 <= k < free.len() ==> (#[trigger] free[k]) < g.cells.len() && g.cells[free[k] as int] is Empty
    &&& forall|k1: int, k2: int| 0 <= k1 < k2 < free.len() ==> (#[trigger] free[k1]) < (#[trigger] free[k2])
    &&& forall|i: int| 0 <= i < g.cells.len() && (#[trigger] g.cells[i]) is Empty ==> free.contains(i as usize)
}

/// The hint has a digit at cell `i` that agrees with the digit given there, if any.
pub open spec fn hint_ok_at(g: Board, hint: Board, i: int) -> bool {
    &&& hint.cells[i] is Digit
    &&& g.cells[i] is Digit ==> g.cells[i] == hint.cells[i]
}

proof fn lemma_digit_count_monotone(g: Board, d: int, m1: int, m2: int)
    requires
        m1 <= m2,
    ensures
        digit_count_upto(g, d, m1) <= digit_count_upto(g, d, m2),
    decreases m2 - m1,
{
    if m1 < m2 {
        lemma_digit_count_monotone(g, d, m1, m2 - 1);
    }
}

/// The empty cells of the board, ascending.
fn empty_cells(sudoku: &Sudoku) -> (r: Vec<usize>)
    requires
        sudoku@.wf(),
    ensures
        lists_empty_cells(sudoku@, r@),
        r@.len() == empties_upto(sudoku@, sudoku@.cells.len() as int),
{
    let cells = sudoku.side() * sudoku.side();
    let mut free: Vec<usize> = Vec::new();
    let mut i: usize = 0;
    while i < cells
        invariant
            sudoku@.wf(),
            cells == sudoku@.cells.len(),
            i <= cells,
            forall|k: int| 0 <= k < free@.len() ==> (#[trigger] free@[k]) < i && sudoku@.cells[free@[k] as int] is Empty,
            forall|k1: int, k2: int| 0 <= k1 < k2 < free@.len() ==> (#[trigger] free@[k1]) < (#[trigger] free@[k2]),
            forall|j: int| 0 <= j < i && (#[trigger] sudoku@.cells[j]) is Empty ==> free@.contains(j as usize),
            free@.len() == empties_upto(sudoku@, i as int),
        decreases cells - i,
    {
        if sudoku.get_raw(i).is_empty() {
            let ghost before = free@;
            free.push(i);
            proof {
                assert forall|j: int| 0 <= j < i + 1 && (#[trigger] sudoku@.cells[j]) is Empty implies free@.contains(j as usize) by {
                    if j < i {
                        let k = choose|k: int| 0 <= k < before.len() && before[k] == j as usize;
                        assert(free@[k] == before[k]);
                    } else {
                        assert(free@[before.len() as int] == i);
                    }
                }
            }
        }
        i += 1;
    }
    free
}

/// Writes `values[k]` into cell `free[k]`, for every k; other cells stay.
fn seed(sudoku: &mut Sudoku, free: &Vec<usize>, values: &Vec<usize>)
    requires
        old(sudoku)@.wf(),
        lists_empty_cells(old(sudoku)@, free@),
        values@.len() == free@.len(),
    ensures
        final(sudoku)@.side == old(sudoku)@.side,
        final(sudoku)@.box_side == old(sudoku)@.box_side,
        final(sudoku)@.cells.len() == old(sudoku)@.cells.len(),
        forall|q: int| 0 <= q < free@.len() ==> final(sudoku)@.cells[#[trigger] free@[q] as int] == SudokuCell::Digit(values@[q]),
        forall|i: int|
            0 <= i < old(sudoku)@.cells.len() && !free@.contains(i as usize) ==> #[trigger] final(sudoku)@.cells[i]
                == old(sudoku)@.cells[i],
{
    let ghost g = sudoku@;
    let mut k: usize = 0;
    while k < free.len()
        invariant
            g == old(sudoku)@,
            g.wf(),
            sudoku@.side == g.side,
            sudoku@.box_side == g.box_side,
            sudoku@.cells.len() == g.cells.len(),
            lists_empty_cells(g, free@),
            values@.len() == free@.len(),
            k <= free@.len(),
            forall|i: int| 0 <= i < g.cells.len() && !free@.subrange(0, k as int).contains(i as usize) ==> #[trigger] sudoku@.cells[i] == g.cells[i],
            forall|q: int| 0 <= q < k ==> sudoku@.cells[#[trigger] free@[q] as int] == SudokuCell::Digit(values@[q]),
        decreases free@.len() - k,
    {
        sudoku.set_raw(free[k], SudokuCell::Digit(values[k]));
        proof {
            assert forall|i: int| 0 <= i < g.cells.len() && !free@.subrange(0, k + 1).contains(i as usize) implies #[trigger] sudoku@.cells[i] == g.cells[i] by {
                assert(free@.subrange(0, k + 1)[k as int] == free@[k as int]);
                if free@.subrange(0, k as int).contains(i as usize) {
                    let q = choose|q: int| 0 <= q < k && free@.subrange(0, k as int)[q] == i as usize;
                    assert(free@.subrange(0, k + 1)[q] == i as usize);
                }
            }
            assert forall|q: int| 0 <= q < k + 1 implies sudoku@.cells[#[trigger] free@[q] as int] == SudokuCell::Digit(values@[q]) by {
                if q < k {
                    assert(free@[q] < free@[k as int]);
                }
            }
        }
        k += 1;
    }
    proof {
        assert(free@.subrange(0, k as int) =~= free@);
    }
}

/// The free cells and the values that seed them, read from a hint.
fn init_hint(sudoku: &Sudoku, hint: &Sudoku) -> (r: Result<(Vec<usize>, Vec<usize>), SolveError>)
    requires
        sudoku@.wf(),
        hint@.wf(),
        hint@.side == sudoku@.side,
    ensures
        r is Ok <==> forall|i: int| 0 <= i < sudoku@.cells.len() ==> #[trigger] hint_ok_at(sudoku@, hint@, i),
        r matches Ok((free, values)) ==> {
            &&& lists_empty_cells(sudoku@, free@)
            &&& values@.len() == free@.len()
            &&& forall|k: int| 0 <= k < free@.len() ==> hint@.cells[#[trigger] free@[k] as int] == SudokuCell::Digit(values@[k])
        },
        r matches Err(e) ==> exists|i: int| 0 <= i < sudoku@.cells.len() && (forall|q: int| 0 <= q < i ==> #[trigger] hint_ok_at(sudoku@, hint@, q)) && {
            ||| e is EmptyHint && hint@.cells[i] is Empty
            ||| e is IncompatibleHint && hint@.cells[i] is Digit && sudoku@.cells[i] is Digit && sudoku@.cells[i] != hint@.cells[i]
        },
{
    let cells = sudoku.side() * sudoku.side();
    let mut free: Vec<usize> = Vec::new();
    let mut values: Vec<usize> = Vec::new();
    let mut raw: usize = 0;
    while raw < cells
        invariant
            sudoku@.wf(),
            hint@.wf(),
            hint@.side == sudoku@.side,
            cells == sudoku@.cells.len(),
            raw <= cells,
            forall|q: int| 0 <= q < raw ==> #[trigger] hint_ok_at(sudoku@, hint@, q),
            forall|k: int| 0 <= k < free@.len() ==> (#[trigger] free@[k]) < raw && sudoku@.cells[free@[k] as int] is Empty,
            forall|k1: int, k2: int| 0 <= k1 < k2 < free@.len() ==> (#[trigger] free@[k1]) < (#[trigger] free@[k2]),
            forall|j: int| 0 <= j < raw && (#[trigger] sudoku@.cells[j]) is Empty ==> free@.contains(j as usize),
            values@.len() == free@.len(),
            forall|k: int| 0 <= k < free@.len() ==> hint@.cells[#[trigger] free@[k] as int] == SudokuCell::Digit(values@[k]),
        decreases cells - raw,
    {
        let hint_here = match hint.get_raw(raw).value() {
            Some(v) => v,
            None => {
                proof {
                    assert(!hint_ok_at(sudoku@, hint@, raw as int));
                }
                return Err(SolveError::EmptyHint);
            },
        };
        match sudoku.get_raw(raw).value() {
            Some(value) => {
                if hint_here != value {
                    proof {
                        assert(!hint_ok_at(sudoku@, hint@, raw as int));
                    }
                    return Err(SolveError::IncompatibleHint);
                }
            },
            None => {
                let ghost before = free@;
                free.push(raw);
                values.push(hint_here);
                proof {
                    assert forall|j: int| 0 <= j < raw + 1 && (#[trigger] sudoku@.cells[j]) is Empty implies free@.contains(j as usize) by {
                        if j < raw {
                            let k = choose|k: int| 0 <= k < before.len() && before[k] == j as usize;
                            assert(free@[k] == before[k]);
                        } else {
                            assert(free@[before.len() as int] == raw);
                        }
                    }
                }
            },
        }
        raw += 1;
    }
    Ok((free, values))
}

/// The free cells and the values that seed them when no hint is given: each
/// digit as many times as it is missing from N copies, in ascending order.
fn init_no_hint(sudoku: &mut Sudoku, side: usize, digit_range: usize) -> (r: Result<(Vec<usize>, Vec<usize>), SolveError>)
    requires
        old(sudoku)@.wf(),
        old(sudoku)@.digits_in_range(),
        side == old(sudoku)@.side,
        digit_range == old(sudoku)@.side,
    ensures
        r is Err <==> overfull(old(sudoku)@),
        r is Err ==> r == Err::<(Vec<usize>, Vec<usize>), SolveError>(SolveError::Infeasible),
        r is Err ==> final(sudoku)@ == old(sudoku)@,
        r matches Ok((free, values)) ==> {
            &&& lists_empty_cells(old(sudoku)@, free@)
            &&& values@ == fill_values(old(sudoku)@, side as int)
            &&& values@.len() == free@.len()
            &&& final(sudoku)@.side == old(sudoku)@.side
            &&& final(sudoku)@.box_side == old(sudoku)@.box_side
            &&& final(sudoku)@.cells.len() == old(sudoku)@.cells.len()
            &&& forall|q: int| 0 <= q < free@.len() ==> final(sudoku)@.cells[#[trigger] free@[q] as int] == SudokuCell::Digit(values@[q])
            &&& forall|i: int|
                0 <= i < old(sudoku)@.cells.len() && !free@.contains(i as usize) ==> #[trigger] final(sudoku)@.cells[i]
                    == old(sudoku)@.cells[i]
        },
{
    let ghost g = sudoku@;
    let cells = side * side;
    let mut digits: Vec<usize> = Vec::new();
    let mut d: usize = 0;
    while d < digit_range
        invariant
            d <= digit_range,
            digits@.len() == d,
            forall|e: int| 0 <= e < d ==> #[trigger] digits@[e] == 0,
        decreases digit_range - d,
    {
        digits.push(0);
        d += 1;
    }
    let mut raw: usize = 0;
    while raw < cells
        invariant
            sudoku@ == g,
            g.wf(),
            g.digits_in_range(),
            side == g.side,
            digit_range == side,
            cells == g.cells.len(),
            raw <= cells,
            digits@.len() == side,
            forall|e: int| 0 <= e < side ==> #[trigger] digits@[e] == digit_count_upto(g, e + 1, raw as int),
            forall|e: int| 0 <= e < side ==> #[trigger] digits@[e] <= side,
        decreases cells - raw,
    {
        let ghost before = digits@;
        if let Some(value) = sudoku.get_raw(raw).value() {
            assert(1 <= value <= side);
            proof {
                assert(side < usize::MAX) by (nonlinear_arith)
                    requires
                        side * side <= usize::MAX,
                        1 <= side,
                ;
            }
            let c = digits[value - 1] + 1;
            digits.set(value - 1, c);
            if c > digit_range {
                proof {
                    lemma_digit_count_monotone(g, value as int, raw + 1, cells as int);
                    assert(digit_count(g, value as int) > g.side);
                }
                return Err(SolveError::Infeasible);
            }
        }
        proof {
            assert forall|e: int| 0 <= e < side implies #[trigger] digits@[e] == digit_count_upto(g, e + 1, raw + 1) by {
                assert(before[e] == digit_count_upto(g, e + 1, raw as int));
            }
        }
        raw += 1;
    }
    proof {
        assert forall|d: int| 1 <= d <= g.side implies #[trigger] digit_count(g, d) <= g.side by {
            assert(digits@[d - 1] == digit_count_upto(g, d, cells as int));
        }
    }
    let free = empty_cells(sudoku);
    let mut values: Vec<usize> = Vec::new();
    let mut d: usize = 1;
    while d <= digit_range
        invariant
            g.wf(),
            side == g.side,
            digit_range == side,
            cells == g.cells.len(),
            1 <= d <= side + 1,
            side * side <= usize::MAX,
            digits@.len() == side,
            forall|e: int| 0 <= e < side ==> #[trigger] digits@[e] == digit_count(g, e + 1),
            forall|e: int| 0 <= e < side ==> #[trigger] digits@[e] <= side,
            values@ == fill_values(g, d - 1),
            sudoku@ == g,
        decreases side + 1 - d,
    {
        proof {
            assert(side < usize::MAX) by (nonlinear_arith)
                requires
                    side * side <= usize::MAX,
                    1 <= side,
            ;
        }
        let missing = digit_range - digits[d - 1];
        let mut t: usize = 0;
        let ghost start = values@;
        while t < missing
            invariant
                t <= missing,
                values@ == start + Seq::new(t as nat, |q: int| d),
            decreases missing - t,
        {
            values.push(d);
            proof {
                assert(values@ =~= start + Seq::new((t + 1) as nat, |q: int| d));
            }
            t += 1;
        }
        proof {
            assert(values@ =~= fill_values(g, d as int));
        }
        d += 1;
    }
    proof {
        lemma_cells_split(g, cells as int);
        lemma_fill_len(g, side as int);
    }
    seed(sudoku, &free, &values);
    Ok((free, values))
}

/// How annealing ended, or why it could not start.
pub enum SolveError {
    /// The schedule ran out with cells that must differ still equal.
    Glassed,
    /// The hint has an empty cell.
    EmptyHint,
    /// The hint disagrees with a given digit.
    IncompatibleHint,
    /// Some digit is given more than N times.
    Infeasible,
}

/// The state of an annealing run beside its board: the free (not given)
/// cells, the violation count of every cell and their sum, and what is
/// needed to take back the last proposed exchange.
pub struct Annealer {
    free: Vec<usize>,
    counts: Vec<usize>,
    score: usize,
    backup_counts: Vec<usize>,
    backup_score: usize,
    pending: Option<(usize, usize)>,
    clues: Ghost<Board>,
}

impl Annealer {
    /// The cells that moves may exchange, ascending.
    pub closed spec fn free_cells(&self) -> Seq<usize> {
        self.free@
    }

    /// The violation count of every cell, kept up to date move by move.
    pub closed spec fn counts_view(&self) -> Seq<usize> {
        self.counts@
    }

    /// The violation score kept with the counts.
    pub closed spec fn score_view(&self) -> nat {
        self.score as nat
    }

    /// The board the run started from; its digits never move.
    pub closed spec fn clues(&self) -> Board {
        self.clues@
    }

    /// The exchange that `reject` would take back.
    pub closed spec fn pending(&self) -> Option<(usize, usize)> {
        self.pending
    }

    /// The state describes the board `g`.
    pub closed spec fn tracks(&self, g: Board) -> bool {
        let n2 = g.cells.len();
        &&& g.wf()
        &&& g.full()
        &&& g.digits_in_range()
        &&& n2 * n2 <= usize::MAX
        &&& self.clues@.cells.len() == n2
        &&& self.clues@.side == g.side
        &&& self.clues@.box_side == g.box_side
        &&& forall|i: int| 0 <= i < n2 && (#[trigger] self.clues@.cells[i]) is Digit ==> g.cells[i] == self.clues@.cells[i]
        &&& forall|k: int| 0 <= k < self.free@.len() ==> (#[trigger] self.free@[k]) < n2 && self.clues@.cells[self.free@[k] as int] is Empty
        &&& forall|k1: int, k2: int| 0 <= k1 < k2 < self.free@.len() ==> (#[trigger] self.free@[k1]) < (#[trigger] self.free@[k2])
        &&& counts_match(g, self.counts@)
        &&& self.score == total(self.counts@)
        &&& self.pending matches Some((a, b)) ==> {
            &&& a < n2
            &&& b < n2
            &&& self.clues@.cells[a as int] is Empty
            &&& self.clues@.cells[b as int] is Empty
            &&& counts_match(swapped(g, a as int, b as int), self.backup_counts@)
            &&& self.backup_score == total(self.backup_counts@)
        }
    }

    /// What the state says of the board it describes: the board is well
    /// formed, full, with digits in 1..=N, keeps every given digit; the counts
    /// are those of a full rescan and the score is their sum; moves only touch
    /// cells that were empty at the start.
    pub proof fn lemma_tracks(&self, g: Board)
        requires
            self.tracks(g),
        ensures
            g.wf(),
            g.full(),
            g.digits_in_range(),
            g.extends(self.clues()),
            g.cells.len() * g.cells.len() <= usize::MAX,
            counts_match(g, self.counts_view()),
            self.score_view() == total(self.counts_view()),
            forall|k: int| 0 <= k < self.free_cells().len() ==> (#[trigger] self.free_cells()[k]) < g.cells.len()
                && self.clues().cells[self.free_cells()[k] as int] is Empty,
            self.pending() matches Some((a, b)) ==> a < g.cells.len() && b < g.cells.len() && self.clues().cells[a as int]
                is Empty && self.clues().cells[b as int] is Empty,
    {
    }

    /// The violation score of the board: the sum of the counts, twice the
    /// number of pairs of cells that must differ and hold the same digit.
    pub fn score(&self) -> (r: usize)
        ensures
            r == self.score_view(),
    {
        self.score
    }

    /// The violation count of every cell.
    pub fn counts(&self) -> (r: &Vec<usize>)
        ensures
            r@ == self.counts_view(),
    {
        &self.counts
    }

    /// Exchanges the free cells `free[pick_a]` and `free[pick_b]` and brings
    /// the counts up to date; returns the new score.
    pub fn propose_swap(&mut self, sudoku: &mut Sudoku, pick_a: usize, pick_b: usize) -> (r: usize)
        requires
            old(self).tracks(old(sudoku)@),
            pick_a < old(self).free_cells().len(),
            pick_b < old(self).free_cells().len(),
        ensures
            final(self).tracks(final(sudoku)@),
            final(self).clues() == old(self).clues(),
            final(self).free_cells() == old(self).free_cells(),
            final(sudoku)@ == swapped(
                old(sudoku)@,
                old(self).free_cells()[pick_a as int] as int,
                old(self).free_cells()[pick_b as int] as int,
            ),
            counts_match(final(sudoku)@, final(self).counts_view()),
            r == final(self).score_view(),
            r == total(final(self).counts_view()),
            old(self).free_cells()[pick_a as int] == old(self).free_cells()[pick_b as int] ==> final(self).pending() is None,
            old(self).free_cells()[pick_a as int] != old(self).free_cells()[pick_b as int] ==> final(self).pending() is Some,
            final(self).pending() matches Some((a, b)) ==> a != b && final(sudoku)@ == swapped(old(sudoku)@, a as int, b as int),
            final(self).pending() is None ==> final(sudoku)@ == old(sudoku)@,
    {
        let ghost g = sudoku@;
        let mut a = self.free[pick_a];
        let mut b = self.free[pick_b];
        if b < a {
            let t = a;
            a = b;
            b = t;
        }
        sudoku.swap_raw(a, b);
        proof {
            assert(sudoku@.cells =~= swapped(g, self.free@[pick_a as int] as int, self.free@[pick_b as int] as int).cells);
        }
        if a == b {
            proof {
                assert(sudoku@.cells =~= g.cells);
            }
            self.backup_score = self.score;
            self.pending = None;
            return self.score;
        }
        proof {
            assert(swapped(sudoku@, a as int, b as int).cells =~= g.cells);
            assert(sudoku@.cells =~= swapped(g, a as int, b as int).cells);
        }
        let fresh = recount(sudoku, &self.counts, a, b);
        let ghost cells = sudoku@.cells.len();
        proof {
            assert forall|k: int| 0 <= k < fresh@.len() implies #[trigger] fresh@[k] <= cells by {
                lemma_violations_bounded(sudoku@, k, cells as int);
            }
        }
        let new_score = sum_counts(&fresh, Ghost(cells));
        let mut fresh = fresh;
        std::mem::swap(&mut self.counts, &mut fresh);
        self.backup_counts = fresh;
        self.backup_score = self.score;
        self.score = new_score;
        self.pending = Some((a, b));
        new_score
    }

    /// Keeps the last proposed exchange.
    pub fn accept(&mut self)
        requires
            exists|g: Board| old(self).tracks(g),
        ensures
            forall|g: Board| old(self).tracks(g) ==> final(self).tracks(g),
            final(self).counts_view() == old(self).counts_view(),
            final(self).score_view() == old(self).score_view(),
            final(self).free_cells() == old(self).free_cells(),
            final(self).clues() == old(self).clues(),
            final(self).pending() is None,
    {
        self.pending = None;
    }

    /// Takes back the last proposed exchange, board and counts.
    pub fn reject(&mut self, sudoku: &mut Sudoku)
        requires
            old(self).tracks(old(sudoku)@),
        ensures
            final(self).tracks(final(sudoku)@),
            final(self).clues() == old(self).clues(),
            final(self).free_cells() == old(self).free_cells(),
            final(self).pending() is None,
            counts_match(final(sudoku)@, final(self).counts_view()),
            final(self).score_view() == total(final(self).counts_view()),
            old(self).pending() matches Some((a, b)) ==> final(sudoku)@ == swapped(old(sudoku)@, a as int, b as int),
            old(self).pending() is None ==> final(sudoku)@ == old(sudoku)@,
    {
        if let Some((a, b)) = self.pending {
            sudoku.swap_raw(a, b);
            std::mem::swap(&mut self.counts, &mut self.backup_counts);
            self.score = self.backup_score;
            self.pending = None;
        }
    }

    /// Seeds the free cells of the board and counts its violations.
    ///
    /// With a hint, every cell of the hint must hold a digit that agrees with
    /// the digit given there (else `EmptyHint` or `IncompatibleHint`, for the
    /// first cell that fails), and the board becomes the hint. Without one,
    /// the free cells take, in ascending order, each digit as many times as
    /// it is missing from N copies (`Infeasible` when a digit is given more
    /// than N times). On an error the board is left as it was.
    pub fn start(sudoku: &mut Sudoku, init: Option<Sudoku>) -> (r: Result<Annealer, SolveError>)
        requires
            old(sudoku)@.square(),
            old(sudoku)@.digits_in_range(),
            old(sudoku)@.cells.len() * old(sudoku)@.cells.len() <= usize::MAX,
            init matches Some(h) ==> h@.wf() && h@.side == old(sudoku)@.side && h@.digits_in_range(),
        ensures
            r is Err ==> final(sudoku)@ == old(sudoku)@,
            init is None ==> (r is Err <==> overfull(old(sudoku)@)),
            init is None ==> (r is Err ==> r matches Err(SolveError::Infeasible)),
            init matches Some(h) ==> (r is Ok <==> forall|i: int|
                0 <= i < old(sudoku)@.cells.len() ==> #[trigger] hint_ok_at(old(sudoku)@, h@, i)),
            init matches Some(h) ==> (r matches Err(e) ==> exists|i: int|
                0 <= i < old(sudoku)@.cells.len() && (forall|q: int| 0 <= q < i ==> #[trigger] hint_ok_at(old(sudoku)@, h@, q))
                    && {
                    ||| e is EmptyHint && h@.cells[i] is Empty
                    ||| e is IncompatibleHint && h@.cells[i] is Digit && old(sudoku)@.cells[i] is Digit
                        && old(sudoku)@.cells[i] != h@.cells[i]
                }),
            r matches Ok(a) ==> {
                &&& a.tracks(final(sudoku)@)
                &&& a.clues() == old(sudoku)@
                &&& a.pending() is None
                &&& lists_empty_cells(old(sudoku)@, a.free_cells())
                &&& counts_match(final(sudoku)@, a.counts_view())
                &&& a.score_view() == total(a.counts_view())
                &&& final(sudoku)@.full()
                &&& final(sudoku)@.digits_in_range()
                &&& final(sudoku)@.extends(old(sudoku)@)
                &&& final(sudoku)@.side == old(sudoku)@.side
                &&& final(sudoku)@.box_side == old(sudoku)@.box_side
                &&& (init is None ==> a.free_cells().len() == fill_values(old(sudoku)@, old(sudoku)@.side as int).len())
                &&& (init matches Some(h) ==> final(sudoku)@.cells == h@.cells)
                &&& (init is None ==> forall|k: int|
                    0 <= k < a.free_cells().len() && k < fill_values(old(sudoku)@, old(sudoku)@.side as int).len()
                        ==> final(sudoku)@.cells[#[trigger] a.free_cells()[k] as int] == SudokuCell::Digit(
                        fill_values(old(sudoku)@, old(sudoku)@.side as int)[k],
                    ))
            },
    {
        let ghost g = sudoku@;
        let side = sudoku.side();
        let (free, values) = match &init {
            Some(hint) => {
                let (free, values) = init_hint(sudoku, hint)?;
                seed(sudoku, &free, &values);
                (free, values)
            },
            None => init_no_hint(sudoku, side, side)?,
        };
        let ghost filled = sudoku@;
        proof {
            if init is None {
                lemma_fill_range(g, g.side as int);
            }
            assert forall|i: int| 0 <= i < filled.cells.len() implies (#[trigger] filled.cells[i]) is Digit
                && 1 <= filled.cells[i]->Digit_0 <= filled.side by {
                if g.cells[i] is Empty {
                    let q = choose|q: int| 0 <= q < free@.len() && free@[q] == i as usize;
                    assert(filled.cells[free@[q] as int] == SudokuCell::Digit(values@[q]));
                    if let Some(h) = init {
                        assert(h@.cells[free@[q] as int] == SudokuCell::Digit(values@[q]));
                    }
                } else {
                    assert(!free@.contains(i as usize)) by {
                        if free@.contains(i as usize) {
                            let q = choose|q: int| 0 <= q < free@.len() && free@[q] == i as usize;
                            assert(g.cells[free@[q] as int] is Empty);
                        }
                    }
                }
            }
            assert forall|i: int| 0 <= i < g.cells.len() && (#[trigger] g.cells[i]) is Digit implies filled.cells[i] == g.cells[i] by {
                if free@.contains(i as usize) {
                    let q = choose|q: int| 0 <= q < free@.len() && free@[q] == i as usize;
                    assert(g.cells[free@[q] as int] is Empty);
                }
            }
            assert(filled.extends(g));
            if let Some(h) = init {
                assert forall|i: int| 0 <= i < g.cells.len() implies filled.cells[i] == h@.cells[i] by {
                    assert(hint_ok_at(g, h@, i));
                    if g.cells[i] is Empty {
                        let q = choose|q: int| 0 <= q < free@.len() && free@[q] == i as usize;
                        assert(filled.cells[free@[q] as int] == SudokuCell::Digit(values@[q]));
                    } else {
                        assert(filled.cells[i] == g.cells[i]);
                    }
                }
                assert(filled.cells =~= h@.cells);
            }
        }
        let counts = violation_counts(sudoku);
        let ghost cells = g.cells.len();
        proof {
            assert forall|k: int| 0 <= k < counts@.len() implies #[trigger] counts@[k] <= cells by {
                lemma_violations_bounded(filled, k, cells as int);
            }
        }
        let score = sum_counts(&counts, Ghost(cells));
        Ok(Annealer {
            free,
            counts,
            score,
            backup_counts: Vec::new(),
            backup_score: 0,
            pending: None,
            clues: Ghost(g),
        })
    }

    /// Exchanges two free cells drawn uniformly (with replacement) by `rng`
    /// and brings the counts up to date; returns the new score. With no free
    /// cell, nothing moves.
    pub fn propose(&mut self, sudoku: &mut Sudoku, rng: &alea::Rng) -> (r: usize)
        requires
            old(self).tracks(old(sudoku)@),
        ensures
            final(self).tracks(final(sudoku)@),
            final(self).clues() == old(self).clues(),
            final(self).free_cells() == old(self).free_cells(),
            counts_match(final(sudoku)@, final(self).counts_view()),
            r == final(self).score_view(),
            r == total(final(self).counts_view()),
            final(self).pending() matches Some((a, b)) ==> a != b && final(sudoku)@ == swapped(old(sudoku)@, a as int, b as int),
            final(self).pending() is None ==> final(sudoku)@ == old(sudoku)@,
            old(self).free_cells().len() == 0 ==> final(sudoku)@ == old(sudoku)@,
            old(self).free_cells().len() > 0 ==> exists|pa: int, pb: int|
                0 <= pa < old(self).free_cells().len() && 0 <= pb < old(self).free_cells().len()
                    && final(sudoku)@ == swapped(
                    old(sudoku)@,
                    #[trigger] old(self).free_cells()[pa] as int,
                    #[trigger] old(self).free_cells()[pb] as int,
                ),
    {
        let n = self.free.len();
        if n == 0 {
            self.backup_score = self.score;
            self.pending = None;
            return self.score;
        }
        let pick_a = draw_below(rng, n);
        let pick_b = draw_below(rng, n);
        self.propose_swap(sudoku, pick_a, pick_b)
    }

    /// Checks every pair of cells that must differ: `Glassed` when two of
    /// them hold the same digit.
    pub fn finish(&self, sudoku: &Sudoku) -> (r: Result<(), SolveError>)
        requires
            self.tracks(sudoku@),
        ensures
            r is Ok <==> consistent(sudoku@),
            r is Ok ==> crate::conflicts::solved(sudoku@),
            r is Err ==> r matches Err(SolveError::Glassed),
    {
        if is_consistent(sudoku) {
            Ok(())
        } else {
            Err(SolveError::Glassed)
        }
    }
}

} // verus!
