use vstd::prelude::*;

verus! {

/// The content of one cell: empty, or a digit (1..=N on a well-formed board).
#[derive(Debug, Clone, Copy, PartialEq, Eq, Structural)]
pub enum SudokuCell {
    Empty,
    Digit(usize),
}

impl SudokuCell {
    /// Whether the cell is empty.
    pub fn is_empty(&self) -> (r: bool)
        ensures
            r == (*self is Empty),
    {
        match self {
            SudokuCell::Empty => true,
            _ => false,
        }
    }

    /// Whether the cell is empty; the same answer as `is_empty`.
    pub fn empty(&self) -> (r: bool)
        ensures
            r == (*self is Empty),
    {
        self.is_empty()
    }
}

/// Reading the digit out of a cell.
pub trait SudokuCellValue: Sized {
    spec fn digit_of(&self) -> Option<usize>;

    fn value(&self) -> (r: Option<usize>)
        ensures
            r == self.digit_of(),
    ;

    fn unwrap(self) -> (r: usize)
        requires
            self.digit_of() is Some,
        ensures
            Some(r) == self.digit_of(),
    ;
}

impl SudokuCellValue for SudokuCell {
    open spec fn digit_of(&self) -> Option<usize> {
        match *self {
            SudokuCell::Empty => None,
            SudokuCell::Digit(d) => Some(d),
        }
    }

    fn value(&self) -> (r: Option<usize>) {
        match self {
            SudokuCell::Empty => None,
            SudokuCell::Digit(d) => Some(*d),
        }
    }

    fn unwrap(self) -> (r: usize) {
        match self {
            SudokuCell::Digit(d) => d,
            SudokuCell::Empty => 0,
        }
    }
}

/// `b` is the integer square root of `n`.
pub open spec fn is_isqrt(b: nat, n: nat) -> bool {
    b * b <= n && n < (b + 1) * (b + 1)
}

/// The mathematical content of a board: its side N, its box side B and the
/// cells in row-major order.
pub struct Board {
    pub side: nat,
    pub box_side: nat,
    pub cells: Seq<SudokuCell>,
}

impl Board {
    /// N² cells, B = ⌊√N⌋, and N² fits in a `usize`.
    pub open spec fn wf(self) -> bool {
        &&& self.cells.len() == self.side * self.side
        &&& is_isqrt(self.box_side, self.side)
        &&& self.side * self.side <= usize::MAX
    }

    /// The side is a perfect square, so that the boxes tile the board.
    pub open spec fn square(self) -> bool {
        self.wf() && self.box_side * self.box_side == self.side
    }

    /// The cell at (row, column).
    pub open spec fn at(self, row: int, column: int) -> SudokuCell {
        self.cells[row * self.side + column]
    }

    /// Every digit on the board lies in 1..=N.
    pub open spec fn digits_in_range(self) -> bool {
        forall|i: int|
            0 <= i < self.cells.len() && (#[trigger] self.cells[i]) is Digit ==> 1
                <= self.cells[i]->Digit_0 <= self.side
    }

    /// Every cell holds a digit.
    pub open spec fn full(self) -> bool {
        forall|i: int| 0 <= i < self.cells.len() ==> (#[trigger] self.cells[i]) is Digit
    }

    /// `self` keeps every digit given in `start`, on a board of the same shape.
    pub open spec fn extends(self, start: Board) -> bool {
        &&& self.side == start.side
        &&& self.box_side == start.box_side
        &&& self.cells.len() == start.cells.len()
        &&& forall|i: int|
            0 <= i < start.cells.len() && (#[trigger] start.cells[i]) is Digit ==> self.cells[i]
                == start.cells[i]
    }
}

/// A board: N, B = ⌊√N⌋ and N² cells, row-major.
#[derive(Debug, Clone)]
pub struct Sudoku {
    side: usize,
    box_side: usize,
    values: Vec<SudokuCell>,
}

impl View for Sudoku {
    type V = Board;

    closed spec fn view(&self) -> Board {
        Board { side: self.side as nat, box_side: self.box_side as nat, cells: self.values@ }
    }
}

impl Sudoku {
    /// An empty board of the given side.
    pub fn empty(side: usize) -> (r: Sudoku)
        requires
            side * side <= usize::MAX,
        ensures
            r@.wf(),
            r@.side == side,
            is_isqrt(r@.box_side, side as nat),
            r@.cells == Seq::new((side * side) as nat, |i: int| SudokuCell::Empty),
    {
        let box_side = integer_sqrt(side);
        let n = side * side;
        let mut values: Vec<SudokuCell> = Vec::with_capacity(n);
        let mut i: usize = 0;
        while i < n
            invariant
                i <= n,
                values@ == Seq::new(i as nat, |k: int| SudokuCell::Empty),
            decreases n - i,
        {
            values.push(SudokuCell::Empty);
            i += 1;
        }
        Sudoku { side, box_side, values }
    }

    /// N, the number of cells along a row or a column.
    pub fn side(&self) -> (r: usize)
        ensures
            r == self@.side,
    {
        self.side
    }

    /// B, the side of a box.
    pub fn box_side(&self) -> (r: usize)
        ensures
            r == self@.box_side,
    {
        self.box_side
    }

    /// Writes the cell at (row, column).
    pub fn set(&mut self, row: usize, column: usize, value: SudokuCell)
        requires
            old(self)@.wf(),
            row < old(self)@.side,
            column < old(self)@.side,
        ensures
            final(self)@ == (Board {
                cells: old(self)@.cells.update(row * old(self)@.side + column, value),
                ..old(self)@
            }),
    {
        proof {
            lemma_cell_index(self.side as int, row as int, column as int);
        }
        let index = row * self.side + column;
        self.values.set(index, value);
    }

    /// The cell at (row, column).
    pub fn get(&self, row: usize, column: usize) -> (r: &SudokuCell)
        requires
            self@.wf(),
            row < self@.side,
            column < self@.side,
        ensures
            *r == self@.cells[row * self@.side + column],
    {
        proof {
            lemma_cell_index(self.side as int, row as int, column as int);
        }
        &self.values[row * self.side + column]
    }

    /// Writes the cell at a row-major index.
    pub fn set_raw(&mut self, index: usize, value: SudokuCell)
        requires
            index < old(self)@.cells.len(),
        ensures
            final(self)@ == (Board { cells: old(self)@.cells.update(index as int, value), ..old(self)@ }),
    {
        self.values.set(index, value);
    }

    /// The cell at a row-major index.
    pub fn get_raw(&self, index: usize) -> (r: &SudokuCell)
        requires
            index < self@.cells.len(),
        ensures
            *r == self@.cells[index as int],
    {
        &self.values[index]
    }

    /// Exchanges the contents of two cells.
    pub fn swap_raw(&mut self, raw_a: usize, raw_b: usize)
        requires
            raw_a < old(self)@.cells.len(),
            raw_b < old(self)@.cells.len(),
        ensures
            final(self)@ == (Board {
                cells: old(self)@.cells.update(raw_a as int, old(self)@.cells[raw_b as int]).update(
                    raw_b as int,
                    old(self)@.cells[raw_a as int],
                ),
                ..old(self)@
            }),
    {
        let a = self.values[raw_a];
        let b = self.values[raw_b];
        self.values.set(raw_a, b);
        self.values.set(raw_b, a);
    }

    /// The (row, column) of every non-empty cell, in row-major order.
    pub fn nonempty(&self) -> (r: Vec<(usize, usize)>)
        requires
            self@.wf(),
        ensures
            forall|k: int|
                0 <= k < r@.len() ==> {
                    let (row, col) = #[trigger] r@[k];
                    &&& row < self@.side
                    &&& col < self@.side
                    &&& self@.cells[row * self@.side + col] is Digit
                },
            forall|i: int|
                0 <= i < self@.cells.len() && (#[trigger] self@.cells[i]) is Digit ==> exists|k: int|
                    0 <= k < r@.len() && r@[k] == ((i / self@.side as int) as usize, (i
                        % self@.side as int) as usize),
            forall|k1: int, k2: int|
                0 <= k1 < k2 < r@.len() ==> r@[k1].0 * self@.side + r@[k1].1 < r@[k2].0
                    * self@.side + r@[k2].1,
    {
        let side = self.side;
        let n = side * side;
        let mut out: Vec<(usize, usize)> = Vec::new();
        let mut i: usize = 0;
        while i < n
            invariant
                self@.wf(),
                side == self@.side,
                n == self@.cells.len(),
                i <= n,
                forall|k: int|
                    0 <= k < out@.len() ==> {
                        let (rr, cc) = #[trigger] out@[k];
                        &&& rr * side + cc < i
                        &&& rr < side
                        &&& cc < side
                        &&& self@.cells[rr * side + cc] is Digit
                    },
                forall|j: int|
                    0 <= j < i && (#[trigger] self@.cells[j]) is Digit ==> exists|k: int|
                        0 <= k < out@.len() && out@[k] == ((j / side as int) as usize, (j
                            % side as int) as usize),
                forall|k1: int, k2: int|
                    0 <= k1 < k2 < out@.len() ==> out@[k1].0 * side + out@[k1].1 < out@[k2].0
                        * side + out@[k2].1,
            decreases n - i,
        {
            proof {
                lemma_cell_split(side as int, i as int);
            }
            let row = i / side;
            let col = i % side;
            let ghost before = out@;
            if !self.values[i].is_empty() {
                out.push((row, col));
                proof {
                    assert forall|j: int|
                        0 <= j < i + 1 && (#[trigger] self@.cells[j]) is Digit implies exists|k: int|
                            0 <= k < out@.len() && out@[k] == ((j / side as int) as usize, (j
                                % side as int) as usize) by {
                        if j == i {
                            assert(out@[before.len() as int] == ((j / side as int) as usize, (j
                                % side as int) as usize));
                        } else {
                            let k = choose|k: int|
                                0 <= k < before.len() && before[k] == ((j / side as int) as usize, (j
                                    % side as int) as usize);
                            assert(out@[k] == before[k]);
                        }
                    }
                }
            }
            i += 1;
        }
        out
    }
}

/// ⌊√n⌋.
fn integer_sqrt(n: usize) -> (r: usize)
    requires
        n * n <= usize::MAX,
    ensures
        is_isqrt(r as nat, n as nat),
{
    proof {
        assert(n < 0x1_0000_0000) by (nonlinear_arith)
            requires
                n * n <= usize::MAX,
        ;
    }
    let mut b: u64 = 0;
    // (b + 1)², kept alongside b
    let mut next_square: u64 = 1;
    while next_square <= n as u64
        invariant
            b * b <= n,
            b <= n,
            next_square == (b + 1) * (b + 1),
            n < 0x1_0000_0000,
        decreases n - b,
    {
        proof {
            assert(b + 1 <= n && 2 * b + 3 <= 0x1_0000_0000) by (nonlinear_arith)
                requires
                    (b + 1) * (b + 1) <= n,
                    n < 0x1_0000_0000,
            ;
            assert((b + 2) * (b + 2) == (b + 1) * (b + 1) + 2 * b + 3) by (nonlinear_arith);
        }
        next_square = next_square + 2 * b + 3;
        b = b + 1;
    }
    b as usize
}

/// The cell (row, column) of an N×N board sits at row·N + column.
pub proof fn lemma_cell_index(n: int, row: int, column: int)
    requires
        0 <= row < n,
        0 <= column < n,
    ensures
        0 <= row * n + column < n * n,
        (row * n + column) / n == row,
        (row * n + column) % n == column,
{
    assert(0 <= row * n + column < n * n) by (nonlinear_arith)
        requires
            0 <= row < n,
            0 <= column < n,
    ;
    vstd::arithmetic::div_mod::lemma_fundamental_div_mod_converse(row * n + column, n, row, column);
}

/// Box coordinates: with B > 0 and r < B², r = B·(r / B) + r % B, and the
/// B cells of r's box along one axis start at B·(r / B).
pub proof fn lemma_box_offset(b: int, r: int, v: int)
    requires
        b > 0,
        0 <= r < b * b,
        0 <= v < b,
    ensures
        r == b * (r / b) + r % b,
        0 <= r / b < b,
        0 <= b * (r / b) + v < b * b,
        (b * (r / b) + v) / b == r / b,
        (b * (r / b) + v) % b == v,
{
    vstd::arithmetic::div_mod::lemma_fundamental_div_mod(r, b);
    assert(0 <= r / b < b && 0 <= r % b < b) by (nonlinear_arith)
        requires
            b > 0,
            0 <= r < b * b,
            r == b * (r / b) + r % b,
            0 <= r % b < b,
    ;
    assert(0 <= b * (r / b) + v < b * b) by (nonlinear_arith)
        requires
            b > 0,
            0 <= r / b < b,
            0 <= v < b,
    ;
    assert(b * (r / b) + v == (r / b) * b + v) by (nonlinear_arith);
    vstd::arithmetic::div_mod::lemma_fundamental_div_mod_converse(b * (r / b) + v, b, r / b, v);
}

/// Every index below N² is row·N + column for its row and column.
pub proof fn lemma_cell_split(n: int, i: int)
    requires
        0 <= n,
        0 <= i < n * n,
    ensures
        0 <= i / n < n,
        0 <= i % n < n,
        i == (i / n) * n + i % n,
{
    assert(n > 0) by (nonlinear_arith)
        requires
            0 <= n,
            0 <= i < n * n,
    ;
    vstd::arithmetic::div_mod::lemma_fundamental_div_mod(i, n);
    assert(0 <= i / n < n) by (nonlinear_arith)
        requires
            0 <= i < n * n,
            n > 0,
            i == n * (i / n) + i % n,
            0 <= i % n < n,
    ;
    assert(i == (i / n) * n + i % n) by (nonlinear_arith)
        requires
            i == n * (i / n) + i % n,
    ;
}

} // verus!
