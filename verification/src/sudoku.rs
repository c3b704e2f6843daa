//! Sudoku as exact cover: the placements are the rows, the rules the
//! columns.

use crate::arrange::{
    cartesian_product, is_order, lemma_order, numbers_below, product_of, range, shuffled,
};
use crate::board::poses;
use crate::consumer::{as_rows, fresh, handed_on, obeys, Consumer, Handed};
use crate::cover::Instance;
use crate::exact_cover::{Matrix, MatrixSize, SolvingState};
use vstd::prelude::*;

verus! {

/// The largest board order for which every count fits the machine: with it
/// a board has 1600 rows, and there are 1600 * 1600 * 1600 placements.
pub const MAX_ORDER: u32 = 40;

/// A rule that a placement can satisfy.
#[derive(Clone, Copy, PartialEq, Eq, Debug, Hash, Structural)]
pub enum Constraint {
    /// The cell in this row and column holds a number.
    RowColumn { row: u32, column: u32 },
    /// This row holds this number.
    RowNumber { row: u32, number: u32 },
    /// This column holds this number.
    ColumnNumber { column: u32, number: u32 },
    /// This box holds this number.
    SquareNumber { square: u32, number: u32 },
}

/// A placement: a number in a cell, with the box that the cell lies in.
#[derive(Clone, Copy, PartialEq, Eq, Debug, Hash, Structural)]
pub struct Choice {
    pub row: u32,
    pub column: u32,
    pub square: u32,
    pub number: u32,
}

/// A solution: its placements, in the order in which they were chosen.
pub type Solution = Vec<Choice>;

/// The constraint of a category for a pair of numbers.
pub open spec fn of_kind(kind: int, pair: (u32, u32)) -> Constraint {
    if kind == 0 {
        Constraint::RowColumn { row: pair.0, column: pair.1 }
    } else if kind == 1 {
        Constraint::RowNumber { row: pair.0, number: pair.1 }
    } else if kind == 2 {
        Constraint::ColumnNumber { column: pair.0, number: pair.1 }
    } else {
        Constraint::SquareNumber { square: pair.0, number: pair.1 }
    }
}

/// The constraints of one category for the pairs of `pairs`, in order.
pub open spec fn group(kind: int, pairs: Seq<(u32, u32)>) -> Seq<Constraint> {
    pairs.map_values(|pair: (u32, u32)| of_kind(kind, pair))
}

/// The pairs of numbers below `side`, the pairs with a smaller first number
/// first.
pub open spec fn pairs_below(side: int) -> Seq<(u32, u32)> {
    product_of(numbers_below(side as nat), numbers_below(side as nat))
}

/// The box of a cell on a board of order `n`.
pub open spec fn square_of(n: int, row: int, column: int) -> int {
    let index = row * (n * n) + column;
    (index % (n * n)) / n + n * (index / (n * n * n))
}

/// The placement of a number in a cell on a board of order `n`.
pub open spec fn placed(n: int, row: u32, column: u32, number: u32) -> Choice {
    Choice { row, column, square: square_of(n, row as int, column as int) as u32, number }
}

/// Some placement of `filled` is in the cell of `choice`.
pub open spec fn occupied(filled: Seq<Choice>, choice: Choice) -> bool {
    exists|i: int|
        0 <= i < filled.len() && (#[trigger] filled[i]).row == choice.row && filled[i].column
            == choice.column
}

/// Some placement of `filled` satisfies `constraint`.
pub open spec fn met(filled: Seq<Choice>, constraint: Constraint) -> bool {
    exists|i: int| 0 <= i < filled.len() && (#[trigger] filled[i]).meets(constraint)
}

/// Holds of the placements whose cell `filled` leaves empty.
pub open spec fn is_open(filled: Seq<Choice>) -> spec_fn(Choice) -> bool {
    |choice: Choice| !occupied(filled, choice)
}

/// Holds of the constraints that `filled` leaves unsatisfied.
pub open spec fn is_unmet(filled: Seq<Choice>) -> spec_fn(Constraint) -> bool {
    |constraint: Constraint| !met(filled, constraint)
}

impl Constraint {
    /// Every constraint of a board of order `n`: cell by cell, then row by
    /// number, column by number and box by number.
    pub open spec fn every(n: int) -> Seq<Constraint> {
        group(0, pairs_below(n * n)) + group(1, pairs_below(n * n)) + group(2, pairs_below(n * n))
            + group(3, pairs_below(n * n))
    }

    /// Appends the constraints of one category for the given pairs.
    fn extend(list: &mut Vec<Constraint>, kind: u8, pairs: &Vec<(u32, u32)>)
        requires
            kind < 4,
        ensures
            final(list)@ == old(list)@ + group(kind as int, pairs@),
    {
        let mut i: usize = 0;
        while i < pairs.len()
            invariant
                i <= pairs@.len(),
                kind < 4,
                list@ == old(list)@ + group(kind as int, pairs@.take(i as int)),
            decreases pairs@.len() - i,
        {
            let pair = pairs[i];
            let constraint = if kind == 0 {
                Constraint::RowColumn { row: pair.0, column: pair.1 }
            } else if kind == 1 {
                Constraint::RowNumber { row: pair.0, number: pair.1 }
            } else if kind == 2 {
                Constraint::ColumnNumber { column: pair.0, number: pair.1 }
            } else {
                Constraint::SquareNumber { square: pair.0, number: pair.1 }
            };
            list.push(constraint);
            proof {
                assert(pairs@.take(i + 1) =~= pairs@.take(i as int).push(pair));
                assert(group(kind as int, pairs@.take(i + 1)) =~= group(
                    kind as int,
                    pairs@.take(i as int),
                ).push(constraint));
                assert(list@ =~= old(list)@ + group(kind as int, pairs@.take(i + 1)));
            }
            i += 1;
        }
        proof {
            assert(pairs@.take(i as int) =~= pairs@);
        }
    }

    /// Every constraint of a board of order `n`.
    pub fn all(n: u32) -> (list: Vec<Constraint>)
        requires
            n <= MAX_ORDER,
        ensures
            list@ == Constraint::every(n as int),
    {
        proof {
            assert(n * n <= 1600) by (nonlinear_arith)
                requires
                    n <= 40,
            ;
        }
        let numbers = range(n * n);
        proof {
            assert(numbers@.len() * numbers@.len() <= usize::MAX) by (nonlinear_arith)
                requires
                    numbers@.len() <= 1600,
            ;
        }
        let mut list: Vec<Constraint> = Vec::new();
        let row_column = cartesian_product(&numbers, &numbers);
        Constraint::extend(&mut list, 0, &row_column);
        let row_number = cartesian_product(&numbers, &numbers);
        Constraint::extend(&mut list, 1, &row_number);
        let column_number = cartesian_product(&numbers, &numbers);
        Constraint::extend(&mut list, 2, &column_number);
        let square_number = cartesian_product(&numbers, &numbers);
        Constraint::extend(&mut list, 3, &square_number);
        proof {
            assert(list@ =~= Constraint::every(n as int));
        }
        list
    }
}

impl Choice {
    /// This placement satisfies `constraint`.
    pub open spec fn meets(self, constraint: Constraint) -> bool {
        match constraint {
            Constraint::RowColumn { row, column } => row == self.row && column == self.column,
            Constraint::RowNumber { row, number } => row == self.row && number == self.number,
            Constraint::ColumnNumber { column, number } => column == self.column && number
                == self.number,
            Constraint::SquareNumber { square, number } => square == self.square && number
                == self.number,
        }
    }

    /// The placements of the numbers of `numbers` in the cells of the rows
    /// of `rows` and the columns of `columns`: row by row, within a row
    /// column by column, within a cell number by number.
    pub open spec fn product_of(
        n: int,
        rows: Seq<u32>,
        columns: Seq<u32>,
        numbers: Seq<u32>,
    ) -> Seq<Choice> {
        product_of(product_of(rows, columns), numbers).map_values(
            |t: ((u32, u32), u32)| placed(n, t.0.0, t.0.1, t.1),
        )
    }

    /// `choices` holds every placement of a board of order `n`, the rows,
    /// the columns and the numbers each in some order.
    pub open spec fn is_every(n: int, choices: Seq<Choice>) -> bool {
        exists|rows: Seq<u32>, columns: Seq<u32>, numbers: Seq<u32>|
            is_order(rows, (n * n) as nat) && is_order(columns, (n * n) as nat) && is_order(
                numbers,
                (n * n) as nat,
            ) && choices == #[trigger] Choice::product_of(n, rows, columns, numbers)
    }

    /// The placements of the given numbers in the cells of the given rows
    /// and columns, in the order of the three lists.
    pub fn product(n: u32, rows: &Vec<u32>, columns: &Vec<u32>, numbers: &Vec<u32>) -> (choices:
        Vec<Choice>)
        requires
            n <= MAX_ORDER,
            rows@.len() <= n * n,
            columns@.len() <= n * n,
            numbers@.len() <= n * n,
            forall|i: int| 0 <= i < rows@.len() ==> rows@[i] < n * n,
            forall|i: int| 0 <= i < columns@.len() ==> columns@[i] < n * n,
        ensures
            choices@ == Choice::product_of(n as int, rows@, columns@, numbers@),
    {
        proof {
            assert(n * n <= 1600 && n * n * n <= 64000) by (nonlinear_arith)
                requires
                    n <= 40,
            ;
            assert(rows@.len() * columns@.len() <= 2560000) by (nonlinear_arith)
                requires
                    rows@.len() <= 1600,
                    columns@.len() <= 1600,
            ;
        }
        let cells = cartesian_product(rows, columns);
        proof {
            assert(cells@.len() * numbers@.len() <= 4096000000) by (nonlinear_arith)
                requires
                    cells@.len() <= 2560000,
                    numbers@.len() <= 1600,
            ;
        }
        let triples = cartesian_product(&cells, numbers);
        let side = n * n;
        let cube = n * n * n;
        let mut choices: Vec<Choice> = Vec::new();
        let mut i: usize = 0;
        while i < triples.len()
            invariant
                i <= triples@.len(),
                n <= 40,
                side == n * n,
                cube == n * n * n,
                side <= 1600,
                cube <= 64000,
                cells@ == product_of(rows@, columns@),
                triples@ == product_of(cells@, numbers@),
                forall|k: int| 0 <= k < rows@.len() ==> rows@[k] < n * n,
                forall|k: int| 0 <= k < columns@.len() ==> columns@[k] < n * n,
                choices@ == triples@.take(i as int).map_values(
                    |t: ((u32, u32), u32)| placed(n as int, t.0.0, t.0.1, t.1),
                ),
            decreases triples@.len() - i,
        {
            let ((row, column), number) = triples[i];
            proof {
                let k = i as int;
                let m = numbers@.len() as int;
                let c = columns@.len() as int;
                assert(m > 0 && c > 0 && 0 <= k / m < cells@.len() && 0 <= (k / m) / c
                    < rows@.len() && 0 <= (k / m) % c < c) by (nonlinear_arith)
                    requires
                        0 <= k < cells@.len() * m,
                        cells@.len() == rows@.len() * c,
                ;
                assert(row == rows@[(k / m) / c]);
                assert(column == columns@[(k / m) % c]);
                assert(n > 0) by (nonlinear_arith)
                    requires
                        row < n * n,
                ;
                assert(row * side + column < side * side <= 2560000) by (nonlinear_arith)
                    requires
                        row < side,
                        column < side,
                        side <= 1600,
                ;
                assert(cube > 0 && (row * side + column) / (cube as int) < n) by (nonlinear_arith)
                    requires
                        row * side + column < side * side,
                        side == n * n,
                        cube == n * n * n,
                        n > 0,
                ;
                assert(n * ((row * side + column) / (cube as int)) < 1600) by (nonlinear_arith)
                    requires
                        (row * side + column) / (cube as int) < n,
                        0 <= (row * side + column) / (cube as int),
                        n <= 40,
                ;
            }
            let index = (row * side) + column;
            let square = ((index % side) / n) + (n * (index / cube));
            choices.push(Choice { row, column, square, number });
            proof {
                let f = |t: ((u32, u32), u32)| placed(n as int, t.0.0, t.0.1, t.1);
                assert(triples@.take(i + 1) =~= triples@.take(i as int).push(triples@[i as int]));
                assert(choices@ =~= triples@.take(i + 1).map_values(f));
            }
            i += 1;
        }
        proof {
            assert(triples@.take(i as int) =~= triples@);
        }
        choices
    }

    /// Every placement of a board of order `n`, the rows, the columns and
    /// the numbers each in an order that chance decides.
    pub fn all(n: u32) -> (choices: Vec<Choice>)
        requires
            n <= MAX_ORDER,
        ensures
            Choice::is_every(n as int, choices@),
    {
        proof {
            assert(n * n <= 1600) by (nonlinear_arith)
                requires
                    n <= 40,
            ;
        }
        let row_range = shuffled(n * n);
        let column_range = shuffled(n * n);
        let number_range = shuffled(n * n);
        proof {
            lemma_order(row_range@, (n * n) as nat);
            lemma_order(column_range@, (n * n) as nat);
            lemma_order(number_range@, (n * n) as nat);
            assert forall|i: int| 0 <= i < row_range@.len() implies row_range@[i] < n * n by {
                assert(row_range@.contains(row_range@[i]));
            }
            assert forall|i: int| 0 <= i < column_range@.len() implies column_range@[i] < n
                * n by {
                assert(column_range@.contains(column_range@[i]));
            }
        }
        Choice::product(n, &row_range, &column_range, &number_range)
    }

    /// The four constraints that a placement satisfies.
    pub fn satisfied_constraints(choice: &Choice) -> (four: [Constraint; 4])
        ensures
            four@ == seq![
                Constraint::RowColumn { row: choice.row, column: choice.column },
                Constraint::RowNumber { row: choice.row, number: choice.number },
                Constraint::ColumnNumber { column: choice.column, number: choice.number },
                Constraint::SquareNumber { square: choice.square, number: choice.number },
            ],
    {
        [
            Constraint::RowColumn { row: choice.row, column: choice.column },
            Constraint::RowNumber { row: choice.row, number: choice.number },
            Constraint::ColumnNumber { column: choice.column, number: choice.number },
            Constraint::SquareNumber { square: choice.square, number: choice.number },
        ]
    }

    /// Whether a placement satisfies a constraint.
    pub fn satisfies(&self, constraint: &Constraint) -> (yes: bool)
        ensures
            yes == self.meets(*constraint),
    {
        let four = Choice::satisfied_constraints(self);
        let mut i: usize = 0;
        while i < 4
            invariant
                i <= 4,
                four@ == seq![
                    Constraint::RowColumn { row: self.row, column: self.column },
                    Constraint::RowNumber { row: self.row, number: self.number },
                    Constraint::ColumnNumber { column: self.column, number: self.number },
                    Constraint::SquareNumber { square: self.square, number: self.number },
                ],
                forall|k: int| 0 <= k < i ==> four@[k] != *constraint,
            decreases 4 - i,
        {
            if four[i] == *constraint {
                return true;
            }
            i += 1;
        }
        proof {
            assert(four@[0] != *constraint && four@[1] != *constraint && four@[2] != *constraint
                && four@[3] != *constraint);
        }
        false
    }
}

/// The exact-cover instance of placements and constraints: row `i` has a
/// one in column `j` where placement `i` satisfies constraint `j`.
pub open spec fn instance_of(choices: Seq<Choice>, constraints: Seq<Constraint>) -> Instance {
    Instance {
        columns: constraints.len() as int,
        rows: Seq::new(
            choices.len(),
            |i: int| Seq::new(constraints.len(), |j: int| choices[i].meets(constraints[j])),
        ),
    }
}

/// How many constraints a board has, and where each stands.
pub proof fn lemma_every_len(n: int)
    requires
        0 <= n <= MAX_ORDER,
    ensures
        Constraint::every(n).len() == 4 * ((n * n) * (n * n)),
        Constraint::every(n).len() <= 10240000,
        forall|row: u32, column: u32|
            row < n * n && column < n * n ==> Constraint::every(n)[row * (n * n) + column]
                == (Constraint::RowColumn { row, column }),
{
    let side = n * n;
    assert(0 <= side <= 1600 && side * side <= 2560000) by (nonlinear_arith)
        requires
            0 <= n <= 40,
            side == n * n,
    ;
    let pairs = pairs_below(side);
    assert(pairs.len() == side * side);
    assert forall|row: u32, column: u32| row < side && column < side implies Constraint::every(
        n,
    )[row * side + column] == (Constraint::RowColumn { row, column }) by {
        let k = row * side + column;
        assert(0 <= k < side * side && k / side == row && k % side == column)
            by (nonlinear_arith)
            requires
                k == row * side + column,
                0 <= row < side,
                0 <= column < side,
        ;
        assert(pairs[k] == (row, column));
        assert(group(0, pairs)[k] == of_kind(0, pairs[k]));
    }
}

/// Every placement of a board lies on the board, and they are not too many.
pub proof fn lemma_every_in_range(n: int, candidates: Seq<Choice>)
    requires
        0 <= n <= MAX_ORDER,
        Choice::is_every(n, candidates),
    ensures
        candidates.len() == (n * n) * (n * n) * (n * n),
        candidates.len() <= 4096000000,
        forall|i: int|
            0 <= i < candidates.len() ==> (#[trigger] candidates[i]).row < n * n
                && candidates[i].column < n * n && candidates[i].number < n * n,
{
    let side = n * n;
    assert(0 <= side <= 1600 && side * side * side <= 4096000000) by (nonlinear_arith)
        requires
            0 <= n <= 40,
            side == n * n,
    ;
    let (rows, columns, numbers) = choose|rows: Seq<u32>, columns: Seq<u32>, numbers: Seq<u32>|
        is_order(rows, (n * n) as nat) && is_order(columns, (n * n) as nat) && is_order(
            numbers,
            (n * n) as nat,
        ) && candidates == #[trigger] Choice::product_of(n, rows, columns, numbers);
    lemma_order(rows, side as nat);
    lemma_order(columns, side as nat);
    lemma_order(numbers, side as nat);
    let cells = product_of(rows, columns);
    let triples = product_of(cells, numbers);
    assert(candidates.len() == side * side * side);
    assert forall|i: int| 0 <= i < candidates.len() implies (#[trigger] candidates[i]).row < side
        && candidates[i].column < side && candidates[i].number < side by {
        assert(side > 0 && 0 <= i / side < side * side && 0 <= i % side < side && 0 <= (i / side)
            / side < side && 0 <= (i / side) % side < side) by (nonlinear_arith)
            requires
                0 <= i < side * side * side,
        ;
        assert(candidates[i] == placed(
            n,
            triples[i].0.0,
            triples[i].0.1,
            triples[i].1,
        ));
        assert(triples[i] == (cells[i / side], numbers[i % side]));
        assert(cells[i / side] == (rows[(i / side) / side], columns[(i / side) % side]));
        assert(rows.contains(rows[(i / side) / side]));
        assert(columns.contains(columns[(i / side) % side]));
        assert(numbers.contains(numbers[i % side]));
    }
}

/// An open placement on the board satisfies a constraint that is left:
/// that its cell holds a number.
pub proof fn lemma_open_cell_is_left(n: int, candidates: Seq<Choice>, filled: Seq<Choice>)
    requires
        0 <= n <= MAX_ORDER,
        forall|i: int|
            0 <= i < candidates.len() ==> (#[trigger] candidates[i]).row < n * n
                && candidates[i].column < n * n,
    ensures
        instance_of(
            candidates.filter(is_open(filled)),
            Constraint::every(n).filter(is_unmet(filled)),
        ).wf(),
{
    let open = candidates.filter(is_open(filled));
    let every = Constraint::every(n);
    let left = every.filter(is_unmet(filled));
    let inst = instance_of(open, left);
    let side = n * n;
    lemma_every_len(n);
    assert forall|i: int| 0 <= i < inst.rows.len() implies #[trigger] inst.row_ok(i) by {
        let choice = open[i];
        candidates.lemma_filter_pred(is_open(filled), i);
        assert(open.contains(choice));
        candidates.lemma_filter_contains_rev(is_open(filled), choice);
        let c = choose|c: int| 0 <= c < candidates.len() && candidates[c] == choice;
        assert(candidates[c].row < side);
        let cell = Constraint::RowColumn { row: choice.row, column: choice.column };
        let k = choice.row * side + choice.column;
        assert(0 <= k < side * side) by (nonlinear_arith)
            requires
                k == choice.row * side + choice.column,
                0 <= choice.row < side,
                0 <= choice.column < side,
        ;
        assert(every[k] == cell);
        assert(!met(filled, cell)) by {
            if met(filled, cell) {
                let w = choose|w: int| 0 <= w < filled.len() && (#[trigger] filled[w]).meets(cell);
                assert(filled[w].row == choice.row && filled[w].column == choice.column);
                assert(occupied(filled, choice));
            }
        }
        every.lemma_filter_contains(is_unmet(filled), k);
        let j = choose|j: int| 0 <= j < left.len() && left[j] == cell;
        assert(open[i].meets(left[j]));
        assert(inst.rows[i][j]);
    }
}

/// A Sudoku to solve: the placements that are open, and the constraints
/// that are yet to be satisfied.
pub struct Sudoku {
    pub choices: Vec<Choice>,
    constraints: Vec<Constraint>,
}

/// `trace` is what a search hands out that finds `expected`: its solutions
/// in order, up to and with the first that is answered by `Abort`.
pub open spec fn follows(expected: Seq<Seq<Choice>>, trace: Seq<Handed<Vec<Choice>>>) -> bool {
    &&& trace.len() <= expected.len()
    &&& forall|i: int| 0 <= i < trace.len() ==> (#[trigger] trace[i]).solution@ == expected[i]
    &&& forall|i: int| 0 <= i < trace.len() - 1 ==> (#[trigger] trace[i]).verdict is Continue
    &&& (trace.len() == 0 || trace.last().verdict is Continue) ==> trace.len() == expected.len()
}

/// A consumer that hands every solution on to a function, as placements.
struct Decoder<'a, F> {
    choices: &'a Vec<Choice>,
    callback: F,
    log: Ghost<Seq<Handed<Vec<usize>>>>,
}

/// The placements that stand in the rows of `rows`.
pub open spec fn decoded(choices: Seq<Choice>, rows: Seq<int>) -> Seq<Choice> {
    rows.map_values(|r: int| choices[r])
}

impl<'a, F: FnMut(Vec<Choice>) -> SolvingState> Consumer for Decoder<'a, F> {
    closed spec fn seen(&self) -> Seq<Handed<Vec<usize>>> {
        self.log@
    }

    closed spec fn accepts(&self, rows: Vec<usize>) -> bool {
        &&& forall|i: int| 0 <= i < rows@.len() ==> rows@[i] < self.choices@.len()
        &&& forall|solution: Vec<Choice>|
            solution@ == decoded(self.choices@, as_rows(rows@)) ==> call_requires(
                self.callback,
                (solution,),
            )
    }

    closed spec fn answers(&self, rows: Vec<usize>, verdict: SolvingState) -> bool {
        exists|solution: Vec<Choice>|
            solution@ == decoded(self.choices@, as_rows(rows@)) && call_ensures(
                self.callback,
                (solution,),
                verdict,
            )
    }

    closed spec fn wf(&self) -> bool {
        true
    }

    fn consume(&mut self, rows: Vec<usize>) -> (verdict: SolvingState) {
        let mut solution: Vec<Choice> = Vec::new();
        let mut i: usize = 0;
        while i < rows.len()
            invariant
                i <= rows@.len(),
                forall|k: int| 0 <= k < rows@.len() ==> rows@[k] < self.choices@.len(),
                solution@ == decoded(self.choices@, as_rows(rows@).take(i as int)),
                self.choices == old(self).choices,
                self.callback == old(self).callback,
                self.log == old(self).log,
            decreases rows@.len() - i,
        {
            solution.push(self.choices[rows[i]]);
            proof {
                assert(as_rows(rows@).take(i + 1) =~= as_rows(rows@).take(i as int).push(
                    rows@[i as int] as int,
                ));
                assert(solution@ =~= decoded(self.choices@, as_rows(rows@).take(i + 1)));
            }
            i += 1;
        }
        proof {
            assert(as_rows(rows@).take(i as int) =~= as_rows(rows@));
        }
        let verdict = (self.callback)(solution);
        proof {
            self.log@ = self.log@.push(Handed { solution: rows, verdict });
            assert(self.callback == old(self).callback);
            assert(self.choices == old(self).choices);
            assert forall|r: Vec<usize>| self.accepts(r) == old(self).accepts(r) by {
                if old(self).accepts(r) {
                    assert(self.accepts(r));
                }
                if self.accepts(r) {
                    assert(old(self).accepts(r));
                }
            }
            assert forall|r: Vec<usize>, v: SolvingState| self.answers(r, v) == old(self).answers(
                r,
                v,
            ) by {
                if old(self).answers(r, v) {
                    let d = choose|d: Vec<Choice>|
                        d@ == decoded(self.choices@, as_rows(r@)) && call_ensures(
                            old(self).callback,
                            (d,),
                            v,
                        );
                    assert(d@ == decoded(self.choices@, as_rows(r@)) && call_ensures(
                        self.callback,
                        (d,),
                        v,
                    ));
                }
                if self.answers(r, v) {
                    let d = choose|d: Vec<Choice>|
                        d@ == decoded(self.choices@, as_rows(r@)) && call_ensures(
                            self.callback,
                            (d,),
                            v,
                        );
                    assert(d@ == decoded(self.choices@, as_rows(r@)) && call_ensures(
                        old(self).callback,
                        (d,),
                        v,
                    ));
                }
            }
        }
        verdict
    }
}

/// A consumer that keeps the solution it is handed and asks to stop.
struct Keeper {
    found: Option<Vec<usize>>,
    log: Ghost<Seq<Handed<Vec<usize>>>>,
}

impl Consumer for Keeper {
    closed spec fn seen(&self) -> Seq<Handed<Vec<usize>>> {
        self.log@
    }

    closed spec fn accepts(&self, rows: Vec<usize>) -> bool {
        true
    }

    closed spec fn answers(&self, rows: Vec<usize>, verdict: SolvingState) -> bool {
        verdict is Abort
    }

    closed spec fn wf(&self) -> bool {
        match self.found {
            None => self.log@.len() == 0,
            Some(rows) => self.log@.len() > 0 && self.log@.last().solution@ == rows@,
        }
    }

    fn consume(&mut self, rows: Vec<usize>) -> (verdict: SolvingState) {
        proof {
            self.log@ = self.log@.push(Handed { solution: rows, verdict: SolvingState::Abort });
        }
        self.found = Some(rows);
        SolvingState::Abort
    }
}

/// A consumer that counts the solutions it is handed, up to two, and asks
/// to stop at the second.
struct Counter {
    found: usize,
    log: Ghost<Seq<Handed<Vec<usize>>>>,
}

impl Consumer for Counter {
    closed spec fn seen(&self) -> Seq<Handed<Vec<usize>>> {
        self.log@
    }

    closed spec fn accepts(&self, rows: Vec<usize>) -> bool {
        true
    }

    closed spec fn answers(&self, rows: Vec<usize>, verdict: SolvingState) -> bool {
        true
    }

    closed spec fn wf(&self) -> bool {
        &&& self.found <= 2
        &&& self.found == if self.log@.len() <= 2 {
            self.log@.len()
        } else {
            2
        }
        &&& forall|i: int|
            0 <= i < self.log@.len() ==> ((#[trigger] self.log@[i]).verdict is Continue <==> i
                == 0)
    }

    fn consume(&mut self, rows: Vec<usize>) -> (verdict: SolvingState) {
        if self.found <= 1 {
            self.found += 1;
        }
        let verdict = if self.found <= 1 {
            SolvingState::Continue
        } else {
            SolvingState::Abort
        };
        proof {
            self.log@ = self.log@.push(Handed { solution: rows, verdict });
        }
        verdict
    }
}

impl Sudoku {
    /// The placements that are open: a row of the matrix each.
    pub closed spec fn choices(&self) -> Seq<Choice> {
        self.choices@
    }

    /// The constraints yet to be satisfied: a column of the matrix each.
    pub closed spec fn constraints(&self) -> Seq<Constraint> {
        self.constraints@
    }

    /// The exact-cover instance: row `i` has a one in column `j` where
    /// placement `i` satisfies constraint `j`.
    pub open spec fn instance(&self) -> Instance {
        instance_of(self.choices(), self.constraints())
    }

    /// Every open placement satisfies a constraint that is left, and the
    /// matrix can be built.
    pub open spec fn wf(&self) -> bool {
        &&& self.choices().len() < usize::MAX
        &&& self.constraints().len() < usize::MAX
        &&& self.instance().wf()
    }

    /// The solutions that a search finds, in order, each as the placements
    /// in the order in which they were chosen.
    pub open spec fn solutions(&self) -> Seq<Seq<Choice>> {
        self.instance().solutions().map_values(|rows: Seq<int>| decoded(self.choices(), rows))
    }

    /// The Sudoku of order `n` in which the placements of `filled_values`
    /// are given, with every placement as a candidate.
    pub fn new(n: u32, filled_values: Vec<Choice>) -> (sudoku: Self)
        requires
            n <= MAX_ORDER,
        ensures
            sudoku.wf(),
            poses(sudoku, n as int, filled_values@),
    {
        let candidates = Choice::all(n);
        proof {
            lemma_every_in_range(n as int, candidates@);
        }
        Sudoku::with_candidates(n, candidates, filled_values)
    }

    /// The Sudoku of order `n` in which the placements of `filled_values`
    /// are given: of `candidates` those stay whose cell is empty, and of
    /// the constraints of the board those that no given satisfies.
    pub fn with_candidates(n: u32, candidates: Vec<Choice>, filled_values: Vec<Choice>) -> (sudoku:
        Self)
        requires
            n <= MAX_ORDER,
        ensures
            sudoku.choices() == candidates@.filter(is_open(filled_values@)),
            sudoku.constraints() == Constraint::every(n as int).filter(is_unmet(filled_values@)),
            candidates@.len() < usize::MAX && (forall|i: int|
                0 <= i < candidates@.len() ==> (#[trigger] candidates@[i]).row < n * n
                    && candidates@[i].column < n * n) ==> sudoku.wf(),
    {
        // what the givens satisfy
        let mut satisfied: Vec<Constraint> = Vec::new();
        let mut i: usize = 0;
        while i < filled_values.len()
            invariant
                i <= filled_values@.len(),
                forall|k: Constraint|
                    satisfied@.contains(k) <==> met(filled_values@.take(i as int), k),
            decreases filled_values@.len() - i,
        {
            let four = Choice::satisfied_constraints(&filled_values[i]);
            let ghost before = satisfied@;
            let ghost choice = filled_values@[i as int];
            satisfied.push(four[0]);
            satisfied.push(four[1]);
            satisfied.push(four[2]);
            satisfied.push(four[3]);
            proof {
                let now = filled_values@.take(i + 1);
                let was = filled_values@.take(i as int);
                assert(satisfied@ =~= before + four@);
                assert forall|k: Constraint| satisfied@.contains(k) <==> met(now, k) by {
                    if satisfied@.contains(k) {
                        let j = choose|j: int| 0 <= j < satisfied@.len() && satisfied@[j] == k;
                        if j < before.len() {
                            assert(before[j] == k);
                            assert(before.contains(k));
                            let w = choose|w: int| 0 <= w < was.len() && (#[trigger] was[w]).meets(k);
                            assert(now[w].meets(k));
                        } else {
                            assert(four@[j - before.len()] == k);
                            assert(now[i as int].meets(k));
                        }
                    }
                    if met(now, k) {
                        let w = choose|w: int| 0 <= w < now.len() && (#[trigger] now[w]).meets(k);
                        if w < i {
                            assert(was[w].meets(k));
                            assert(before.contains(k));
                            let j = choose|j: int| 0 <= j < before.len() && before[j] == k;
                            assert(satisfied@[j] == k);
                        } else {
                            assert(choice.meets(k));
                            assert(four@[0] == k || four@[1] == k || four@[2] == k || four@[3]
                                == k);
                            assert(satisfied@[before.len() as int + 0] == four@[0]);
                            assert(satisfied@[before.len() as int + 1] == four@[1]);
                            assert(satisfied@[before.len() as int + 2] == four@[2]);
                            assert(satisfied@[before.len() as int + 3] == four@[3]);
                        }
                    }
                }
            }
            i += 1;
        }
        proof {
            assert(filled_values@.take(i as int) =~= filled_values@);
        }
        // the open placements
        let mut choices: Vec<Choice> = Vec::new();
        let mut c: usize = 0;
        while c < candidates.len()
            invariant
                c <= candidates@.len(),
                choices@ == candidates@.take(c as int).filter(is_open(filled_values@)),
            decreases candidates@.len() - c,
        {
            let candidate = candidates[c];
            let mut taken = false;
            let mut f: usize = 0;
            while f < filled_values.len()
                invariant
                    f <= filled_values@.len(),
                    taken <==> occupied(filled_values@.take(f as int), candidate),
                decreases filled_values@.len() - f,
            {
                let ghost was = filled_values@.take(f as int);
                let ghost now = filled_values@.take(f + 1);
                let given = &filled_values[f];
                if given.row == candidate.row && given.column == candidate.column {
                    taken = true;
                }
                proof {
                    if occupied(was, candidate) {
                        let w = choose|w: int|
                            0 <= w < was.len() && (#[trigger] was[w]).row == candidate.row
                                && was[w].column == candidate.column;
                        assert(now[w].row == candidate.row && now[w].column == candidate.column);
                    }
                    if given.row == candidate.row && given.column == candidate.column {
                        assert(now[f as int].row == candidate.row);
                    }
                    if occupied(now, candidate) {
                        let w = choose|w: int|
                            0 <= w < now.len() && (#[trigger] now[w]).row == candidate.row
                                && now[w].column == candidate.column;
                        if w < f {
                            assert(was[w].row == candidate.row && was[w].column
                                == candidate.column);
                        }
                    }
                }
                f += 1;
            }
            proof {
                assert(filled_values@.take(f as int) =~= filled_values@);
                reveal_with_fuel(Seq::filter, 2);
                assert(candidates@.take(c + 1).drop_last() =~= candidates@.take(c as int));
            }
            if !taken {
                choices.push(candidate);
            }
            c += 1;
        }
        proof {
            assert(candidates@.take(c as int) =~= candidates@);
        }
        // the constraints that are left
        let every = Constraint::all(n);
        let mut constraints: Vec<Constraint> = Vec::new();
        let mut k: usize = 0;
        while k < every.len()
            invariant
                k <= every@.len(),
                forall|x: Constraint| satisfied@.contains(x) <==> met(filled_values@, x),
                constraints@ == every@.take(k as int).filter(is_unmet(filled_values@)),
            decreases every@.len() - k,
        {
            let constraint = every[k];
            let mut found = false;
            let mut j: usize = 0;
            while j < satisfied.len()
                invariant
                    j <= satisfied@.len(),
                    found <==> satisfied@.take(j as int).contains(constraint),
                decreases satisfied@.len() - j,
            {
                let ghost was = satisfied@.take(j as int);
                let ghost now = satisfied@.take(j + 1);
                if satisfied[j] == constraint {
                    found = true;
                }
                proof {
                    assert(now =~= was.push(satisfied@[j as int]));
                    if was.contains(constraint) {
                        let w = choose|w: int| 0 <= w < was.len() && was[w] == constraint;
                        assert(now[w] == constraint);
                    }
                    if satisfied@[j as int] == constraint {
                        assert(now[j as int] == constraint);
                    }
                    if now.contains(constraint) {
                        let w = choose|w: int| 0 <= w < now.len() && now[w] == constraint;
                        if w < j {
                            assert(was[w] == constraint);
                        }
                    }
                }
                j += 1;
            }
            proof {
                assert(satisfied@.take(j as int) =~= satisfied@);
                reveal_with_fuel(Seq::filter, 2);
                assert(every@.take(k + 1).drop_last() =~= every@.take(k as int));
            }
            if !found {
                constraints.push(constraint);
            }
            k += 1;
        }
        proof {
            assert(every@.take(k as int) =~= every@);
        }
        let sudoku = Self { choices, constraints };
        proof {
            if candidates@.len() < usize::MAX && (forall|i: int|
                0 <= i < candidates@.len() ==> (#[trigger] candidates@[i]).row < n * n
                    && candidates@[i].column < n * n) {
                lemma_open_cell_is_left(n as int, candidates@, filled_values@);
                candidates@.lemma_filter_len(is_open(filled_values@));
                Constraint::every(n as int).lemma_filter_len(is_unmet(filled_values@));
                lemma_every_len(n as int);
            }
        }
        sudoku
    }
    /// Builds the matrix and searches it, handing every solution to
    /// `consumer`. The result is the flag at the end of the search.
    fn run<C: Consumer>(&self, consumer: &mut C) -> (state: SolvingState)
        requires
            self.wf(),
            old(consumer).wf(),
            forall|v: Vec<usize>|
                self.instance().solutions().contains(as_rows(v@)) ==> old(consumer).accepts(v),
        ensures
            handed_on(*old(consumer), *final(consumer)),
            obeys(
                self.instance().solutions(),
                fresh(*old(consumer), *final(consumer)),
                SolvingState::Continue,
                state,
            ),
    {
        let mut matrix = Matrix::new(
            MatrixSize { x: self.constraints.len(), y: self.choices.len() },
        );
        let ghost inst = self.instance();
        let mut i: usize = 0;
        while i < self.choices.len()
            invariant
                i <= self.choices@.len(),
                inst == self.instance(),
                inst.wf(),
                matrix.wf(),
                matrix.state() is Continue,
                matrix.columns() == self.constraints@.len(),
                matrix.rows() == inst.rows.take(i as int),
            decreases self.choices@.len() - i,
        {
            let choice = &self.choices[i];
            let mut row: Vec<bool> = Vec::new();
            let mut j: usize = 0;
            while j < self.constraints.len()
                invariant
                    j <= self.constraints@.len(),
                    i < self.choices@.len(),
                    inst == self.instance(),
                    *choice == self.choices@[i as int],
                    row@ == inst.rows[i as int].take(j as int),
                decreases self.constraints@.len() - j,
            {
                row.push(choice.satisfies(&self.constraints[j]));
                proof {
                    assert(row@ =~= inst.rows[i as int].take(j + 1));
                }
                j += 1;
            }
            proof {
                assert(row@ =~= inst.rows[i as int]);
                assert(inst.row_ok(i as int));
                let w = choose|w: int| 0 <= w < inst.columns && #[trigger] inst.rows[i as int][w];
                assert(row@[w]);
            }
            matrix.add_row(row.as_slice());
            proof {
                assert(matrix.rows() =~= inst.rows.take(i + 1));
            }
            i += 1;
        }
        proof {
            assert(inst.rows.take(i as int) =~= inst.rows);
            assert(matrix.instance() == inst);
            matrix.lemma_at_start();
        }
        matrix.search(consumer);
        matrix.flag()
    }

    /// Finds the solutions of the Sudoku, in the order of the search, and
    /// hands each to `callback` as its placements, in the order in which
    /// they were chosen, until the answer is `Abort`. The result is what was
    /// handed out, with the answers.
    pub fn solve<F>(&self, callback: F) -> (trace: Ghost<Seq<Handed<Vec<Choice>>>>) where
        F: FnMut(Vec<Choice>) -> SolvingState,

        requires
            self.wf(),
            forall|solution: Vec<Choice>|
                self.solutions().contains(solution@) ==> call_requires(callback, (solution,)),
        ensures
            follows(self.solutions(), trace@),
            forall|i: int|
                0 <= i < trace@.len() ==> call_ensures(
                    callback,
                    ((#[trigger] trace@[i]).solution,),
                    trace@[i].verdict,
                ),
    {
        let mut consumer = Decoder { choices: &self.choices, callback, log: Ghost(Seq::empty()) };
        let ghost before = consumer;
        let ghost inst = self.instance();
        proof {
            inst.lemma_solutions_are_the_exact_covers();
            assert forall|v: Vec<usize>| inst.solutions().contains(as_rows(v@)) implies before.accepts(
                v,
            ) by {
                let i = choose|i: int|
                    0 <= i < inst.solutions().len() && inst.solutions()[i] == as_rows(v@);
                assert(inst.is_exact_cover(inst.solutions()[i].to_set()));
                assert forall|k: int| 0 <= k < v@.len() implies v@[k] < self.choices@.len() by {
                    assert(as_rows(v@)[k] == v@[k]);
                    assert(as_rows(v@).to_set().contains(as_rows(v@)[k]));
                }
                assert(self.solutions()[i] == decoded(self.choices@, as_rows(v@)));
            }
        }
        let _ = self.run(&mut consumer);
        let ghost log = consumer.log@;
        let ghost trace = Seq::new(
            log.len(),
            |i: int|
                Handed {
                    solution: choose|solution: Vec<Choice>|
                        solution@ == decoded(self.choices@, as_rows(log[i].solution@))
                            && call_ensures(callback, (solution,), log[i].verdict),
                    verdict: log[i].verdict,
                },
        );
        proof {
            assert(fresh(before, consumer) =~= log);
            assert forall|i: int| 0 <= i < trace.len() implies (#[trigger] trace[i]).solution@
                == self.solutions()[i] && call_ensures(
                callback,
                (trace[i].solution,),
                trace[i].verdict,
            ) by {
                assert(before.answers(log[i].solution, log[i].verdict));
            }
        }
        Ghost(trace)
    }

    /// The first solution that a search finds, if there is one.
    pub fn first_solution(&self) -> (found: Option<Vec<Choice>>)
        requires
            self.wf(),
        ensures
            match found {
                None => self.solutions().len() == 0,
                Some(solution) => self.solutions().len() > 0 && solution@ == self.solutions()[0],
            },
    {
        let mut keeper = Keeper { found: None, log: Ghost(Seq::empty()) };
        let ghost before = keeper;
        let ghost inst = self.instance();
        let _ = self.run(&mut keeper);
        proof {
            assert(fresh(before, keeper) =~= keeper.log@);
            inst.lemma_solutions_are_the_exact_covers();
        }
        match keeper.found {
            None => None,
            Some(rows) => {
                proof {
                    let log = keeper.log@;
                    if log.len() > 1 {
                        assert(before.answers(log[0].solution, log[0].verdict));
                        assert(log[0].verdict is Continue);
                    }
                    assert(as_rows(rows@) == inst.solutions()[0]);
                    assert(inst.is_exact_cover(inst.solutions()[0].to_set()));
                    assert forall|k: int| 0 <= k < rows@.len() implies rows@[k]
                        < self.choices@.len() by {
                        assert(as_rows(rows@)[k] == rows@[k]);
                        assert(as_rows(rows@).to_set().contains(as_rows(rows@)[k]));
                    }
                }
                let mut solution: Vec<Choice> = Vec::new();
                let mut i: usize = 0;
                while i < rows.len()
                    invariant
                        i <= rows@.len(),
                        forall|k: int| 0 <= k < rows@.len() ==> rows@[k] < self.choices@.len(),
                        solution@ == decoded(self.choices@, as_rows(rows@).take(i as int)),
                    decreases rows@.len() - i,
                {
                    solution.push(self.choices[rows[i]]);
                    proof {
                        assert(as_rows(rows@).take(i + 1) =~= as_rows(rows@).take(i as int).push(
                            rows@[i as int] as int,
                        ));
                        assert(solution@ =~= decoded(self.choices@, as_rows(rows@).take(i + 1)));
                    }
                    i += 1;
                }
                proof {
                    assert(as_rows(rows@).take(i as int) =~= as_rows(rows@));
                }
                Some(solution)
            },
        }
    }

    /// How many solutions the Sudoku has, counted up to two: a search that
    /// stops at the second solution.
    pub fn count_solutions(&self) -> (count: usize)
        requires
            self.wf(),
        ensures
            count == if self.solutions().len() <= 2 {
                self.solutions().len()
            } else {
                2
            },
    {
        let mut counter = Counter { found: 0, log: Ghost(Seq::empty()) };
        let ghost before = counter;
        let _ = self.run(&mut counter);
        proof {
            let log = counter.log@;
            assert(fresh(before, counter) =~= log);
            if log.len() > 2 {
                assert(log[1].verdict is Continue);
            }
            if log.len() == 1 {
                assert(log[0].verdict is Continue);
            }
        }
        counter.found
    }
}

} // verus!
