//! What it is to complete a board, and that the solutions of a Sudoku are
//! the completions of its board.

use crate::arrange::{is_order, lemma_order, product_of};
use crate::sudoku::{
    decoded, group, is_open, is_unmet, lemma_every_in_range, lemma_every_len,
    lemma_open_cell_is_left, met, occupied, of_kind, pairs_below, placed, square_of, Choice,
    Constraint, Sudoku, MAX_ORDER,
};
use vstd::prelude::*;

verus! {

/// The placement lies on a board of order `n`, and names the box that its
/// cell lies in.
pub open spec fn on_board(n: int, choice: Choice) -> bool {
    &&& choice.row < n * n
    &&& choice.column < n * n
    &&& choice.number < n * n
    &&& choice.square == square_of(n, choice.row as int, choice.column as int)
}

/// The constraint is one of a board of order `n`.
pub open spec fn in_range(n: int, constraint: Constraint) -> bool {
    match constraint {
        Constraint::RowColumn { row, column } => row < n * n && column < n * n,
        Constraint::RowNumber { row, number } => row < n * n && number < n * n,
        Constraint::ColumnNumber { column, number } => column < n * n && number < n * n,
        Constraint::SquareNumber { square, number } => square < n * n && number < n * n,
    }
}

/// Some placement of `placed` satisfies `constraint`.
pub open spec fn met_in(placed: Set<Choice>, constraint: Constraint) -> bool {
    exists|choice: Choice| placed.contains(choice) && #[trigger] choice.meets(constraint)
}

/// The placements of `placed` complete the board of order `n` with the
/// givens `givens`: each lies on the board in a cell that no given is in,
/// and every constraint of the board that no given satisfies is satisfied
/// by exactly one of them.
pub open spec fn is_completion(n: int, givens: Seq<Choice>, placed: Set<Choice>) -> bool {
    &&& forall|choice: Choice|
        placed.contains(choice) ==> on_board(n, choice) && !occupied(givens, choice)
    &&& forall|constraint: Constraint|
        in_range(n, constraint) && !met(givens, constraint) ==> #[trigger] met_in(
            placed,
            constraint,
        )
    &&& forall|constraint: Constraint, a: Choice, b: Choice|
        in_range(n, constraint) && !met(givens, constraint) && placed.contains(a)
            && placed.contains(b) && #[trigger] a.meets(constraint) && #[trigger] b.meets(
            constraint,
        ) ==> a == b
}

/// The Sudoku is the board of order `n` with the givens `givens`: its
/// placements are those of the board, in some order, whose cell is empty,
/// and its constraints those of the board that no given satisfies.
pub open spec fn poses(sudoku: Sudoku, n: int, givens: Seq<Choice>) -> bool {
    &&& exists|candidates: Seq<Choice>|
        Choice::is_every(n, candidates) && sudoku.choices() == #[trigger] candidates.filter(
            is_open(givens),
        )
    &&& sudoku.constraints() == Constraint::every(n).filter(is_unmet(givens))
}

/// The box of a cell of the board is a box of the board.
pub proof fn lemma_square_of(n: int, row: int, column: int)
    requires
        0 < n <= MAX_ORDER,
        0 <= row < n * n,
        0 <= column < n * n,
    ensures
        0 <= square_of(n, row, column) < n * n,
{
    let side = n * n;
    let index = row * side + column;
    assert(0 <= index < side * side) by (nonlinear_arith)
        requires
            index == row * side + column,
            0 <= row < side,
            0 <= column < side,
    ;
    assert(0 <= (index % side) / n < n) by (nonlinear_arith)
        requires
            side == n * n,
            n > 0,
            0 <= index,
    ;
    assert(0 <= index / (n * n * n) < n) by (nonlinear_arith)
        requires
            0 <= index < side * side,
            side == n * n,
            n > 0,
    ;
    assert(n * (index / (n * n * n)) <= n * (n - 1)) by (nonlinear_arith)
        requires
            0 <= index / (n * n * n) < n,
            n > 0,
    ;
    assert(n * (n - 1) + n == n * n) by (nonlinear_arith);
}

/// Where three numbers below `side` stand when they are counted out.
pub proof fn lemma_triple_index(side: int, a: int, b: int, g: int)
    requires
        0 <= a < side,
        0 <= b < side,
        0 <= g < side,
    ensures
        ({
            let i = (a * side + b) * side + g;
            &&& 0 <= i < side * side * side
            &&& i % side == g
            &&& i / side == a * side + b
            &&& (i / side) / side == a
            &&& (i / side) % side == b
        }),
{
    let p = a * side + b;
    let i = p * side + g;
    assert(0 <= p < side * side && p / side == a && p % side == b) by (nonlinear_arith)
        requires
            p == a * side + b,
            0 <= a < side,
            0 <= b < side,
    ;
    assert(0 <= i < side * side * side && i / side == p && i % side == g) by (nonlinear_arith)
        requires
            i == p * side + g,
            0 <= p < side * side,
            0 <= g < side,
    ;
}

/// A number below `side` cubed is three numbers below `side`, counted out.
pub proof fn lemma_index_triple(side: int, i: int)
    requires
        0 <= i < side * side * side,
    ensures
        0 < side,
        0 <= (i / side) / side < side,
        0 <= (i / side) % side < side,
        0 <= i % side < side,
        0 <= i / side < side * side,
        i == (((i / side) / side) * side + (i / side) % side) * side + i % side,
{
    assert(0 < side && 0 <= i / side < side * side && 0 <= i % side < side && i == (i / side)
        * side + i % side) by (nonlinear_arith)
        requires
            0 <= i < side * side * side,
    ;
    let p = i / side;
    assert(0 <= p / side < side && 0 <= p % side < side && p == (p / side) * side + p % side)
        by (nonlinear_arith)
        requires
            0 <= p < side * side,
            0 < side,
    ;
}

/// Every placement of the board is among the candidates once, and nothing
/// else is.
pub proof fn lemma_candidates(n: int, candidates: Seq<Choice>)
    requires
        0 <= n <= MAX_ORDER,
        Choice::is_every(n, candidates),
    ensures
        candidates.no_duplicates(),
        forall|choice: Choice| candidates.contains(choice) <==> on_board(n, choice),
{
    let side = n * n;
    assert(0 <= side <= 1600) by (nonlinear_arith)
        requires
            0 <= n <= 40,
            side == n * n,
    ;
    let (rows, columns, numbers) = choose|rows: Seq<u32>, columns: Seq<u32>, numbers: Seq<u32>|
        is_order(rows, (n * n) as nat) && is_order(columns, (n * n) as nat) && is_order(
            numbers,
            (n * n) as nat,
        ) && candidates == #[trigger] Choice::product_of(n, rows, columns, numbers);
    lemma_order(rows, side as nat);
    lemma_order(columns, side as nat);
    lemma_order(numbers, side as nat);
    lemma_every_in_range(n, candidates);
    let cells = product_of(rows, columns);
    let triples = product_of(cells, numbers);
    assert forall|i: int| 0 <= i < candidates.len() implies (#[trigger] candidates[i]) == placed(
        n,
        rows[(i / side) / side],
        columns[(i / side) % side],
        numbers[i % side],
    ) by {
        lemma_index_triple(side, i);
        assert(triples[i] == (cells[i / side], numbers[i % side]));
        assert(cells[i / side] == (rows[(i / side) / side], columns[(i / side) % side]));
    }
    assert forall|choice: Choice| candidates.contains(choice) <==> on_board(n, choice) by {
        if candidates.contains(choice) {
            let i = choose|i: int| 0 <= i < candidates.len() && candidates[i] == choice;
            assert(candidates[i].row < side);
            assert(n > 0) by (nonlinear_arith)
                requires
                    0 < n * n,
                    0 <= n,
            ;
            lemma_square_of(n, choice.row as int, choice.column as int);
        }
        if on_board(n, choice) {
            assert(n > 0) by (nonlinear_arith)
                requires
                    0 < n * n,
                    0 <= n,
            ;
            lemma_square_of(n, choice.row as int, choice.column as int);
            assert(rows.contains(choice.row));
            assert(columns.contains(choice.column));
            assert(numbers.contains(choice.number));
            let a = choose|a: int| 0 <= a < rows.len() && rows[a] == choice.row;
            let b = choose|b: int| 0 <= b < columns.len() && columns[b] == choice.column;
            let g = choose|g: int| 0 <= g < numbers.len() && numbers[g] == choice.number;
            lemma_triple_index(side, a, b, g);
            let i = (a * side + b) * side + g;
            assert(candidates[i] == choice);
        }
    }
    assert forall|i: int, j: int| 0 <= i < j < candidates.len() implies candidates[i]
        != candidates[j] by {
        lemma_index_triple(side, i);
        lemma_index_triple(side, j);
        if candidates[i] == candidates[j] {
            assert(rows[(i / side) / side] == rows[(j / side) / side]);
            assert(columns[(i / side) % side] == columns[(j / side) % side]);
            assert(numbers[i % side] == numbers[j % side]);
        }
    }
}

/// The constraints of a board are those within its range.
pub proof fn lemma_constraints(n: int)
    requires
        0 <= n <= MAX_ORDER,
    ensures
        forall|constraint: Constraint|
            Constraint::every(n).contains(constraint) <==> in_range(n, constraint),
{
    let side = n * n;
    assert(0 <= side <= 1600 && side * side <= 2560000) by (nonlinear_arith)
        requires
            0 <= n <= 40,
            side == n * n,
    ;
    let pairs = pairs_below(side);
    let every = Constraint::every(n);
    let q = side * side;
    assert(pairs.len() == q);
    assert forall|kind: int, p: int| 0 <= kind < 4 && 0 <= p < q implies #[trigger] every[kind * q
        + p] == of_kind(kind, ((p / side) as u32, (p % side) as u32)) && 0 <= p / side < side
        && 0 <= p % side < side by {
        assert(0 < side && 0 <= p / side < side && 0 <= p % side < side) by (nonlinear_arith)
            requires
                0 <= p < side * side,
                0 <= side,
        ;
        assert(pairs[p] == ((p / side) as u32, (p % side) as u32));
        assert(group(kind, pairs)[p] == of_kind(kind, pairs[p]));
        assert(kind * q == if kind == 0 {
            0
        } else if kind == 1 {
            q
        } else if kind == 2 {
            q + q
        } else {
            q + q + q
        }) by (nonlinear_arith)
            requires
                0 <= kind < 4,
        ;
    }
    assert forall|constraint: Constraint| every.contains(constraint) <==> in_range(
        n,
        constraint,
    ) by {
        if every.contains(constraint) {
            let i = choose|i: int| 0 <= i < every.len() && every[i] == constraint;
            let kind = if i < q {
                0int
            } else if i < q + q {
                1int
            } else if i < q + q + q {
                2int
            } else {
                3int
            };
            let p = i - if kind == 0 {
                0
            } else if kind == 1 {
                q
            } else if kind == 2 {
                q + q
            } else {
                q + q + q
            };
            assert(kind * q + p == i) by (nonlinear_arith)
                requires
                    0 <= kind < 4,
                    p == i - if kind == 0 {
                        0
                    } else if kind == 1 {
                        q
                    } else if kind == 2 {
                        q + q
                    } else {
                        q + q + q
                    },
            ;
            assert(every[kind * q + p] == constraint);
        }
        if in_range(n, constraint) {
            let (kind, a, b) = match constraint {
                Constraint::RowColumn { row, column } => (0int, row, column),
                Constraint::RowNumber { row, number } => (1int, row, number),
                Constraint::ColumnNumber { column, number } => (2int, column, number),
                Constraint::SquareNumber { square, number } => (3int, square, number),
            };
            let p = a * side + b;
            assert(0 <= p < side * side && p / side == a && p % side == b) by (nonlinear_arith)
                requires
                    p == a * side + b,
                    0 <= a < side,
                    0 <= b < side,
            ;
            assert(0 <= kind * q + p < 4 * q) by (nonlinear_arith)
                requires
                    0 <= kind < 4,
                    0 <= p < q,
            ;
            assert(every[kind * q + p] == constraint);
        }
    }
}

/// What is left of a list without repeats has no repeats.
pub proof fn lemma_filter_no_duplicates<A>(list: Seq<A>, keep: spec_fn(A) -> bool)
    requires
        list.no_duplicates(),
    ensures
        list.filter(keep).no_duplicates(),
        forall|item: A|
            #![trigger list.filter(keep).contains(item)]
            #![trigger list.contains(item)]
            list.filter(keep).contains(item) <==> list.contains(item) && keep(item),
    decreases list.len(),
{
    reveal(Seq::filter);
    let kept = list.filter(keep);
    if list.len() > 0 {
        let front = list.drop_last();
        let last = list.last();
        lemma_filter_no_duplicates(front, keep);
        let before = front.filter(keep);
        assert(!front.contains(last)) by {
            if front.contains(last) {
                let i = choose|i: int| 0 <= i < front.len() && front[i] == last;
                assert(list[i] == list[list.len() - 1]);
            }
        }
        assert forall|item: A| kept.contains(item) <==> list.contains(item) && keep(item) by {
            if kept.contains(item) {
                let i = choose|i: int| 0 <= i < kept.len() && kept[i] == item;
                if i < before.len() {
                    assert(before[i] == item);
                    assert(before.contains(item));
                    assert(front.contains(item));
                    let j = choose|j: int| 0 <= j < front.len() && front[j] == item;
                    assert(list[j] == item);
                } else {
                    assert(list[list.len() - 1] == item);
                }
            }
            if list.contains(item) && keep(item) {
                let j = choose|j: int| 0 <= j < list.len() && list[j] == item;
                if j < front.len() {
                    assert(front[j] == item);
                    assert(before.contains(item));
                    let i = choose|i: int| 0 <= i < before.len() && before[i] == item;
                    assert(kept[i] == item);
                } else {
                    assert(kept[before.len() as int] == item);
                }
            }
        }
        if keep(last) {
            assert forall|i: int, j: int| 0 <= i < j < kept.len() implies kept[i] != kept[j] by {
                if j < before.len() {
                    assert(before[i] != before[j]);
                } else {
                    assert(before[i] == kept[i]);
                    assert(before.contains(kept[i]));
                }
            }
        }
    }
}

/// What is left of a list holds what the list holds and is to be kept.
pub proof fn lemma_filter_holds<A>(list: Seq<A>, keep: spec_fn(A) -> bool)
    ensures
        forall|item: A|
            #![trigger list.filter(keep).contains(item)]
            #![trigger list.contains(item)]
            list.filter(keep).contains(item) <==> list.contains(item) && keep(item),
    decreases list.len(),
{
    reveal(Seq::filter);
    let kept = list.filter(keep);
    if list.len() > 0 {
        let front = list.drop_last();
        let last = list.last();
        lemma_filter_holds(front, keep);
        let before = front.filter(keep);
        assert forall|item: A| kept.contains(item) <==> list.contains(item) && keep(item) by {
            if kept.contains(item) {
                let i = choose|i: int| 0 <= i < kept.len() && kept[i] == item;
                if i < before.len() {
                    assert(before[i] == item);
                    assert(before.contains(item));
                    assert(front.contains(item));
                    let j = choose|j: int| 0 <= j < front.len() && front[j] == item;
                    assert(list[j] == item);
                } else {
                    assert(list[list.len() - 1] == item);
                }
            }
            if list.contains(item) && keep(item) {
                let j = choose|j: int| 0 <= j < list.len() && list[j] == item;
                if j < front.len() {
                    assert(front[j] == item);
                    assert(before.contains(item));
                    let i = choose|i: int| 0 <= i < before.len() && before[i] == item;
                    assert(kept[i] == item);
                } else {
                    assert(kept[before.len() as int] == item);
                }
            }
        }
    }
}

/// What the placements and the constraints of a posed Sudoku are.
pub proof fn lemma_posed(sudoku: Sudoku, n: int, givens: Seq<Choice>)
    requires
        0 <= n <= MAX_ORDER,
        poses(sudoku, n, givens),
    ensures
        sudoku.wf(),
        sudoku.choices().no_duplicates(),
        forall|choice: Choice|
            sudoku.choices().contains(choice) <==> on_board(n, choice) && !occupied(
                givens,
                choice,
            ),
        forall|constraint: Constraint|
            sudoku.constraints().contains(constraint) <==> in_range(n, constraint) && !met(
                givens,
                constraint,
            ),
{
    let candidates = choose|candidates: Seq<Choice>|
        Choice::is_every(n, candidates) && sudoku.choices() == #[trigger] candidates.filter(
            is_open(givens),
        );
    lemma_candidates(n, candidates);
    lemma_every_in_range(n, candidates);
    lemma_constraints(n);
    lemma_every_len(n);
    lemma_filter_no_duplicates(candidates, is_open(givens));
    lemma_filter_holds(Constraint::every(n), is_unmet(givens));
    lemma_open_cell_is_left(n, candidates, givens);
    candidates.lemma_filter_len(is_open(givens));
    Constraint::every(n).lemma_filter_len(is_unmet(givens));
}

/// The placements that stand in the rows of `rows`.
pub open spec fn placed_by(choices: Seq<Choice>, rows: Set<int>) -> Set<Choice> {
    Set::new(
        |choice: Choice|
            exists|r: int| 0 <= r < choices.len() && rows.contains(r) && #[trigger] choices[r]
                == choice,
    )
}

/// The rows in which the placements of `placed` stand.
pub open spec fn rows_of(choices: Seq<Choice>, placed: Set<Choice>) -> Set<int> {
    Set::new(|r: int| 0 <= r < choices.len() && placed.contains(choices[r]))
}

/// A solution as placements holds the placements that stand in its rows,
/// each once.
pub proof fn lemma_decoded(choices: Seq<Choice>, rows: Seq<int>)
    requires
        choices.no_duplicates(),
        rows.no_duplicates(),
        forall|k: int| 0 <= k < rows.len() ==> 0 <= #[trigger] rows[k] < choices.len(),
    ensures
        decoded(choices, rows).no_duplicates(),
        decoded(choices, rows).to_set() == placed_by(choices, rows.to_set()),
{
    let list = decoded(choices, rows);
    assert forall|i: int, j: int| 0 <= i < j < list.len() implies list[i] != list[j] by {
        assert(rows[i] != rows[j]);
    }
    assert forall|choice: Choice| list.to_set().contains(choice) <==> placed_by(
        choices,
        rows.to_set(),
    ).contains(choice) by {
        if list.contains(choice) {
            let k = choose|k: int| 0 <= k < list.len() && list[k] == choice;
            assert(rows.to_set().contains(rows[k]));
            assert(choices[rows[k]] == choice);
        }
        if placed_by(choices, rows.to_set()).contains(choice) {
            let r = choose|r: int|
                0 <= r < choices.len() && rows.to_set().contains(r) && #[trigger] choices[r]
                    == choice;
            let k = choose|k: int| 0 <= k < rows.len() && rows[k] == r;
            assert(list[k] == choice);
        }
    }
    assert(list.to_set() =~= placed_by(choices, rows.to_set()));
}

/// The placements in the rows of an exact cover complete the board.
pub proof fn lemma_cover_completes(sudoku: Sudoku, n: int, givens: Seq<Choice>, cover: Set<int>)
    requires
        0 <= n <= MAX_ORDER,
        poses(sudoku, n, givens),
        sudoku.instance().is_exact_cover(cover),
    ensures
        is_completion(n, givens, placed_by(sudoku.choices(), cover)),
{
    let choices = sudoku.choices();
    let constraints = sudoku.constraints();
    let inst = sudoku.instance();
    let placed = placed_by(choices, cover);
    lemma_posed(sudoku, n, givens);
    assert forall|choice: Choice| placed.contains(choice) implies on_board(n, choice)
        && !occupied(givens, choice) by {
        let r = choose|r: int|
            0 <= r < choices.len() && cover.contains(r) && #[trigger] choices[r] == choice;
        assert(choices.contains(choice));
    }
    assert forall|constraint: Constraint|
        in_range(n, constraint) && !met(givens, constraint) implies #[trigger] met_in(
        placed,
        constraint,
    ) by {
        assert(constraints.contains(constraint));
        let j = choose|j: int| 0 <= j < constraints.len() && constraints[j] == constraint;
        assert(inst.covered_by(cover, j));
        let r = choose|r: int| cover.contains(r) && #[trigger] inst.rows[r][j];
        assert(placed.contains(choices[r]) && choices[r].meets(constraint));
    }
    assert forall|constraint: Constraint, a: Choice, b: Choice|
        in_range(n, constraint) && !met(givens, constraint) && placed.contains(a)
            && placed.contains(b) && #[trigger] a.meets(constraint) && #[trigger] b.meets(
            constraint,
        ) implies a == b by {
        assert(constraints.contains(constraint));
        let j = choose|j: int| 0 <= j < constraints.len() && constraints[j] == constraint;
        let ra = choose|r: int|
            0 <= r < choices.len() && cover.contains(r) && #[trigger] choices[r] == a;
        let rb = choose|r: int|
            0 <= r < choices.len() && cover.contains(r) && #[trigger] choices[r] == b;
        assert(inst.rows[ra][j] && inst.rows[rb][j]);
    }
}

/// The rows of the placements that complete the board are an exact cover,
/// and the placements are those in these rows.
pub proof fn lemma_completion_covers(
    sudoku: Sudoku,
    n: int,
    givens: Seq<Choice>,
    placed: Set<Choice>,
)
    requires
        0 <= n <= MAX_ORDER,
        poses(sudoku, n, givens),
        is_completion(n, givens, placed),
    ensures
        sudoku.instance().is_exact_cover(rows_of(sudoku.choices(), placed)),
        placed_by(sudoku.choices(), rows_of(sudoku.choices(), placed)) == placed,
{
    let choices = sudoku.choices();
    let constraints = sudoku.constraints();
    let inst = sudoku.instance();
    let cover = rows_of(choices, placed);
    lemma_posed(sudoku, n, givens);
    assert forall|j: int| 0 <= j < inst.columns implies #[trigger] inst.covered_by(cover, j) by {
        let constraint = constraints[j];
        assert(constraints.contains(constraint));
        assert(met_in(placed, constraint));
        let choice = choose|choice: Choice|
            placed.contains(choice) && #[trigger] choice.meets(constraint);
        assert(choices.contains(choice));
        let r = choose|r: int| 0 <= r < choices.len() && choices[r] == choice;
        assert(cover.contains(r) && inst.rows[r][j]);
    }
    assert forall|j: int, r1: int, r2: int|
        0 <= j < inst.columns && cover.contains(r1) && cover.contains(r2)
            && #[trigger] inst.rows[r1][j] && #[trigger] inst.rows[r2][j] implies r1 == r2 by {
        let constraint = constraints[j];
        assert(constraints.contains(constraint));
        assert(choices[r1].meets(constraint) && choices[r2].meets(constraint));
        assert(choices[r1] == choices[r2]);
    }
    assert forall|choice: Choice| placed_by(choices, cover).contains(choice)
        <==> placed.contains(choice) by {
        if placed.contains(choice) {
            assert(choices.contains(choice));
            let r = choose|r: int| 0 <= r < choices.len() && choices[r] == choice;
            assert(cover.contains(r));
        }
    }
    assert(placed_by(choices, cover) =~= placed);
}

/// The solutions of a posed Sudoku are the completions of its board:
/// every solution completes the board and names no placement twice, every
/// completion is one of the solutions, and no two solutions hold the same
/// placements.
pub proof fn lemma_solutions_are_the_completions(sudoku: Sudoku, n: int, givens: Seq<Choice>)
    requires
        0 <= n <= MAX_ORDER,
        poses(sudoku, n, givens),
    ensures
        sudoku.wf(),
        forall|i: int|
            0 <= i < sudoku.solutions().len() ==> (#[trigger] sudoku.solutions()[i]).no_duplicates()
                && is_completion(n, givens, sudoku.solutions()[i].to_set()),
        forall|placed: Set<Choice>|
            is_completion(n, givens, placed) ==> exists|i: int|
                0 <= i < sudoku.solutions().len() && (#[trigger] sudoku.solutions()[i]).to_set()
                    == placed,
        forall|i: int, j: int|
            0 <= i < j < sudoku.solutions().len() ==> (#[trigger] sudoku.solutions()[i]).to_set()
                != (#[trigger] sudoku.solutions()[j]).to_set(),
{
    let choices = sudoku.choices();
    let inst = sudoku.instance();
    let found = inst.solutions();
    let solutions = sudoku.solutions();
    lemma_posed(sudoku, n, givens);
    inst.lemma_solutions_are_the_exact_covers();
    assert forall|i: int| 0 <= i < found.len() implies (forall|k: int|
        0 <= k < found[i].len() ==> 0 <= #[trigger] found[i][k] < choices.len())
        && solutions[i].no_duplicates() && solutions[i].to_set() == placed_by(
        choices,
        found[i].to_set(),
    ) by {
        assert(inst.is_exact_cover(found[i].to_set()));
        assert forall|k: int| 0 <= k < found[i].len() implies 0 <= #[trigger] found[i][k]
            < choices.len() by {
            assert(found[i].to_set().contains(found[i][k]));
        }
        lemma_decoded(choices, found[i]);
    }
    assert forall|i: int| 0 <= i < solutions.len() implies (#[trigger] solutions[i]).no_duplicates()
        && is_completion(n, givens, solutions[i].to_set()) by {
        lemma_cover_completes(sudoku, n, givens, found[i].to_set());
    }
    assert forall|placed: Set<Choice>| is_completion(n, givens, placed) implies exists|i: int|
        0 <= i < solutions.len() && (#[trigger] solutions[i]).to_set() == placed by {
        lemma_completion_covers(sudoku, n, givens, placed);
        let cover = rows_of(choices, placed);
        let i = choose|i: int| 0 <= i < found.len() && (#[trigger] found[i]).to_set() == cover;
        assert(solutions[i].to_set() == placed);
    }
    assert forall|i: int, j: int| 0 <= i < j < solutions.len() implies (#[trigger] solutions[i]).to_set()
        != (#[trigger] solutions[j]).to_set() by {
        let a = found[i].to_set();
        let b = found[j].to_set();
        assert(inst.is_exact_cover(a) && inst.is_exact_cover(b));
        if placed_by(choices, a) == placed_by(choices, b) {
            assert forall|r: int| a.contains(r) <==> b.contains(r) by {
                if a.contains(r) {
                    assert(placed_by(choices, a).contains(choices[r]));
                    let q = choose|q: int|
                        0 <= q < choices.len() && b.contains(q) && #[trigger] choices[q]
                            == choices[r];
                    assert(q == r);
                }
                if b.contains(r) {
                    assert(placed_by(choices, b).contains(choices[r]));
                    let q = choose|q: int|
                        0 <= q < choices.len() && a.contains(q) && #[trigger] choices[q]
                            == choices[r];
                    assert(q == r);
                }
            }
            assert(a =~= b);
        }
    }
}

/// The board of order `n` with the givens `givens` has at most one
/// completion.
pub open spec fn has_one_completion_at_most(n: int, givens: Seq<Choice>) -> bool {
    forall|a: Set<Choice>, b: Set<Choice>|
        is_completion(n, givens, a) && is_completion(n, givens, b) ==> a == b
}

/// A posed Sudoku has at most one solution exactly where its board has at
/// most one completion, whatever the order of its placements.
pub proof fn lemma_one_solution_at_most(sudoku: Sudoku, n: int, givens: Seq<Choice>)
    requires
        0 <= n <= MAX_ORDER,
        poses(sudoku, n, givens),
    ensures
        sudoku.solutions().len() <= 1 <==> has_one_completion_at_most(n, givens),
{
    let solutions = sudoku.solutions();
    lemma_solutions_are_the_completions(sudoku, n, givens);
    if solutions.len() <= 1 {
        assert forall|a: Set<Choice>, b: Set<Choice>|
            is_completion(n, givens, a) && is_completion(n, givens, b) implies a == b by {
            let i = choose|i: int| 0 <= i < solutions.len() && (#[trigger] solutions[i]).to_set() == a;
            let j = choose|j: int| 0 <= j < solutions.len() && (#[trigger] solutions[j]).to_set() == b;
        }
    } else {
        assert(is_completion(n, givens, solutions[0].to_set()));
        assert(is_completion(n, givens, solutions[1].to_set()));
        assert(solutions[0].to_set() != solutions[1].to_set());
    }
}

/// A board that is full has no cell left, so nothing but the empty
/// completion.
pub proof fn lemma_full_board(n: int, filled: Seq<Choice>)
    requires
        is_completion(n, Seq::<Choice>::empty(), filled.to_set()),
    ensures
        has_one_completion_at_most(n, filled),
        is_completion(n, filled, Set::<Choice>::empty()),
{
    let none = Seq::<Choice>::empty();
    let grid = filled.to_set();
    assert forall|choice: Choice| on_board(n, choice) implies occupied(filled, choice) by {
        let cell = Constraint::RowColumn { row: choice.row, column: choice.column };
        assert(in_range(n, cell) && !met(none, cell));
        assert(met_in(grid, cell));
        let given = choose|given: Choice| grid.contains(given) && #[trigger] given.meets(cell);
        let i = choose|i: int| 0 <= i < filled.len() && filled[i] == given;
        assert(filled[i].row == choice.row && filled[i].column == choice.column);
    }
    assert forall|a: Set<Choice>, b: Set<Choice>|
        is_completion(n, filled, a) && is_completion(n, filled, b) implies a == b by {
        assert forall|choice: Choice| a.contains(choice) <==> b.contains(choice) by {
            if a.contains(choice) {
                assert(on_board(n, choice));
            }
            if b.contains(choice) {
                assert(on_board(n, choice));
            }
        }
        assert(a =~= b);
    }
    assert forall|constraint: Constraint|
        in_range(n, constraint) && !met(filled, constraint) implies #[trigger] met_in(
        Set::<Choice>::empty(),
        constraint,
    ) by {
        assert(!met(none, constraint));
        assert(met_in(grid, constraint));
        let given = choose|given: Choice|
            grid.contains(given) && #[trigger] given.meets(constraint);
        let i = choose|i: int| 0 <= i < filled.len() && filled[i] == given;
        assert(filled[i].meets(constraint));
    }
}

/// A solved board from which one placement is taken has one solution: the
/// placement that was taken.
pub proof fn lemma_one_clue_removed(
    sudoku: Sudoku,
    n: int,
    filled: Seq<Choice>,
    gone: Choice,
    givens: Seq<Choice>,
)
    requires
        0 <= n <= MAX_ORDER,
        is_completion(n, Seq::<Choice>::empty(), filled.to_set()),
        filled.contains(gone),
        forall|choice: Choice|
            givens.contains(choice) <==> filled.contains(choice) && choice != gone,
        poses(sudoku, n, givens),
    ensures
        sudoku.solutions().len() == 1,
        sudoku.solutions()[0] == seq![gone],
{
    let none = Seq::<Choice>::empty();
    let grid = filled.to_set();
    let only = Set::<Choice>::empty().insert(gone);
    assert(grid.contains(gone));
    // a constraint is left exactly where the placement that is gone satisfies it
    assert forall|constraint: Constraint| in_range(n, constraint) implies (met(givens, constraint)
        <==> !gone.meets(constraint)) by {
        assert(!met(none, constraint));
        assert(met_in(grid, constraint));
        let member = choose|member: Choice|
            grid.contains(member) && #[trigger] member.meets(constraint);
        if met(givens, constraint) {
            let k = choose|k: int| 0 <= k < givens.len() && (#[trigger] givens[k]).meets(constraint);
            assert(givens.contains(givens[k]));
            if gone.meets(constraint) {
                assert(givens[k] == gone);
            }
        } else {
            if member != gone {
                assert(givens.contains(member));
                let k = choose|k: int| 0 <= k < givens.len() && givens[k] == member;
                assert(givens[k].meets(constraint));
            }
        }
    }
    // a cell is empty exactly where it is the cell of the placement that is gone
    assert forall|choice: Choice| on_board(n, choice) implies (occupied(givens, choice) <==> !(
    choice.row == gone.row && choice.column == gone.column)) by {
        let cell = Constraint::RowColumn { row: choice.row, column: choice.column };
        assert(in_range(n, cell));
        if occupied(givens, choice) {
            let k = choose|k: int|
                0 <= k < givens.len() && (#[trigger] givens[k]).row == choice.row
                    && givens[k].column == choice.column;
            assert(givens[k].meets(cell));
        } else {
            if !gone.meets(cell) {
                assert(met(givens, cell));
                let k = choose|k: int| 0 <= k < givens.len() && (#[trigger] givens[k]).meets(cell);
                assert(givens[k].row == choice.row && givens[k].column == choice.column);
            }
        }
    }
    assert(on_board(n, gone));
    assert(is_completion(n, givens, only)) by {
        assert forall|constraint: Constraint|
            in_range(n, constraint) && !met(givens, constraint) implies #[trigger] met_in(
            only,
            constraint,
        ) by {
            assert(only.contains(gone) && gone.meets(constraint));
        }
    }
    assert forall|placed: Set<Choice>| is_completion(n, givens, placed) implies placed == only by {
        let number = Constraint::RowNumber { row: gone.row, number: gone.number };
        let cell = Constraint::RowColumn { row: gone.row, column: gone.column };
        assert(in_range(n, number) && gone.meets(number));
        assert(in_range(n, cell) && gone.meets(cell));
        assert(met_in(placed, number));
        let found = choose|found: Choice| placed.contains(found) && #[trigger] found.meets(number);
        assert(on_board(n, found) && !occupied(givens, found));
        assert(found == gone);
        assert forall|choice: Choice| placed.contains(choice) <==> only.contains(choice) by {
            if placed.contains(choice) {
                assert(on_board(n, choice) && !occupied(givens, choice));
                assert(choice.meets(cell));
            }
        }
        assert(placed =~= only);
    }
    lemma_solutions_are_the_completions(sudoku, n, givens);
    let solutions = sudoku.solutions();
    let k = choose|k: int| 0 <= k < solutions.len() && (#[trigger] solutions[k]).to_set() == only;
    assert(solutions.len() == 1) by {
        if solutions.len() > 1 {
            assert(is_completion(n, givens, solutions[0].to_set()));
            assert(is_completion(n, givens, solutions[1].to_set()));
        }
    }
    let one = solutions[0];
    assert(one.to_set() == only);
    assert(one =~= seq![gone]) by {
        assert(one.len() >= 1) by {
            assert(one.to_set().contains(gone));
            assert(one.contains(gone));
        }
        assert(one.to_set().contains(one[0]));
        if one.len() > 1 {
            assert(one.to_set().contains(one[1]));
            assert(one[0] == one[1]);
        }
    }
}

} // verus!
