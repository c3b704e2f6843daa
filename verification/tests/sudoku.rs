use sudoku_dlx::exact_cover::SolvingState;
use sudoku_dlx::generator::{generate, has_one_solution_at_most, solved_board, without};
use sudoku_dlx::sudoku::{Choice, Constraint, Sudoku};

fn grid_of(n: u32, placements: &[Choice]) -> Vec<Vec<Option<u32>>> {
    let side = (n * n) as usize;
    let mut grid = vec![vec![None; side]; side];
    for p in placements {
        assert!(grid[p.row as usize][p.column as usize].is_none());
        grid[p.row as usize][p.column as usize] = Some(p.number);
    }
    grid
}

fn is_valid_full(n: u32, placements: &[Choice]) -> bool {
    let side = (n * n) as usize;
    if placements.len() != side * side {
        return false;
    }
    let grid = grid_of(n, placements);
    for a in 0..side {
        let mut row = vec![false; side];
        let mut column = vec![false; side];
        let mut square = vec![false; side];
        for b in 0..side {
            let r = match grid[a][b] {
                Some(v) => v as usize,
                None => return false,
            };
            let c = match grid[b][a] {
                Some(v) => v as usize,
                None => return false,
            };
            let n = n as usize;
            let s = match grid[(a / n) * n + b / n][(a % n) * n + b % n] {
                Some(v) => v as usize,
                None => return false,
            };
            if row[r] || column[c] || square[s] {
                return false;
            }
            row[r] = true;
            column[c] = true;
            square[s] = true;
        }
    }
    true
}

#[test]
fn first_solution_of_the_empty_small_board_is_a_valid_grid() {
    let sudoku = Sudoku::new(2, vec![]);
    let mut first: Vec<Choice> = vec![];
    sudoku.solve(|solution: Vec<Choice>| {
        first = solution;
        SolvingState::Abort
    });
    assert_eq!(first.len(), 16);
    assert!(is_valid_full(2, &first));
}

#[test]
fn the_empty_small_board_has_several_solutions() {
    let sudoku = Sudoku::new(2, vec![]);
    let mut count = 0;
    sudoku.solve(|_solution: Vec<Choice>| {
        count += 1;
        if count <= 1 {
            SolvingState::Continue
        } else {
            SolvingState::Abort
        }
    });
    assert_eq!(count, 2);
    assert_eq!(sudoku.count_solutions(), 2);
}

#[test]
fn the_empty_small_board_has_288_solutions() {
    let sudoku = Sudoku::new(2, vec![]);
    let mut count = 0;
    sudoku.solve(|solution: Vec<Choice>| {
        assert!(is_valid_full(2, &solution));
        count += 1;
        SolvingState::Continue
    });
    assert_eq!(count, 288);
}

#[test]
fn one_clue_removed_leaves_one_solution() {
    let filled = solved_board(3);
    assert!(is_valid_full(3, &filled));
    for i in 0..filled.len() {
        let removed = vec![filled[i]];
        let board = without(&filled, &removed);
        assert_eq!(board.len(), 80);
        let sudoku = Sudoku::new(3, board);
        let mut found: Vec<Vec<Choice>> = vec![];
        sudoku.solve(|solution: Vec<Choice>| {
            found.push(solution);
            SolvingState::Continue
        });
        assert_eq!(found, vec![vec![filled[i]]]);
        assert_eq!(sudoku.count_solutions(), 1);
    }
}

#[test]
fn a_pass_over_half_a_board_leaves_one_solution() {
    let filled = solved_board(3);
    assert!(is_valid_full(3, &filled));
    let mut removed: Vec<Choice> = vec![];
    for choice in filled.iter().take(45) {
        removed.push(*choice);
        if !has_one_solution_at_most(3, without(&filled, &removed)) {
            removed.pop();
        }
    }
    assert!(removed.len() >= 1);
    let givens = without(&filled, &removed);
    assert_eq!(givens.len() + removed.len(), 81);
    let sudoku = Sudoku::new(3, givens.clone());
    let mut count = 0;
    let mut rest: Vec<Choice> = vec![];
    sudoku.solve(|solution: Vec<Choice>| {
        count += 1;
        rest = solution;
        if count <= 1 {
            SolvingState::Continue
        } else {
            SolvingState::Abort
        }
    });
    assert_eq!(count, 1);
    let mut whole = givens.clone();
    whole.extend(rest);
    assert!(is_valid_full(3, &whole));
    for placement in whole.iter() {
        assert!(filled.contains(placement));
    }
}

#[test]
fn the_small_puzzle_is_made_in_one_pass() {
    let puzzle = generate(2);
    assert!(is_valid_full(2, &puzzle.filled));
    assert!(puzzle.givens.len() < 16);
    // the same pass, step by step
    let mut removed: Vec<Choice> = vec![];
    for choice in puzzle.filled.iter() {
        removed.push(*choice);
        if Sudoku::new(2, without(&puzzle.filled, &removed)).count_solutions() > 1 {
            removed.pop();
        }
    }
    assert_eq!(puzzle.givens, without(&puzzle.filled, &removed));
    // what is left has one solution, and it is what was taken out
    let sudoku = Sudoku::new(2, puzzle.givens.clone());
    let mut found: Vec<Vec<Choice>> = vec![];
    sudoku.solve(|solution: Vec<Choice>| {
        found.push(solution);
        SolvingState::Continue
    });
    assert_eq!(found.len(), 1);
    let mut rest = found[0].clone();
    rest.sort_by_key(|c| (c.row, c.column));
    removed.sort_by_key(|c| (c.row, c.column));
    assert_eq!(rest, removed);
}

#[test]
fn a_small_puzzle_has_one_solution() {
    let puzzle = generate(2);
    assert!(is_valid_full(2, &puzzle.filled));
    assert_eq!(Sudoku::new(2, puzzle.givens.clone()).count_solutions(), 1);
    // no given can go that the pass has kept, once the others are out
    assert_eq!(puzzle.givens, without(&puzzle.filled, &without(&puzzle.filled, &puzzle.givens)));
}

#[test]
fn a_full_board_has_the_empty_solution() {
    let filled = solved_board(2);
    let sudoku = Sudoku::new(2, filled);
    assert_eq!(sudoku.choices.len(), 0);
    assert_eq!(sudoku.first_solution(), Some(vec![]));
    assert_eq!(sudoku.count_solutions(), 1);
}

#[test]
fn contradicting_givens_have_no_solution() {
    let a = Choice { row: 0, column: 0, square: 0, number: 1 };
    let b = Choice { row: 0, column: 1, square: 0, number: 1 };
    let sudoku = Sudoku::new(2, vec![a, b]);
    assert_eq!(sudoku.first_solution(), None);
    assert_eq!(sudoku.count_solutions(), 0);
    assert!(has_one_solution_at_most(2, vec![a, b]));
}

#[test]
fn constraints_of_the_small_board() {
    let all = Constraint::all(2);
    assert_eq!(all.len(), 64);
    assert_eq!(all[0], Constraint::RowColumn { row: 0, column: 0 });
    assert_eq!(all[5], Constraint::RowColumn { row: 1, column: 1 });
    assert_eq!(all[16], Constraint::RowNumber { row: 0, number: 0 });
    assert_eq!(all[35], Constraint::ColumnNumber { column: 0, number: 3 });
    assert_eq!(all[63], Constraint::SquareNumber { square: 3, number: 3 });
    assert_eq!(Constraint::all(0).len(), 0);
}

#[test]
fn placements_in_the_order_given() {
    let rows = vec![1, 0];
    let columns = vec![3, 2];
    let numbers = vec![0, 2];
    let choices = Choice::product(2, &rows, &columns, &numbers);
    assert_eq!(
        choices,
        vec![
            Choice { row: 1, column: 3, square: 1, number: 0 },
            Choice { row: 1, column: 3, square: 1, number: 2 },
            Choice { row: 1, column: 2, square: 1, number: 0 },
            Choice { row: 1, column: 2, square: 1, number: 2 },
            Choice { row: 0, column: 3, square: 1, number: 0 },
            Choice { row: 0, column: 3, square: 1, number: 2 },
            Choice { row: 0, column: 2, square: 1, number: 0 },
            Choice { row: 0, column: 2, square: 1, number: 2 },
        ]
    );
}

#[test]
fn boxes_of_the_board() {
    let rows: Vec<u32> = (0..9).collect();
    let one = vec![0];
    let choices = Choice::product(3, &rows, &rows, &one);
    for c in choices.iter() {
        assert_eq!(c.square, (c.row / 3) * 3 + c.column / 3);
    }
    assert_eq!(choices[80].square, 8);
    assert_eq!(choices[31], Choice { row: 3, column: 4, square: 4, number: 0 });
}

#[test]
fn all_placements_are_there_once() {
    let choices = Choice::all(2);
    assert_eq!(choices.len(), 64);
    for row in 0..4 {
        for column in 0..4 {
            for number in 0..4 {
                let square = (row / 2) * 2 + column / 2;
                let wanted = Choice { row, column, square, number };
                assert_eq!(choices.iter().filter(|c| **c == wanted).count(), 1);
            }
        }
    }
    // within a cell the numbers come in one order, within a row the columns
    let numbers: Vec<u32> = choices[0..4].iter().map(|c| c.number).collect();
    for cell in choices.chunks(4) {
        let these: Vec<u32> = cell.iter().map(|c| c.number).collect();
        assert_eq!(these, numbers);
        assert!(cell.iter().all(|c| c.row == cell[0].row && c.column == cell[0].column));
    }
}

#[test]
fn what_a_placement_satisfies() {
    let c = Choice { row: 1, column: 2, square: 1, number: 3 };
    let four = Choice::satisfied_constraints(&c);
    assert_eq!(
        four,
        [
            Constraint::RowColumn { row: 1, column: 2 },
            Constraint::RowNumber { row: 1, number: 3 },
            Constraint::ColumnNumber { column: 2, number: 3 },
            Constraint::SquareNumber { square: 1, number: 3 },
        ]
    );
    assert!(c.satisfies(&Constraint::SquareNumber { square: 1, number: 3 }));
    assert!(!c.satisfies(&Constraint::SquareNumber { square: 0, number: 3 }));
    assert!(!c.satisfies(&Constraint::RowColumn { row: 2, column: 1 }));
}

#[test]
fn givens_take_out_their_cells_and_what_they_satisfy() {
    let given = Choice { row: 0, column: 0, square: 0, number: 1 };
    let sudoku = Sudoku::new(2, vec![given]);
    assert_eq!(sudoku.choices.len(), 60);
    assert!(sudoku.choices.iter().all(|c| !(c.row == 0 && c.column == 0)));
    let candidates: Vec<Choice> = Choice::product(2, &vec![0, 1], &vec![0, 1], &vec![1, 2]);
    let with = Sudoku::with_candidates(2, candidates, vec![given]);
    assert_eq!(
        with.choices,
        vec![
            Choice { row: 0, column: 1, square: 0, number: 1 },
            Choice { row: 0, column: 1, square: 0, number: 2 },
            Choice { row: 1, column: 0, square: 0, number: 1 },
            Choice { row: 1, column: 0, square: 0, number: 2 },
            Choice { row: 1, column: 1, square: 0, number: 1 },
            Choice { row: 1, column: 1, square: 0, number: 2 },
        ]
    );
}

#[test]
fn abort_on_the_first_solution_of_a_sudoku() {
    let sudoku = Sudoku::new(2, vec![]);
    let mut calls = 0;
    sudoku.solve(|_solution: Vec<Choice>| {
        calls += 1;
        SolvingState::Abort
    });
    assert_eq!(calls, 1);
}
