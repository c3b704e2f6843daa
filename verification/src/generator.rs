//! Making a puzzle: a solved board, and then as few givens of it as a
//! single pass finds that still leave only one solution.

use crate::board::{
    has_one_completion_at_most, is_completion, lemma_full_board, lemma_one_solution_at_most,
    lemma_solutions_are_the_completions, poses,
};
use crate::sudoku::{Choice, Sudoku, MAX_ORDER};
use vstd::prelude::*;

verus! {

/// A solved board and a puzzle made of it.
pub struct Puzzle {
    /// The placements of the solved board, in the order in which the search
    /// chose them.
    pub filled: Vec<Choice>,
    /// The placements that the puzzle gives, in the same order.
    pub givens: Vec<Choice>,
}

/// Holds of the placements that are not among `removed`.
pub open spec fn is_kept(removed: Seq<Choice>) -> spec_fn(Choice) -> bool {
    |choice: Choice| !removed.contains(choice)
}

/// The placements of `filled` that are not among `removed`, in order.
pub fn without(filled: &Vec<Choice>, removed: &Vec<Choice>) -> (left: Vec<Choice>)
    ensures
        left@ == filled@.filter(is_kept(removed@)),
{
    let mut left: Vec<Choice> = Vec::new();
    let mut i: usize = 0;
    while i < filled.len()
        invariant
            i <= filled@.len(),
            left@ == filled@.take(i as int).filter(is_kept(removed@)),
        decreases filled@.len() - i,
    {
        let choice = filled[i];
        let mut gone = false;
        let mut j: usize = 0;
        while j < removed.len()
            invariant
                j <= removed@.len(),
                gone <==> removed@.take(j as int).contains(choice),
            decreases removed@.len() - j,
        {
            let ghost was = removed@.take(j as int);
            let ghost now = removed@.take(j + 1);
            if removed[j] == choice {
                gone = true;
            }
            proof {
                if was.contains(choice) {
                    let w = choose|w: int| 0 <= w < was.len() && was[w] == choice;
                    assert(now[w] == choice);
                }
                if removed@[j as int] == choice {
                    assert(now[j as int] == choice);
                }
                if now.contains(choice) {
                    let w = choose|w: int| 0 <= w < now.len() && now[w] == choice;
                    if w < j {
                        assert(was[w] == choice);
                    }
                }
            }
            j += 1;
        }
        proof {
            assert(removed@.take(j as int) =~= removed@);
            reveal_with_fuel(Seq::filter, 2);
            assert(filled@.take(i + 1).drop_last() =~= filled@.take(i as int));
        }
        if !gone {
            left.push(choice);
        }
        i += 1;
    }
    proof {
        assert(filled@.take(i as int) =~= filled@);
    }
    left
}

/// `filled` is what a search of the empty board of order `n` finds first,
/// with the placements in one of the orders that chance may give them; or
/// it is empty, where there is nothing to find.
pub open spec fn is_solved_board(n: int, filled: Seq<Choice>) -> bool {
    exists|sudoku: Sudoku|
        #[trigger] poses(sudoku, n, Seq::<Choice>::empty()) && if sudoku.solutions().len() == 0 {
            filled == Seq::<Choice>::empty()
        } else {
            filled == sudoku.solutions()[0]
        }
}

/// The placements that a single pass takes out of a solved board when it
/// has looked at the first `k`: each in turn goes where the board without
/// it, and without those taken out before it, still has at most one
/// completion.
pub open spec fn taken_out(n: int, filled: Seq<Choice>, k: int) -> Seq<Choice>
    decreases k,
{
    if k <= 0 {
        Seq::empty()
    } else {
        let before = taken_out(n, filled, k - 1);
        let tried = before.push(filled[k - 1]);
        if has_one_completion_at_most(n, filled.filter(is_kept(tried))) {
            tried
        } else {
            before
        }
    }
}

/// A solved board completes the empty board, where the empty board can be
/// completed at all, and names no placement twice. Filled in as givens, it
/// leaves nothing open.
pub proof fn lemma_solved_board(n: int, filled: Seq<Choice>)
    requires
        0 <= n <= MAX_ORDER,
        is_solved_board(n, filled),
    ensures
        filled.no_duplicates(),
        is_completion(n, Seq::<Choice>::empty(), filled.to_set()) || (filled.len() == 0
            && forall|placed: Set<Choice>| !is_completion(n, Seq::<Choice>::empty(), placed)),
        has_one_completion_at_most(n, filled),
{
    let none = Seq::<Choice>::empty();
    let sudoku = choose|sudoku: Sudoku|
        #[trigger] poses(sudoku, n, none) && if sudoku.solutions().len() == 0 {
            filled == none
        } else {
            filled == sudoku.solutions()[0]
        };
    lemma_solutions_are_the_completions(sudoku, n, none);
    if sudoku.solutions().len() == 0 {
        assert forall|placed: Set<Choice>| !is_completion(n, none, placed) by {
            if is_completion(n, none, placed) {
                let i = choose|i: int|
                    0 <= i < sudoku.solutions().len() && (#[trigger] sudoku.solutions()[i]).to_set()
                        == placed;
            }
        }
    } else {
        assert(is_completion(n, none, sudoku.solutions()[0].to_set()));
        lemma_full_board(n, filled);
    }
}

/// A solved board of order `n`: the first solution that a search of the
/// empty board finds, or nothing where it finds none.
pub fn solved_board(n: u32) -> (filled: Vec<Choice>)
    requires
        n <= MAX_ORDER,
    ensures
        is_solved_board(n as int, filled@),
{
    let sudoku = Sudoku::new(n, Vec::new());
    match sudoku.first_solution() {
        Some(solution) => solution,
        None => Vec::new(),
    }
}

/// Whether the board of order `n` with the given placements has at most one
/// solution.
pub fn has_one_solution_at_most(n: u32, givens: Vec<Choice>) -> (yes: bool)
    requires
        n <= MAX_ORDER,
    ensures
        yes == has_one_completion_at_most(n as int, givens@),
{
    let sudoku = Sudoku::new(n, givens);
    proof {
        lemma_one_solution_at_most(sudoku, n as int, givens@);
    }
    let solutions_found = sudoku.count_solutions();
    !(solutions_found > 1)
}

/// Goes through the placements of a solved board once, in order, and takes
/// each out of the givens where the board then still has at most one
/// solution. The result is the placements taken out.
pub fn removable(n: u32, filled: &Vec<Choice>) -> (removed: Vec<Choice>)
    requires
        n <= MAX_ORDER,
    ensures
        removed@ == taken_out(n as int, filled@, filled@.len() as int),
{
    let mut removed_choices: Vec<Choice> = Vec::new();
    let mut i: usize = 0;
    while i < filled.len()
        invariant
            i <= filled@.len(),
            n <= MAX_ORDER,
            removed_choices@ == taken_out(n as int, filled@, i as int),
        decreases filled@.len() - i,
    {
        let ghost before = removed_choices@;
        removed_choices.push(filled[i]);
        let board = without(filled, &removed_choices);
        if !has_one_solution_at_most(n, board) {
            // the placement has to stay a given
            removed_choices.pop();
            proof {
                assert(removed_choices@ =~= before);
            }
        }
        i += 1;
    }
    removed_choices
}

/// What is left of a board with at most one completion by a single pass
/// has at most one completion.
pub proof fn lemma_taken_out(n: int, filled: Seq<Choice>, k: int)
    requires
        has_one_completion_at_most(n, filled),
    ensures
        has_one_completion_at_most(n, filled.filter(is_kept(taken_out(n, filled, k)))),
    decreases k,
{
    if k <= 0 {
        let none = Seq::<Choice>::empty();
        assert(filled.filter(is_kept(none)) =~= filled) by {
            lemma_keep_all(filled);
        }
    } else {
        lemma_taken_out(n, filled, k - 1);
    }
}

/// Where nothing is taken out, everything is left.
pub proof fn lemma_keep_all(filled: Seq<Choice>)
    ensures
        filled.filter(is_kept(Seq::<Choice>::empty())) == filled,
    decreases filled.len(),
{
    reveal(Seq::filter);
    if filled.len() > 0 {
        lemma_keep_all(filled.drop_last());
        assert(filled.drop_last().push(filled.last()) =~= filled);
    }
}

/// Makes a puzzle of order `n`: a solved board, and what a single pass
/// leaves of it. The puzzle has at most one completion, so a search of it
/// finds at most one solution.
pub fn generate(n: u32) -> (puzzle: Puzzle)
    requires
        n <= MAX_ORDER,
    ensures
        is_solved_board(n as int, puzzle.filled@),
        puzzle.givens@ == puzzle.filled@.filter(
            is_kept(taken_out(n as int, puzzle.filled@, puzzle.filled@.len() as int)),
        ),
        has_one_completion_at_most(n as int, puzzle.givens@),
{
    let filled = solved_board(n);
    let removed = removable(n, &filled);
    let givens = without(&filled, &removed);
    proof {
        lemma_solved_board(n as int, filled@);
        lemma_taken_out(n as int, filled@, filled@.len() as int);
    }
    Puzzle { filled, givens }
}

} // verus!
