use solver::logic::SolverError;
use solver::probs::Prob;
use solver::utils::{Board, CellContents, Coord};

fn prob(num: u128, den: u128) -> Prob {
    Prob { num, den }
}

#[test]
fn lone_clue_forces_its_neighbour() {
    // a single "1" with exactly one unclicked neighbour: that cell is a mine
    let mut board = Board::new(1, 2);
    board.set_cell(Coord(0, 0), CellContents::Num(1));
    let probs = board.calc_probs().unwrap();
    assert_eq!(*probs.cell(Coord(0, 0)), prob(0, 1));
    assert_eq!(*probs.cell(Coord(0, 1)), prob(1, 1));
}

#[test]
fn zero_clue_clears_its_neighbours() {
    // a "0" with several unclicked neighbours: all of them are safe
    let mut board = Board::new(2, 2);
    board.set_cell(Coord(0, 0), CellContents::Num(0));
    let probs = board.calc_probs().unwrap();
    assert_eq!(*probs.cell(Coord(0, 0)), prob(0, 1));
    assert_eq!(*probs.cell(Coord(1, 0)), prob(0, 1));
    assert_eq!(*probs.cell(Coord(0, 1)), prob(0, 1));
    assert_eq!(*probs.cell(Coord(1, 1)), prob(0, 1));
}

#[test]
fn independent_clues_split_evenly() {
    // two non-overlapping "1" clues with two unclicked neighbours each:
    // every neighbour carries probability one half
    let mut board = Board::new(7, 1);
    board.set_cell(Coord(1, 0), CellContents::Num(1));
    board.set_cell(Coord(3, 0), CellContents::Mine(1));
    board.set_cell(Coord(5, 0), CellContents::Num(1));
    let probs = board.calc_probs().unwrap();
    for x in [0u32, 2, 4, 6] {
        let p = *probs.cell(Coord(x, 0));
        assert_eq!(p, prob(2, 4));
        assert_eq!(2 * p.num, p.den);
    }
    assert_eq!(*probs.cell(Coord(1, 0)), prob(0, 1));
    assert_eq!(*probs.cell(Coord(3, 0)), prob(0, 1));
    assert_eq!(*probs.cell(Coord(5, 0)), prob(0, 1));
}

#[test]
fn overloaded_clue_is_inconsistent() {
    // a clue demanding more mines than it has unclicked neighbours
    let mut board = Board::new(1, 2);
    board.set_cell(Coord(0, 0), CellContents::Num(2));
    assert!(matches!(board.calc_probs(), Err(SolverError::InconsistentBoard)));
}

#[test]
fn fully_revealed_board_is_all_zero() {
    // no unclicked cell anywhere: an all-zero probability grid
    let mut board = Board::new(2, 2);
    board.set_cell(Coord(0, 0), CellContents::Num(0));
    board.set_cell(Coord(1, 0), CellContents::Num(0));
    board.set_cell(Coord(0, 1), CellContents::Num(0));
    board.set_cell(Coord(1, 1), CellContents::Num(0));
    let probs = board.calc_probs().unwrap();
    for (_, p) in probs.iter_cells() {
        assert_eq!(p, prob(0, 1));
    }
}

#[test]
fn invalid_board_is_rejected() {
    // a revealed number smaller than its known neighbouring mines
    let mut board = Board::new(2, 1);
    board.set_cell(Coord(0, 0), CellContents::Num(0));
    board.set_cell(Coord(1, 0), CellContents::Mine(1));
    assert!(matches!(board.calc_probs(), Err(SolverError::InvalidInput)));
}

#[test]
fn remainder_splits_the_budget() {
    // one clue over {x0, x2}, remainder {x3, x4}, budget of two mines
    let mut board = Board::new(5, 1);
    board.set_cell(Coord(1, 0), CellContents::Num(1));
    let probs = board.calc_probs_budget(Some(2)).unwrap();
    assert_eq!(*probs.cell(Coord(0, 0)), prob(2, 4));
    assert_eq!(*probs.cell(Coord(1, 0)), prob(0, 1));
    assert_eq!(*probs.cell(Coord(2, 0)), prob(2, 4));
    assert_eq!(*probs.cell(Coord(3, 0)), prob(2, 4));
    assert_eq!(*probs.cell(Coord(4, 0)), prob(2, 4));
    // conservation: the probabilities of the unclicked cells sum to the budget
    let total: u128 = [0u32, 2, 3, 4]
        .iter()
        .map(|&x| probs.cell(Coord(x, 0)).num)
        .sum();
    assert_eq!(total, 2 * probs.cell(Coord(0, 0)).den);
}

#[test]
fn remainder_without_budget_is_even() {
    // without a budget every remainder cell carries one half
    let mut board = Board::new(5, 1);
    board.set_cell(Coord(1, 0), CellContents::Num(1));
    let probs = board.calc_probs().unwrap();
    assert_eq!(*probs.cell(Coord(0, 0)), prob(4, 8));
    assert_eq!(*probs.cell(Coord(3, 0)), prob(4, 8));
    assert_eq!(*probs.cell(Coord(4, 0)), prob(4, 8));
}

#[test]
fn budget_mismatch_is_reported() {
    // the lone neighbour must be a mine, but the budget asks for five
    let mut board = Board::new(1, 2);
    board.set_cell(Coord(0, 0), CellContents::Num(1));
    assert!(matches!(
        board.calc_probs_budget(Some(5)),
        Err(SolverError::NoValidConfiguration)
    ));
    // with the matching budget the result is exact
    let probs = board.calc_probs_budget(Some(1)).unwrap();
    assert_eq!(*probs.cell(Coord(0, 1)), prob(1, 1));
}

#[test]
fn oversized_remainder_is_too_complex() {
    // an all-unclicked board whose weight sums exceed the solver's integers
    let board = Board::new(20, 10);
    assert!(matches!(board.calc_probs(), Err(SolverError::TooComplex)));
}

#[test]
fn repeated_calls_are_identical() {
    let mut board = Board::new(7, 1);
    board.set_cell(Coord(1, 0), CellContents::Num(1));
    board.set_cell(Coord(3, 0), CellContents::Mine(1));
    board.set_cell(Coord(5, 0), CellContents::Num(1));
    let p1 = board.calc_probs().unwrap();
    let p2 = board.calc_probs().unwrap();
    assert_eq!(p1.iter_cells(), p2.iter_cells());
}
