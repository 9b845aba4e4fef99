use solver::logic::find_configs;
use solver::utils::{Board, CellContents, Coord};

fn make_board() -> Board {
    let mut board = Board::new(5, 3);
    board.set_cell(Coord(1, 1), CellContents::Num(5));
    board.set_cell(Coord(2, 0), CellContents::Mine(1));
    board.set_cell(Coord(0, 1), CellContents::Mine(1));
    board.set_cell(Coord(0, 0), CellContents::Mine(1));
    board.set_cell(Coord(2, 1), CellContents::Num(2));
    board
}

#[test]
fn find_numbers() {
    let board = make_board();
    println!();
    let numbers = solver::logic::find_numbers(&board).unwrap();
    println!("{:#?}", numbers);
    println!();
}

#[test]
fn find_groups() {
    let board = make_board();
    let numbers = solver::logic::find_numbers(&board).unwrap();
    let groups = solver::logic::find_groups(&numbers);
    println!("{:#?}", groups);
    println!();
}

#[test]
fn numbers_reduced_by_mines() {
    let board = make_board();
    let numbers = solver::logic::find_numbers(&board).unwrap();
    assert_eq!(numbers.len(), 2);
    // the 5 at (1, 1) has three known neighbouring mines
    assert_eq!(numbers[0].coord, Coord(1, 1));
    assert_eq!(numbers[0].value, 2);
    let mut n0 = numbers[0].nbrs.clone();
    n0.sort();
    assert_eq!(n0, vec![Coord(0, 2), Coord(1, 0), Coord(1, 2), Coord(2, 2)]);
    // the 2 at (2, 1) has one known neighbouring mine
    assert_eq!(numbers[1].coord, Coord(2, 1));
    assert_eq!(numbers[1].value, 1);
}

#[test]
fn numbers_invalid_when_mines_exceed_value() {
    let mut board = Board::new(2, 1);
    board.set_cell(Coord(0, 0), CellContents::Num(0));
    board.set_cell(Coord(1, 0), CellContents::Mine(1));
    assert!(matches!(
        solver::logic::find_numbers(&board),
        Err(solver::logic::SolverError::InvalidInput)
    ));
}

#[test]
fn groups_share_variables() {
    // the two clues of make_board share unclicked neighbours: one group
    let board = make_board();
    let numbers = solver::logic::find_numbers(&board).unwrap();
    let groups = solver::logic::find_groups(&numbers);
    assert_eq!(groups.len(), 1);
    let mut ids = groups[0].nums.clone();
    ids.sort();
    assert_eq!(ids, vec![0, 1]);
}

#[test]
fn groups_stay_apart() {
    // two clues with no shared unclicked neighbour: two groups
    let mut board = Board::new(7, 1);
    board.set_cell(Coord(1, 0), CellContents::Num(1));
    board.set_cell(Coord(3, 0), CellContents::Mine(1));
    board.set_cell(Coord(5, 0), CellContents::Num(1));
    let numbers = solver::logic::find_numbers(&board).unwrap();
    let groups = solver::logic::find_groups(&numbers);
    assert_eq!(groups.len(), 2);
    assert_eq!(groups[0].nums, vec![0]);
    assert_eq!(groups[1].nums, vec![1]);
    let mut v0 = groups[0].vars.clone();
    v0.sort();
    assert_eq!(v0, vec![Coord(0, 0), Coord(2, 0)]);
}

#[test]
fn configs_satisfy_constraints() {
    // a lone "1" over two neighbours has exactly the two single-mine configs
    let mut board = Board::new(3, 1);
    board.set_cell(Coord(1, 0), CellContents::Num(1));
    let numbers = solver::logic::find_numbers(&board).unwrap();
    let groups = solver::logic::find_groups(&numbers);
    let cfgss = find_configs(&numbers, &groups).unwrap();
    assert_eq!(cfgss.len(), 1);
    assert_eq!(cfgss[0].len(), 2);
    let mines: Vec<Vec<bool>> = cfgss[0].iter().map(|c| c.mines.clone()).collect();
    assert_eq!(mines, vec![vec![false, true], vec![true, false]]);
}

#[test]
fn configs_empty_means_inconsistent() {
    // a clue larger than its unclicked neighbourhood admits no configuration
    let mut board = Board::new(2, 1);
    board.set_cell(Coord(0, 0), CellContents::Num(2));
    let numbers = solver::logic::find_numbers(&board).unwrap();
    let groups = solver::logic::find_groups(&numbers);
    assert!(matches!(
        find_configs(&numbers, &groups),
        Err(solver::logic::SolverError::InconsistentBoard)
    ));
}
