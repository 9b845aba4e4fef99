use solver::utils::{cell_from_code, CellContents, Coord, Grid};

#[test]
fn cell_codes_decode() {
    assert_eq!(cell_from_code(0), Some(CellContents::Num(0)));
    assert_eq!(cell_from_code(8), Some(CellContents::Num(8)));
    assert_eq!(cell_from_code(9), Some(CellContents::Unclicked));
    assert_eq!(cell_from_code(10), Some(CellContents::Mine(1)));
    assert_eq!(cell_from_code(12), Some(CellContents::Mine(3)));
    assert_eq!(cell_from_code(13), None);
    assert_eq!(cell_from_code(u32::MAX), None);
}

#[test]
fn coord_to_index() {
    let grid = Grid::<u32>::new(5, 3);
    assert_eq!(grid.coord_to_index(&Coord(0, 0)), 0);
    assert_eq!(grid.coord_to_index(&Coord(3, 1)), 8);
}

#[test]
fn coord_to_index_panic() {
    let grid = Grid::<u32>::new(5, 3);
    for c in &[(5, 0), (0, 3), (5, 3), (6, 20), (100, 100)] {
        assert!(grid.checked_coord_to_index(&Coord(c.0, c.1)).is_none());
    }
}

#[test]
fn coord_from_index() {
    let grid = Grid::<u32>::new(5, 3);
    for index in &[0, 4, 8, 14 as usize] {
        assert_eq!(grid.coord_to_index(&grid.coord_from_index(*index)), *index);
    }
}

#[test]
fn coord_from_index_panic() {
    let grid = Grid::<u32>::new(5, 3);
    for index in &[15, 16, 20, 100 as usize] {
        assert!(grid.checked_coord_from_index(*index).is_none());
    }
}

fn sorted(mut v: Vec<Coord>) -> Vec<Coord> {
    v.sort();
    v
}

#[test]
fn get_neighbours() {
    let grid = Grid::<u32>::new(5, 3);
    assert_eq!(
        sorted(grid.get_neighbours(Coord(0, 0))),
        sorted(vec![Coord(1, 0), Coord(0, 1), Coord(1, 1)])
    );
    assert_eq!(
        sorted(grid.get_neighbours(Coord(2, 1))),
        sorted(vec![
            Coord(1, 0),
            Coord(1, 1),
            Coord(1, 2),
            Coord(2, 0),
            Coord(2, 2),
            Coord(3, 0),
            Coord(3, 1),
            Coord(3, 2),
        ])
    );
    assert_eq!(
        sorted(grid.get_neighbours(Coord(4, 1))),
        sorted(vec![
            Coord(3, 0),
            Coord(3, 1),
            Coord(3, 2),
            Coord(4, 0),
            Coord(4, 2),
        ])
    );
}

#[test]
fn grid_cells() {
    let mut grid = Grid::<u32>::new(2, 2);
    grid.set_cell(Coord(1, 0), 7);
    assert_eq!(*grid.cell(Coord(1, 0)), 7);
    assert_eq!(*grid.cell(Coord(0, 0)), 0);
    assert_eq!(grid.num_cells(), 4);
    assert_eq!(grid.x_size(), 2);
    assert_eq!(grid.y_size(), 2);
    let coords = grid.iter_coords();
    assert_eq!(coords, vec![Coord(0, 0), Coord(1, 0), Coord(0, 1), Coord(1, 1)]);
    let cells = grid.iter_cells();
    assert_eq!(cells[1], (Coord(1, 0), 7));
    assert!(grid.has_coord(&Coord(1, 1)));
    assert!(!grid.has_coord(&Coord(2, 0)));
}
