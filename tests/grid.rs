use sandfall::{Cell, Universe};

#[test]
fn new_universe_is_empty_and_square() {
    let u = Universe::new();
    assert_eq!(u.width(), 500);
    assert_eq!(u.height(), 500);
    assert_eq!(u.get_cells().len(), 250_000);
    assert!(u.get_cells().iter().all(|&c| c == Cell::Empty));
}

#[test]
fn resizing_clears_every_cell() {
    let mut u = Universe::create(3, 3);
    u.set_cell(1, 1, Cell::Sand);
    u.set_width(4);
    assert_eq!(u.width(), 4);
    assert_eq!(u.height(), 3);
    assert_eq!(u.get_cells().len(), 12);
    assert!(u.get_cells().iter().all(|&c| c == Cell::Empty));
    u.set_cell(2, 3, Cell::Water);
    u.set_height(2);
    assert_eq!(u.height(), 2);
    assert_eq!(u.get_cells().len(), 8);
    assert!(u.get_cells().iter().all(|&c| c == Cell::Empty));
}

#[test]
fn set_cell_writes_row_major() {
    let mut u = Universe::create(3, 2);
    u.set_cell(1, 2, Cell::Concrete);
    assert_eq!(u.get_cells()[5], Cell::Concrete);
    u.set_cell(0, 1, Cell::Water);
    assert_eq!(u.get_cells()[1], Cell::Water);
    assert_eq!(u.get_cell(0, 1), Cell::Water);
    assert_eq!(u.get_cell(1, 2), Cell::Concrete);
    assert_eq!(u.get_cell(0, 0), Cell::Empty);
}

#[test]
fn set_cells_paints_sand() {
    let mut u = Universe::create(3, 2);
    u.set_cell(0, 0, Cell::Water);
    u.set_cells(&[(0, 0), (1, 2), (1, 2)]);
    assert_eq!(
        u.get_cells(),
        &[Cell::Sand, Cell::Empty, Cell::Empty, Cell::Empty, Cell::Empty, Cell::Sand][..]
    );
}

#[test]
fn render_draws_one_line_per_row() {
    let mut u = Universe::create(3, 2);
    u.set_cell(0, 1, Cell::Sand);
    u.set_cell(1, 0, Cell::Water);
    u.set_cell(1, 2, Cell::Concrete);
    assert_eq!(u.render(), "\u{25FB}\u{25FC}\u{25FB}\n\u{25FC}\u{25FB}\u{25FC}\n");
}

#[test]
fn render_of_an_empty_grid() {
    let u = Universe::create(2, 1);
    assert_eq!(u.render(), "\u{25FB}\u{25FB}\n");
    let u = Universe::create(2, 0);
    assert_eq!(u.render(), "");
}

#[test]
fn cell_codes() {
    assert_eq!(Cell::Empty.to_code(), 0);
    assert_eq!(Cell::Sand.to_code(), 1);
    assert_eq!(Cell::Water.to_code(), 2);
    assert_eq!(Cell::Concrete.to_code(), 3);
}

#[test]
fn cell_set_cell_overwrites() {
    let mut c = Cell::Empty;
    c.set_cell(Cell::Water);
    assert_eq!(c, Cell::Water);
}
