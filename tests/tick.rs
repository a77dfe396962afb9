use sandfall::{Cell, Universe};

fn grid(width: u32, height: u32, cells: &[(u32, u32, Cell)]) -> Universe {
    let mut u = Universe::create(width, height);
    for &(row, col, cell) in cells {
        u.set_cell(row, col, cell);
    }
    u
}

fn only(u: &Universe, cells: &[(u32, u32, Cell)]) {
    for row in 0..u.height() {
        for col in 0..u.width() {
            let want = cells
                .iter()
                .find(|&&(r, c, _)| r == row && c == col)
                .map(|&(_, _, k)| k)
                .unwrap_or(Cell::Empty);
            assert_eq!(u.get_cell(row, col), want, "cell ({}, {})", row, col);
        }
    }
}

fn counts(u: &Universe) -> [usize; 4] {
    let mut n = [0usize; 4];
    for &c in u.get_cells() {
        n[c.to_code() as usize] += 1;
    }
    n
}

#[test]
fn free_fall() {
    let mut u = grid(3, 3, &[(0, 1, Cell::Sand)]);
    u.tick();
    assert_eq!(u.get_cell(0, 1), Cell::Empty);
    assert_eq!(u.get_cell(1, 1), Cell::Sand);
    only(&u, &[(1, 1, Cell::Sand)]);
    u.tick();
    only(&u, &[(2, 1, Cell::Sand)]);
}

#[test]
fn sand_rests_on_concrete_in_one_column() {
    let mut u = grid(1, 2, &[(0, 0, Cell::Sand), (1, 0, Cell::Concrete)]);
    for _ in 0..3 {
        u.tick();
        only(&u, &[(0, 0, Cell::Sand), (1, 0, Cell::Concrete)]);
    }
}

#[test]
fn sand_on_concrete_slides_down_right() {
    let mut u = grid(2, 2, &[(0, 0, Cell::Sand), (1, 0, Cell::Concrete)]);
    u.tick();
    only(&u, &[(1, 1, Cell::Sand), (1, 0, Cell::Concrete)]);
}

#[test]
fn sand_sinks_through_water() {
    let mut u = grid(1, 2, &[(0, 0, Cell::Sand), (1, 0, Cell::Water)]);
    u.tick();
    assert_eq!(u.get_cell(0, 0), Cell::Water);
    assert_eq!(u.get_cell(1, 0), Cell::Sand);
}

#[test]
fn water_on_the_bottom_row_stays() {
    let mut u = grid(3, 1, &[(0, 1, Cell::Water)]);
    u.tick();
    only(&u, &[(0, 1, Cell::Water)]);
}

#[test]
fn water_blocked_below_goes_left_first() {
    let floor = [(1, 0, Cell::Concrete), (1, 1, Cell::Concrete), (1, 2, Cell::Concrete)];
    let mut cells = floor.to_vec();
    cells.push((0, 1, Cell::Water));
    let mut u = grid(3, 2, &cells);
    u.tick();
    let mut want = floor.to_vec();
    want.push((0, 0, Cell::Water));
    only(&u, &want);
}

#[test]
fn water_goes_right_when_left_is_full() {
    let mut u = grid(
        3,
        2,
        &[(1, 0, Cell::Concrete), (1, 1, Cell::Concrete), (0, 0, Cell::Concrete), (0, 1, Cell::Water)],
    );
    u.tick();
    only(
        &u,
        &[(1, 0, Cell::Concrete), (1, 1, Cell::Concrete), (0, 0, Cell::Concrete), (1, 2, Cell::Water)],
    );
}

#[test]
fn water_falls_down_left_before_left() {
    let mut u = grid(3, 2, &[(1, 1, Cell::Concrete), (0, 1, Cell::Water)]);
    u.tick();
    only(&u, &[(1, 1, Cell::Concrete), (1, 0, Cell::Water)]);
}

#[test]
fn sand_in_column_one_never_goes_down_left() {
    let mut u = grid(2, 2, &[(1, 1, Cell::Concrete), (0, 1, Cell::Sand)]);
    u.tick();
    only(&u, &[(1, 1, Cell::Concrete), (0, 1, Cell::Sand)]);
}

#[test]
fn sand_in_column_two_goes_down_left() {
    let mut u = grid(3, 2, &[(1, 2, Cell::Concrete), (0, 2, Cell::Sand)]);
    u.tick();
    only(&u, &[(1, 2, Cell::Concrete), (1, 1, Cell::Sand)]);
}

#[test]
fn claimed_target_stops_the_later_mover() {
    // Sand at (0, 0) slides down-right into (1, 1) first; the water at
    // (0, 1), scanned next, finds its cell below claimed and stays.
    let mut u = grid(2, 2, &[(0, 0, Cell::Sand), (1, 0, Cell::Concrete), (0, 1, Cell::Water)]);
    u.tick();
    only(&u, &[(1, 1, Cell::Sand), (1, 0, Cell::Concrete), (0, 1, Cell::Water)]);
}

#[test]
fn a_target_is_not_decided_again() {
    // The water at (1, 0) is claimed by the sand above it, so it is not
    // decided in this tick and does not fall further.
    let mut u = grid(1, 3, &[(0, 0, Cell::Sand), (1, 0, Cell::Water)]);
    u.tick();
    only(&u, &[(0, 0, Cell::Water), (1, 0, Cell::Sand)]);
}

#[test]
fn tick_keeps_counts_and_concrete() {
    let mut u = Universe::create(6, 5);
    let mut cells = Vec::new();
    for col in 0..6 {
        cells.push((0, col, if col % 2 == 0 { Cell::Sand } else { Cell::Water }));
        cells.push((1, col, if col % 3 == 0 { Cell::Water } else { Cell::Sand }));
    }
    cells.push((3, 2, Cell::Concrete));
    cells.push((4, 4, Cell::Concrete));
    for &(r, c, k) in &cells {
        u.set_cell(r, c, k);
    }
    let before = counts(&u);
    for _ in 0..8 {
        u.tick();
        assert_eq!(counts(&u), before);
        assert_eq!(u.get_cell(3, 2), Cell::Concrete);
        assert_eq!(u.get_cell(4, 4), Cell::Concrete);
        assert_eq!(u.get_cells().len(), 30);
    }
}

#[test]
fn still_grid_is_a_fixed_point() {
    let mut u = grid(4, 3, &[(0, 0, Cell::Concrete), (2, 3, Cell::Concrete), (1, 1, Cell::Concrete)]);
    let before = u.get_cells().to_vec();
    for _ in 0..5 {
        u.tick();
        assert_eq!(u.get_cells(), &before[..]);
    }
}

#[test]
fn tick_on_empty_dimensions() {
    let mut u = Universe::create(0, 4);
    u.tick();
    assert_eq!(u.get_cells().len(), 0);
    let mut u = Universe::create(4, 0);
    u.tick();
    assert_eq!(u.get_cells().len(), 0);
}
