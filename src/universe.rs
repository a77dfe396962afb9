//! The grid of cells and the operations a host performs on it.
use crate::cell::Cell;
use crate::rules::{
    index_of, lemma_concrete_stays, lemma_index_bounds, lemma_step_conserves, sand_target, scan_row,
    scan_rows, step, target, water_target,
};
use vstd::prelude::*;

verus! {

/// A grid of `width * height` cells stored row by row, row 0 at the top.
pub struct Universe {
    width: u32,
    height: u32,
    cells: Vec<Cell>,
}

/// The side length of the grid a new universe starts with.
pub const DEFAULT_SIDE: u32 = 500;

/// `n` empty cells.
pub open spec fn empty_grid(n: nat) -> Seq<Cell> {
    Seq::new(n, |i: int| Cell::Empty)
}

/// The symbol that stands for a cell in the text rendering: an open square
/// for an empty cell, a filled square for any other.
pub open spec fn glyph(c: Cell) -> char {
    if c == Cell::Empty {
        '\u{25FB}'
    } else {
        '\u{25FC}'
    }
}

/// The symbols of the first `c` cells of row `r`.
pub open spec fn row_glyphs(cells: Seq<Cell>, w: nat, r: int, c: nat) -> Seq<char> {
    Seq::new(c, |k: int| glyph(cells[index_of(w, r, k)]))
}

/// The text rendering of the first `rows` rows: one line per row.
pub open spec fn text(cells: Seq<Cell>, w: nat, rows: nat) -> Seq<char>
    decreases rows,
{
    if rows == 0 {
        Seq::empty()
    } else {
        text(cells, w, (rows - 1) as nat) + row_glyphs(cells, w, rows - 1, w).push('\n')
    }
}

/// The grid after the cells at `spots`, taken in order, are set to sand.
pub open spec fn paint_sand(cells: Seq<Cell>, w: nat, spots: Seq<(u32, u32)>) -> Seq<Cell>
    decreases spots.len(),
{
    if spots.len() == 0 {
        cells
    } else {
        paint_sand(cells, w, spots.drop_last(), ).update(
            index_of(w, spots.last().0 as int, spots.last().1 as int),
            Cell::Sand,
        )
    }
}

/// Relies on `String::push`, which appends one character to the string.
#[verifier::external_body]
fn push_char(s: &mut String, c: char)
    ensures
        final(s)@ == old(s)@.push(c),
{
    s.push(c);
}

/// `n` empty cells.
fn empty_cells(n: usize) -> (r: Vec<Cell>)
    ensures
        r@ == empty_grid(n as nat),
{
    let mut v: Vec<Cell> = Vec::new();
    let mut k: usize = 0;
    while k < n
        invariant
            k <= n,
            v@ == empty_grid(k as nat),
        decreases n - k,
    {
        v.push(Cell::Empty);
        k += 1;
    }
    v
}

/// Which cell, if any, the cell at `(row, col)` moves into this tick.
fn find_target(cur: &Vec<Cell>, claimed: &Vec<bool>, w: usize, h: usize, row: usize, col: usize) -> (r: Option<usize>)
    requires
        cur@.len() == w * h,
        claimed@.len() == w * h,
        w * h <= usize::MAX,
        row < h,
        col < w,
    ensures
        match r {
            Some(t) => target(cur@, claimed@, w as nat, h as nat, row as int, col as int) == Some(t as int),
            None => target(cur@, claimed@, w as nat, h as nat, row as int, col as int) is None,
        },
{
    proof {
        lemma_index_bounds(w as nat, h as nat, row as int, col as int);
    }
    let i = row * w + col;
    if claimed[i] {
        return None;
    }
    match cur[i] {
        Cell::Water => find_water_target(cur, claimed, w, h, row, col),
        Cell::Sand => find_sand_target(cur, claimed, w, h, row, col),
        _ => None,
    }
}

/// Which cell, if any, water at `(row, col)` moves into this tick.
fn find_water_target(cur: &Vec<Cell>, claimed: &Vec<bool>, w: usize, h: usize, row: usize, col: usize) -> (r: Option<usize>)
    requires
        cur@.len() == w * h,
        claimed@.len() == w * h,
        w * h <= usize::MAX,
        row < h,
        col < w,
    ensures
        match r {
            Some(t) => water_target(cur@, claimed@, w as nat, h as nat, row as int, col as int) == Some(t as int),
            None => water_target(cur@, claimed@, w as nat, h as nat, row as int, col as int) is None,
        },
{
    proof {
        lemma_index_bounds(w as nat, h as nat, row as int, col as int);
    }
    if row == h - 1 {
        return None;
    }
    let i = row * w + col;
    let down = i + w;
    if claimed[down] {
        return None;
    }
    if cur[down] == Cell::Empty {
        return Some(down);
    }
    if col >= 1 {
        let down_left = down - 1;
        if claimed[down_left] {
            return None;
        }
        if cur[down_left] == Cell::Empty {
            return Some(down_left);
        }
        let left = i - 1;
        if claimed[left] {
            return None;
        }
        if cur[left] == Cell::Empty {
            return Some(left);
        }
    }
    if col < w - 1 {
        let down_right = down + 1;
        if claimed[down_right] {
            return None;
        }
        if cur[down_right] == Cell::Empty {
            return Some(down_right);
        }
        let right = i + 1;
        if claimed[right] {
            return None;
        }
        if cur[right] == Cell::Empty {
            return Some(right);
        }
    }
    None
}

/// Which cell, if any, sand at `(row, col)` moves into this tick.
fn find_sand_target(cur: &Vec<Cell>, claimed: &Vec<bool>, w: usize, h: usize, row: usize, col: usize) -> (r: Option<usize>)
    requires
        cur@.len() == w * h,
        claimed@.len() == w * h,
        w * h <= usize::MAX,
        row < h,
        col < w,
    ensures
        match r {
            Some(t) => sand_target(cur@, claimed@, w as nat, h as nat, row as int, col as int) == Some(t as int),
            None => sand_target(cur@, claimed@, w as nat, h as nat, row as int, col as int) is None,
        },
{
    proof {
        lemma_index_bounds(w as nat, h as nat, row as int, col as int);
    }
    if row == h - 1 {
        return None;
    }
    let i = row * w + col;
    let down = i + w;
    if claimed[down] {
        return None;
    }
    if cur[down] == Cell::Empty || cur[down] == Cell::Water {
        return Some(down);
    }
    if col > 1 {
        let down_left = down - 1;
        if claimed[down_left] {
            return None;
        }
        if cur[down_left] == Cell::Empty {
            return Some(down_left);
        }
    }
    if col < w - 1 {
        let down_right = down + 1;
        if claimed[down_right] {
            return None;
        }
        if cur[down_right] == Cell::Empty {
            return Some(down_right);
        }
    }
    None
}

impl Universe {
    /// The cells, row by row.
    pub closed spec fn grid(&self) -> Seq<Cell> {
        self.cells@
    }

    /// The number of columns.
    pub closed spec fn w(&self) -> nat {
        self.width as nat
    }

    /// The number of rows.
    pub closed spec fn h(&self) -> nat {
        self.height as nat
    }

    /// The grid holds exactly one cell per row and column, and each cell
    /// has an index that fits in `usize`.
    pub open spec fn wf(&self) -> bool {
        &&& self.grid().len() == self.w() * self.h()
        &&& self.w() * self.h() <= usize::MAX
    }

    /// A universe of `DEFAULT_SIDE` by `DEFAULT_SIDE` empty cells.
    pub fn new() -> (r: Universe)
        ensures
            r.wf(),
            r.w() == DEFAULT_SIDE,
            r.h() == DEFAULT_SIDE,
            r.grid() == empty_grid(DEFAULT_SIDE as nat * DEFAULT_SIDE as nat),
    {
        Universe::create(DEFAULT_SIDE, DEFAULT_SIDE)
    }

    /// A universe of `width` by `height` empty cells.
    pub fn create(width: u32, height: u32) -> (r: Universe)
        requires
            width * height <= usize::MAX,
        ensures
            r.wf(),
            r.w() == width,
            r.h() == height,
            r.grid() == empty_grid(width as nat * height as nat),
    {
        let n = width as usize * height as usize;
        Universe { width, height, cells: empty_cells(n) }
    }

    /// Sets the width of the universe. Every cell becomes empty.
    pub fn set_width(&mut self, width: u32)
        requires
            width * old(self).h() <= usize::MAX,
        ensures
            final(self).wf(),
            final(self).w() == width,
            final(self).h() == old(self).h(),
            final(self).grid() == empty_grid(width as nat * old(self).h()),
    {
        self.width = width;
        self.cells = empty_cells(width as usize * self.height as usize);
    }

    /// Sets the height of the universe. Every cell becomes empty.
    pub fn set_height(&mut self, height: u32)
        requires
            old(self).w() * height <= usize::MAX,
        ensures
            final(self).wf(),
            final(self).w() == old(self).w(),
            final(self).h() == height,
            final(self).grid() == empty_grid(old(self).w() * height as nat),
    {
        self.height = height;
        self.cells = empty_cells(self.width as usize * height as usize);
    }

    /// The number of columns.
    pub fn width(&self) -> (r: u32)
        ensures
            r == self.w(),
    {
        self.width
    }

    /// The number of rows.
    pub fn height(&self) -> (r: u32)
        ensures
            r == self.h(),
    {
        self.height
    }

    /// The position of `(row, column)` in the cell buffer.
    fn get_index(&self, row: u32, column: u32) -> (r: usize)
        requires
            self.wf(),
            row < self.h(),
            column < self.w(),
        ensures
            r == index_of(self.w(), row as int, column as int),
    {
        proof {
            lemma_index_bounds(self.w(), self.h(), row as int, column as int);
        }
        row as usize * self.width as usize + column as usize
    }

    /// The cell at `(row, col)`.
    pub fn get_cell(&self, row: u32, col: u32) -> (r: Cell)
        requires
            self.wf(),
            row < self.h(),
            col < self.w(),
        ensures
            r == self.grid()[index_of(self.w(), row as int, col as int)],
    {
        proof {
            lemma_index_bounds(self.w(), self.h(), row as int, col as int);
        }
        self.cells[self.get_index(row, col)]
    }

    /// Sets the cell at `(row, col)` to `cell`.
    pub fn set_cell(&mut self, row: u32, col: u32, cell: Cell)
        requires
            old(self).wf(),
            row < old(self).h(),
            col < old(self).w(),
        ensures
            final(self).wf(),
            final(self).w() == old(self).w(),
            final(self).h() == old(self).h(),
            final(self).grid() == old(self).grid().update(index_of(old(self).w(), row as int, col as int), cell),
    {
        proof {
            lemma_index_bounds(self.w(), self.h(), row as int, col as int);
        }
        let idx = self.get_index(row, col);
        self.cells.set(idx, cell);
    }

    /// The cells, row by row.
    pub fn get_cells(&self) -> (r: &[Cell])
        ensures
            r@ == self.grid(),
    {
        self.cells.as_slice()
    }

    /// Sets the cell at each `(row, col)` of `cells` to sand.
    pub fn set_cells(&mut self, cells: &[(u32, u32)])
        requires
            old(self).wf(),
            forall|k: int| 0 <= k < cells@.len() ==> #[trigger] cells@[k].0 < old(self).h() && cells@[k].1 < old(self).w(),
        ensures
            final(self).wf(),
            final(self).w() == old(self).w(),
            final(self).h() == old(self).h(),
            final(self).grid() == paint_sand(old(self).grid(), old(self).w(), cells@),
    {
        let ghost start = self.grid();
        let mut k: usize = 0;
        while k < cells.len()
            invariant
                self.wf(),
                self.w() == old(self).w(),
                self.h() == old(self).h(),
                start == old(self).grid(),
                k <= cells@.len(),
                forall|j: int| 0 <= j < cells@.len() ==> #[trigger] cells@[j].0 < old(self).h() && cells@[j].1 < old(self).w(),
                self.grid() == paint_sand(start, self.w(), cells@.subrange(0, k as int)),
            decreases cells@.len() - k,
        {
            let (row, col) = cells[k];
            proof {
                lemma_index_bounds(self.w(), self.h(), row as int, col as int);
            }
            let idx = self.get_index(row, col);
            self.cells.set(idx, Cell::Sand);
            proof {
                let done = cells@.subrange(0, k as int + 1);
                assert(done.drop_last() == cells@.subrange(0, k as int));
                assert(done.last() == (row, col));
            }
            k += 1;
        }
        assert(cells@.subrange(0, cells@.len() as int) == cells@);
    }

    /// The grid as text: one line per row, an open square for each empty
    /// cell and a filled square for each other cell.
    pub fn render(&self) -> (r: String)
        requires
            self.wf(),
        ensures
            r@ == text(self.grid(), self.w(), self.h()),
    {
        let w = self.width as usize;
        let h = self.height as usize;
        let mut out = String::new();
        let mut row: usize = 0;
        while row < h
            invariant
                self.wf(),
                w == self.w(),
                h == self.h(),
                row <= h,
                out@ == text(self.grid(), self.w(), row as nat),
            decreases h - row,
        {
            let mut col: usize = 0;
            while col < w
                invariant
                    self.wf(),
                    w == self.w(),
                    h == self.h(),
                    row < h,
                    col <= w,
                    out@ == text(self.grid(), self.w(), row as nat) + row_glyphs(self.grid(), self.w(), row as int, col as nat),
                decreases w - col,
            {
                proof {
                    lemma_index_bounds(self.w(), self.h(), row as int, col as int);
                }
                let cell = self.cells[row * w + col];
                let symbol = if cell == Cell::Empty {
                    '\u{25FB}'
                } else {
                    '\u{25FC}'
                };
                push_char(&mut out, symbol);
                assert(row_glyphs(self.grid(), self.w(), row as int, col as nat + 1) =~= row_glyphs(
                    self.grid(),
                    self.w(),
                    row as int,
                    col as nat,
                ).push(symbol));
                col += 1;
            }
            push_char(&mut out, '\n');
            assert(text(self.grid(), self.w(), row as nat + 1) =~= text(self.grid(), self.w(), row as nat) + row_glyphs(self.grid(), self.w(), row as int, w as nat).push('\n'));
            row += 1;
        }
        out
    }

    /// Advances the simulation by one tick: every cell is decided once, in
    /// row-major order, against the grid as it was before the tick.
    pub fn tick(&mut self)
        requires
            old(self).wf(),
        ensures
            final(self).wf(),
            final(self).w() == old(self).w(),
            final(self).h() == old(self).h(),
            final(self).grid() == step(old(self).grid(), old(self).w(), old(self).h()),
            final(self).grid().to_multiset() == old(self).grid().to_multiset(),
            forall|i: int|
                0 <= i < old(self).grid().len() ==> (#[trigger] final(self).grid()[i] == Cell::Concrete
                    <==> old(self).grid()[i] == Cell::Concrete),
    {
        proof {
            lemma_step_conserves(self.grid(), self.w(), self.h());
            lemma_concrete_stays(self.grid(), self.w(), self.h());
        }
        let w = self.width as usize;
        let h = self.height as usize;
        let ghost cur = self.cells@;
        let n = self.cells.len();
        let mut next: Vec<Cell> = Vec::new();
        let mut claimed: Vec<bool> = Vec::new();
        let mut k: usize = 0;
        while k < n
            invariant
                n == cur.len(),
                cur == self.cells@,
                k <= n,
                next@ == cur.subrange(0, k as int),
                claimed@ == Seq::new(k as nat, |i: int| false),
            decreases n - k,
        {
            next.push(self.cells[k]);
            claimed.push(false);
            k += 1;
        }
        assert(next@ == cur);
        assert(claimed@ == Seq::new(cur.len(), |i: int| false));
        let mut row: usize = 0;
        while row < h
            invariant
                cur == self.cells@,
                cur.len() == w * h,
                n == cur.len(),
                next@.len() == n,
                claimed@.len() == n,
                w == self.w(),
                h == self.h(),
                row <= h,
                next@ == scan_rows(cur, w as nat, h as nat, row as nat).next,
                claimed@ == scan_rows(cur, w as nat, h as nat, row as nat).claimed,
            decreases h - row,
        {
            let ghost before = scan_rows(cur, w as nat, h as nat, row as nat);
            let mut col: usize = 0;
            while col < w
                invariant
                    cur == self.cells@,
                    cur.len() == w * h,
                    n == cur.len(),
                    next@.len() == n,
                    claimed@.len() == n,
                    row < h,
                    col <= w,
                    next@ == scan_row(cur, w as nat, h as nat, row as int, col as nat, before).next,
                    claimed@ == scan_row(cur, w as nat, h as nat, row as int, col as nat, before).claimed,
                decreases w - col,
            {
                proof {
                    lemma_index_bounds(w as nat, h as nat, row as int, col as int);
                }
                match find_target(&self.cells, &claimed, w, h, row, col) {
                    Some(t) => {
                        let i = row * w + col;
                        let moving = self.cells[i];
                        let there = self.cells[t];
                        next.set(i, there);
                        next.set(t, moving);
                        claimed.set(t, true);
                    },
                    None => {},
                }
                col += 1;
            }
            row += 1;
        }
        self.cells = next;
    }
}

} // verus!
