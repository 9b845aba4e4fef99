//! The board abstraction: coordinates, cell contents and a rectangular grid.

use vstd::arithmetic::div_mod::{
    lemma_fundamental_div_mod, lemma_fundamental_div_mod_converse,
};
use vstd::prelude::*;

verus! {

/// A cell coordinate: column (x) first, row (y) second.
#[derive(Clone, Copy, PartialEq, Eq, Hash, PartialOrd, Ord, Debug, Structural)]
pub struct Coord(pub u32, pub u32);

/// What a board cell shows: still unclicked, a revealed number, or a cell
/// known to hold the given count of mines.
#[derive(Clone, Copy, PartialEq, Eq, Debug, Structural)]
pub enum CellContents {
    Unclicked,
    Num(u32),
    Mine(u32),
}

impl Default for CellContents {
    fn default() -> (r: Self)
        ensures
            r == CellContents::Unclicked,
    {
        CellContents::Unclicked
    }
}

/// What a numeric cell code decodes to: `0` to `8` is a revealed number,
/// `9` an unclicked cell, and `10` to `12` a cell known to hold one, two or
/// three mines. Anything else is no valid cell.
pub open spec fn spec_cell_from_code(code: u32) -> Option<CellContents> {
    if code <= 8 {
        Some(CellContents::Num(code))
    } else if code == 9 {
        Some(CellContents::Unclicked)
    } else if code <= 12 {
        Some(CellContents::Mine((code - 9) as u32))
    } else {
        None
    }
}

/// Decode one cell of an externally encoded board.
pub fn cell_from_code(code: u32) -> (r: Option<CellContents>)
    ensures
        r == spec_cell_from_code(code),
{
    if code <= 8 {
        Some(CellContents::Num(code))
    } else if code == 9 {
        Some(CellContents::Unclicked)
    } else if code <= 12 {
        Some(CellContents::Mine(code - 9))
    } else {
        None
    }
}

/// A rectangular grid of cells, stored in row-major order.
pub struct Grid<T: Clone + Default> {
    x_size: u32,
    y_size: u32,
    cells: Vec<T>,
}

/// A board snapshot handed to the solver.
pub type Board = Grid<CellContents>;

impl<T: Clone + Default> Grid<T> {
    pub closed spec fn xs(&self) -> u32 {
        self.x_size
    }

    pub closed spec fn ys(&self) -> u32 {
        self.y_size
    }

    /// The cells in row-major order.
    pub closed spec fn contents(&self) -> Seq<T> {
        self.cells@
    }

    pub open spec fn area(&self) -> int {
        (self.xs() as int) * (self.ys() as int)
    }

    pub open spec fn wf(&self) -> bool {
        &&& 1 <= self.xs()
        &&& 1 <= self.ys()
        &&& self.area() <= u32::MAX
        &&& self.contents().len() == self.area()
    }

    pub open spec fn has(&self, c: Coord) -> bool {
        c.0 < self.xs() && c.1 < self.ys()
    }

    /// Row-major index of a coordinate.
    pub open spec fn idx(&self, c: Coord) -> int {
        c.0 + c.1 * self.xs()
    }

    /// Coordinate of a row-major index.
    pub open spec fn coord_of(&self, i: int) -> Coord {
        Coord((i % (self.xs() as int)) as u32, (i / (self.xs() as int)) as u32)
    }

    pub open spec fn cell_at(&self, c: Coord) -> T {
        self.contents()[self.idx(c)]
    }

    pub proof fn lemma_idx_bounds(&self, c: Coord)
        requires
            self.wf(),
            self.has(c),
        ensures
            0 <= self.idx(c) < self.area(),
    {
        assert(c.0 + c.1 * (self.xs() as int) < (self.xs() as int) * (self.ys() as int))
            by (nonlinear_arith)
            requires
                c.0 < self.xs(),
                c.1 < self.ys(),
        ;
    }

    pub proof fn lemma_coord_of_idx(&self, i: int)
        requires
            self.wf(),
            0 <= i < self.area(),
        ensures
            self.has(self.coord_of(i)),
            self.idx(self.coord_of(i)) == i,
    {
        let xs = self.xs() as int;
        lemma_fundamental_div_mod(i, xs);
        assert(0 <= i % xs < xs && 0 <= i / xs) by (nonlinear_arith)
            requires
                0 <= i,
                1 <= xs,
        ;
        assert(i / xs < self.ys()) by (nonlinear_arith)
            requires
                i < xs * (self.ys() as int),
                1 <= xs,
                i == xs * (i / xs) + i % xs,
                0 <= i % xs,
        ;
        assert((i / xs) * xs == xs * (i / xs)) by (nonlinear_arith);
    }

    pub proof fn lemma_idx_coord_of(&self, c: Coord)
        requires
            self.wf(),
            self.has(c),
        ensures
            self.coord_of(self.idx(c)) == c,
    {
        let xs = self.xs() as int;
        lemma_fundamental_div_mod_converse(self.idx(c), xs, c.1 as int, c.0 as int);
    }

    pub fn new(x_size: u32, y_size: u32) -> (r: Self)
        requires
            1 <= x_size,
            1 <= y_size,
            (x_size as int) * (y_size as int) <= u32::MAX,
        ensures
            r.wf(),
            r.xs() == x_size,
            r.ys() == y_size,
    {
        let n: u32 = x_size * y_size;
        let mut cells: Vec<T> = Vec::new();
        let mut i: u32 = 0;
        while i < n
            invariant
                cells@.len() == i,
                i <= n,
            decreases n - i,
        {
            cells.push(T::default());
            i = i + 1;
        }
        Grid { x_size, y_size, cells }
    }

    pub fn x_size(&self) -> (r: u32)
        ensures
            r == self.xs(),
    {
        self.x_size
    }

    pub fn y_size(&self) -> (r: u32)
        ensures
            r == self.ys(),
    {
        self.y_size
    }

    pub fn num_cells(&self) -> (r: u32)
        requires
            self.wf(),
        ensures
            r == self.area(),
    {
        self.x_size * self.y_size
    }

    pub fn has_coord(&self, coord: &Coord) -> (r: bool)
        ensures
            r == self.has(*coord),
    {
        coord.0 < self.x_size && coord.1 < self.y_size
    }

    pub fn coord_to_index(&self, coord: &Coord) -> (r: usize)
        requires
            self.wf(),
            self.has(*coord),
        ensures
            r == self.idx(*coord),
    {
        proof {
            self.lemma_idx_bounds(*coord);
        }
        (coord.0 as usize) + (coord.1 as usize) * (self.x_size as usize)
    }

    /// Bounds-checked index of a coordinate.
    pub fn checked_coord_to_index(&self, coord: &Coord) -> (r: Option<usize>)
        requires
            self.wf(),
        ensures
            match r {
                Some(i) => self.has(*coord) && i == self.idx(*coord),
                None => !self.has(*coord),
            },
    {
        if self.has_coord(coord) {
            Some(self.coord_to_index(coord))
        } else {
            None
        }
    }

    pub fn coord_from_index(&self, index: usize) -> (r: Coord)
        requires
            self.wf(),
            index < self.area(),
        ensures
            r == self.coord_of(index as int),
            self.has(r),
            self.idx(r) == index,
    {
        proof {
            self.lemma_coord_of_idx(index as int);
        }
        let i = index as u32;
        Coord(i % self.x_size, i / self.x_size)
    }

    /// Bounds-checked coordinate of an index.
    pub fn checked_coord_from_index(&self, index: usize) -> (r: Option<Coord>)
        requires
            self.wf(),
        ensures
            match r {
                Some(c) => index < self.area() && c == self.coord_of(index as int),
                None => index >= self.area(),
            },
    {
        if index < (self.num_cells() as usize) {
            Some(self.coord_from_index(index))
        } else {
            None
        }
    }

    pub fn cell(&self, coord: Coord) -> (r: &T)
        requires
            self.wf(),
            self.has(coord),
        ensures
            *r == self.cell_at(coord),
    {
        let i = self.coord_to_index(&coord);
        proof {
            self.lemma_idx_bounds(coord);
        }
        &self.cells[i]
    }

    pub fn set_cell(&mut self, coord: Coord, contents: T)
        requires
            old(self).wf(),
            old(self).has(coord),
        ensures
            final(self).wf(),
            final(self).xs() == old(self).xs(),
            final(self).ys() == old(self).ys(),
            final(self).contents() == old(self).contents().update(
                old(self).idx(coord),
                contents,
            ),
    {
        let i = self.coord_to_index(&coord);
        proof {
            self.lemma_idx_bounds(coord);
        }
        self.cells[i] = contents;
    }

    /// Whether `d` is one of the up to eight cells around `c`.
    pub open spec fn is_nbr(&self, c: Coord, d: Coord) -> bool {
        &&& self.has(d)
        &&& d != c
        &&& -1 <= d.0 - c.0 <= 1
        &&& -1 <= d.1 - c.1 <= 1
    }

    /// The neighbours of `c` among the first `i` cells, in row-major order.
    pub open spec fn nbrs_upto(&self, c: Coord, i: int) -> Seq<Coord>
        decreases i,
    {
        if i <= 0 {
            Seq::empty()
        } else {
            let p = self.nbrs_upto(c, i - 1);
            if self.is_nbr(c, self.coord_of(i - 1)) {
                p.push(self.coord_of(i - 1))
            } else {
                p
            }
        }
    }

    /// The neighbours of `c`, in row-major order.
    pub open spec fn nbrs_seq(&self, c: Coord) -> Seq<Coord> {
        self.nbrs_upto(c, self.area())
    }

    proof fn lemma_nbrs_upto_props(&self, c: Coord, i: int)
        requires
            self.wf(),
            0 <= i <= self.area(),
        ensures
            self.nbrs_upto(c, i).len() <= i,
            self.nbrs_upto(c, i).no_duplicates(),
            forall|d: Coord| #[trigger] self.nbrs_upto(c, i).contains(d)
                <==> self.is_nbr(c, d) && self.idx(d) < i,
        decreases i,
    {
        if i > 0 {
            self.lemma_nbrs_upto_props(c, i - 1);
            let p = self.nbrs_upto(c, i - 1);
            let e = self.coord_of(i - 1);
            self.lemma_coord_of_idx(i - 1);
            if self.is_nbr(c, e) {
                assert(!p.contains(e));
                assert forall|d: Coord| #[trigger] self.nbrs_upto(c, i).contains(d)
                    implies self.is_nbr(c, d) && self.idx(d) < i by {
                    if d != e {
                        assert(p.contains(d));
                    }
                }
                assert forall|d: Coord| self.is_nbr(c, d) && self.idx(d) < i
                    implies #[trigger] self.nbrs_upto(c, i).contains(d) by {
                    if self.idx(d) < i - 1 {
                        assert(p.contains(d));
                        let k = choose|k: int| 0 <= k < p.len() && p[k] == d;
                        assert(self.nbrs_upto(c, i)[k] == d);
                    } else {
                        self.lemma_idx_coord_of(d);
                        assert(d == e);
                        assert(self.nbrs_upto(c, i).last() == e);
                    }
                }
            } else {
                assert forall|d: Coord| self.is_nbr(c, d) && self.idx(d) < i
                    implies #[trigger] self.nbrs_upto(c, i).contains(d) by {
                    if self.idx(d) == i - 1 {
                        self.lemma_idx_coord_of(d);
                    }
                }
            }
        }
    }

    /// Membership, distinctness and length of the neighbour sequence.
    pub proof fn lemma_nbrs_props(&self, c: Coord)
        requires
            self.wf(),
        ensures
            self.nbrs_seq(c).len() <= self.area(),
            self.nbrs_seq(c).no_duplicates(),
            forall|d: Coord| #[trigger] self.nbrs_seq(c).contains(d) <==> self.is_nbr(c, d),
    {
        self.lemma_nbrs_upto_props(c, self.area());
        assert forall|d: Coord| self.is_nbr(c, d)
            implies #[trigger] self.nbrs_seq(c).contains(d) by {
            self.lemma_idx_bounds(d);
        }
    }

    /// The coordinates of the neighbouring cells, in row-major order.
    pub fn get_neighbours(&self, coord: Coord) -> (r: Vec<Coord>)
        requires
            self.wf(),
            self.has(coord),
        ensures
            r@ == self.nbrs_seq(coord),
    {
        let n = self.num_cells();
        let mut v: Vec<Coord> = Vec::new();
        let mut i: u32 = 0;
        while i < n
            invariant
                self.wf(),
                self.has(coord),
                n == self.area(),
                i <= n,
                v@ == self.nbrs_upto(coord, i as int),
            decreases n - i,
        {
            let c = self.coord_from_index(i as usize);
            let near_x = c.0 + 1 >= coord.0 && coord.0 + 1 >= c.0;
            let near_y = c.1 + 1 >= coord.1 && coord.1 + 1 >= c.1;
            if (c.0 != coord.0 || c.1 != coord.1) && near_x && near_y {
                v.push(c);
            }
            i = i + 1;
        }
        v
    }

    /// All coordinates, in row-major order.
    pub fn iter_coords(&self) -> (r: Vec<Coord>)
        requires
            self.wf(),
        ensures
            r@.len() == self.area(),
            forall|i: int| 0 <= i < r@.len() ==> r@[i] == self.coord_of(i),
    {
        let n = self.num_cells();
        let mut v: Vec<Coord> = Vec::new();
        let mut i: u32 = 0;
        while i < n
            invariant
                self.wf(),
                n == self.area(),
                i <= n,
                v@.len() == i,
                forall|j: int| 0 <= j < i ==> v@[j] == self.coord_of(j),
            decreases n - i,
        {
            v.push(Coord(i % self.x_size, i / self.x_size));
            i = i + 1;
        }
        v
    }
}

impl<T: Copy + Default> Grid<T> {
    /// All (coordinate, contents) pairs, in row-major order.
    pub fn iter_cells(&self) -> (r: Vec<(Coord, T)>)
        requires
            self.wf(),
        ensures
            r@.len() == self.area(),
            forall|i: int| 0 <= i < r@.len() ==> r@[i].0 == self.coord_of(i),
            forall|i: int| 0 <= i < r@.len() ==> r@[i].1 == self.contents()[i],
    {
        let n = self.num_cells();
        let mut v: Vec<(Coord, T)> = Vec::new();
        let mut i: u32 = 0;
        while i < n
            invariant
                self.wf(),
                n == self.area(),
                i <= n,
                v@.len() == i,
                forall|j: int| 0 <= j < i ==> v@[j].0 == self.coord_of(j),
                forall|j: int| 0 <= j < i ==> v@[j].1 == self.contents()[j],
            decreases n - i,
        {
            let c = self.coord_from_index(i as usize);
            let x: T = *self.cell(c);
            proof {
                self.lemma_coord_of_idx(i as int);
            }
            v.push((c, x));
            i = i + 1;
        }
        v
    }
}

} // verus!
