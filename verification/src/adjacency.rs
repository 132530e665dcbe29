//! Neighbors of a cell in a row-major grid, under 4-connectivity in two
//! dimensions and 6-connectivity in three.

use vstd::prelude::*;

verus! {

/// The coordinate one step up, wrapping to zero past the largest `usize`.
pub open spec fn step_up(c: usize) -> usize {
    if c == usize::MAX {
        0
    } else {
        (c + 1) as usize
    }
}

/// The coordinate one step down, wrapping to the largest `usize` below zero.
pub open spec fn step_down(c: usize) -> usize {
    if c == 0 {
        usize::MAX
    } else {
        (c - 1) as usize
    }
}

/// A provider of grid neighbors over the flat indices `0 .. size()`.
pub trait Adjacency {
    /// The extents admit the index arithmetic: the grid's size fits in `usize`
    /// and every extent that is divided by is positive.
    spec fn wf(&self) -> bool;

    /// The number of cells.
    spec fn size(&self) -> nat;

    /// The neighbors of `p`, in the order in which `neighbors` returns them.
    spec fn neighbors_of(&self, p: usize) -> Seq<usize>;

    /// Every neighbor is a cell of the grid.
    proof fn lemma_neighbors_in_grid(&self, p: usize)
        requires
            self.wf(),
        ensures
            forall|k: int|
                0 <= k < self.neighbors_of(p).len() ==> (#[trigger] self.neighbors_of(p)[k])
                    < self.size(),
    ;

    fn neighbors(&self, p: usize) -> (out: Vec<usize>)
        requires
            self.wf(),
        ensures
            out@ == self.neighbors_of(p),
    ;
}

/// A two-dimensional grid of `shape[0]` rows and `shape[1]` columns.
pub struct AdjacencyGrid2D {
    shape: [usize; 2],
}

impl AdjacencyGrid2D {
    /// The number of rows, the extent of `y`.
    pub closed spec fn rows(&self) -> nat {
        self.shape[0] as nat
    }

    /// The number of columns, the extent of `x`.
    pub closed spec fn cols(&self) -> nat {
        self.shape[1] as nat
    }

    /// The flat index of `(x, y)` alone, or nothing where `(x, y)` lies outside
    /// the grid.
    pub open spec fn cell(&self, x: usize, y: usize) -> Seq<usize> {
        if y < self.rows() && x < self.cols() {
            seq![(x + y * self.cols()) as usize]
        } else {
            Seq::empty()
        }
    }

    /// The grid of `rows` rows and `cols` columns.
    pub closed spec fn of(rows: usize, cols: usize) -> Self {
        AdjacencyGrid2D { shape: [rows, cols] }
    }

    /// `of` makes the grid of the extents that it is given.
    pub proof fn lemma_of(rows: usize, cols: usize)
        ensures
            Self::of(rows, cols).rows() == rows,
            Self::of(rows, cols).cols() == cols,
    {
    }

    pub fn new(shape: &[usize]) -> (grid: Self)
        requires
            shape@.len() >= 2,
        ensures
            grid == Self::of(shape@[0], shape@[1]),
            grid.rows() == shape@[0],
            grid.cols() == shape@[1],
    {
        AdjacencyGrid2D { shape: [shape[0], shape[1]] }
    }

    #[inline(always)]
    fn to_index(&self, x: usize, y: usize) -> (index: usize)
        requires
            self.wf(),
            y < self.rows(),
            x < self.cols(),
        ensures
            index == x + y * self.cols(),
            index < self.size(),
    {
        proof {
            lemma_flat_index_2d(x as int, y as int, self.cols() as int, self.rows() as int);
        }
        x + y * self.shape[1]
    }

    #[inline(always)]
    fn is_valid(&self, x: usize, y: usize) -> (valid: bool)
        ensures
            valid == (y < self.rows() && x < self.cols()),
    {
        y < self.shape[0] && x < self.shape[1]
    }
}

/// Inside a grid of `cols` columns and `rows` rows, `x + y * cols` stays
/// below the number of cells.
pub proof fn lemma_flat_index_2d(x: int, y: int, cols: int, rows: int)
    requires
        0 <= x < cols,
        0 <= y < rows,
    ensures
        0 <= y * cols <= x + y * cols < rows * cols,
        rows * cols == cols * rows,
{
    assert(0 <= y * cols && x + y * cols < rows * cols && rows * cols == cols * rows)
        by (nonlinear_arith)
        requires
            0 <= x < cols,
            0 <= y < rows,
    ;
}

impl Adjacency for AdjacencyGrid2D {
    open spec fn wf(&self) -> bool {
        &&& self.cols() > 0
        &&& self.rows() * self.cols() <= usize::MAX
    }

    open spec fn size(&self) -> nat {
        self.rows() * self.cols()
    }

    /// The cells at `(x, y+1)`, `(x+1, y)`, `(x, y-1)` and `(x-1, y)`, in this
    /// order, of which those outside the grid are left out; `x` is
    /// `p % cols` and `y` is `p / cols`.
    open spec fn neighbors_of(&self, p: usize) -> Seq<usize> {
        let x = (p as nat % self.cols()) as usize;
        let y = (p as nat / self.cols()) as usize;
        self.cell(x, step_up(y)) + self.cell(step_up(x), y) + self.cell(x, step_down(y))
            + self.cell(step_down(x), y)
    }

    proof fn lemma_neighbors_in_grid(&self, p: usize) {
        let x = (p as nat % self.cols()) as usize;
        let y = (p as nat / self.cols()) as usize;
        self.lemma_cell_in_grid(x, step_up(y));
        self.lemma_cell_in_grid(step_up(x), y);
        self.lemma_cell_in_grid(x, step_down(y));
        self.lemma_cell_in_grid(step_down(x), y);
    }

    fn neighbors(&self, p: usize) -> (out: Vec<usize>) {
        let x = p % self.shape[1];
        let y = p / self.shape[1];

        // the steps wrap around, so one test against the extent covers both ends
        let mut valid_neighbors = Vec::<usize>::with_capacity(4);

        // (0, 1)
        self.push_if_valid(&mut valid_neighbors, x, y.wrapping_add(1));
        // (1, 0)
        self.push_if_valid(&mut valid_neighbors, x.wrapping_add(1), y);
        // (0, -1)
        self.push_if_valid(&mut valid_neighbors, x, y.wrapping_sub(1));
        // (-1, 0)
        self.push_if_valid(&mut valid_neighbors, x.wrapping_sub(1), y);

        assert(valid_neighbors@ =~= self.neighbors_of(p));
        valid_neighbors
    }
}

impl AdjacencyGrid2D {
    /// Appends the flat index of `(x, y)` where it lies inside the grid.
    fn push_if_valid(&self, out: &mut Vec<usize>, x: usize, y: usize)
        requires
            self.wf(),
        ensures
            final(out)@ == old(out)@ + self.cell(x, y),
    {
        if self.is_valid(x, y) {
            out.push(self.to_index(x, y));
        }
        assert(out@ =~= old(out)@ + self.cell(x, y));
    }

    /// What `cell` holds is a cell of the grid.
    pub proof fn lemma_cell_in_grid(&self, x: usize, y: usize)
        requires
            self.wf(),
        ensures
            forall|k: int| 0 <= k < self.cell(x, y).len() ==> (#[trigger] self.cell(x, y)[k]) < self.size(),
    {
        if y < self.rows() && x < self.cols() {
            lemma_flat_index_2d(x as int, y as int, self.cols() as int, self.rows() as int);
        }
    }
}

/// Inside a grid of `nx` by `ny` by `nz` cells, `x + y * nx + z * ny * nx`
/// stays below the number of cells, and so does each of its parts.
pub proof fn lemma_flat_index_3d(x: int, y: int, z: int, nx: int, ny: int, nz: int)
    requires
        0 <= x < nx,
        0 <= y < ny,
        0 <= z < nz,
    ensures
        0 <= y * nx,
        0 <= z * ny <= z * ny * nx,
        0 <= x + y * nx + z * ny * nx < nz * ny * nx,
        ny * nx <= nz * ny * nx,
{
    assert(0 <= y * nx && x + y * nx < ny * nx) by (nonlinear_arith)
        requires
            0 <= x < nx,
            0 <= y < ny,
    ;
    assert(0 <= z * ny <= z * ny * nx) by (nonlinear_arith)
        requires
            0 <= z,
            0 < ny,
            0 < nx,
    ;
    assert(z * ny * nx + ny * nx <= nz * ny * nx && ny * nx <= nz * ny * nx) by (nonlinear_arith)
        requires
            0 <= z < nz,
            0 < ny,
            0 < nx,
    ;
}

/// A three-dimensional grid of `shape[0]` planes, `shape[1]` rows and
/// `shape[2]` columns.
pub struct AdjacencyGrid3D {
    shape: [usize; 3],
}

impl AdjacencyGrid3D {
    /// The number of planes, the extent of `z`.
    pub closed spec fn planes(&self) -> nat {
        self.shape[0] as nat
    }

    /// The number of rows in a plane, the extent of `y`.
    pub closed spec fn rows(&self) -> nat {
        self.shape[1] as nat
    }

    /// The number of columns in a row, the extent of `x`.
    pub closed spec fn cols(&self) -> nat {
        self.shape[2] as nat
    }

    /// The flat index of `(x, y, z)` alone, or nothing where `(x, y, z)` lies
    /// outside the grid.
    pub open spec fn cell(&self, x: usize, y: usize, z: usize) -> Seq<usize> {
        if z < self.planes() && y < self.rows() && x < self.cols() {
            seq![(x + y * self.cols() + z * self.rows() * self.cols()) as usize]
        } else {
            Seq::empty()
        }
    }

    /// What `cell` holds is a cell of the grid.
    pub proof fn lemma_cell_in_grid(&self, x: usize, y: usize, z: usize)
        requires
            self.wf(),
        ensures
            forall|k: int|
                0 <= k < self.cell(x, y, z).len() ==> (#[trigger] self.cell(x, y, z)[k])
                    < self.size(),
    {
        if z < self.planes() && y < self.rows() && x < self.cols() {
            lemma_flat_index_3d(
                x as int,
                y as int,
                z as int,
                self.cols() as int,
                self.rows() as int,
                self.planes() as int,
            );
        }
    }

    /// The grid of `planes` planes of `rows` rows of `cols` columns.
    pub closed spec fn of(planes: usize, rows: usize, cols: usize) -> Self {
        AdjacencyGrid3D { shape: [planes, rows, cols] }
    }

    /// `of` makes the grid of the extents that it is given.
    pub proof fn lemma_of(planes: usize, rows: usize, cols: usize)
        ensures
            Self::of(planes, rows, cols).planes() == planes,
            Self::of(planes, rows, cols).rows() == rows,
            Self::of(planes, rows, cols).cols() == cols,
    {
    }

    pub fn new(shape: &[usize]) -> (grid: Self)
        requires
            shape@.len() >= 3,
        ensures
            grid == Self::of(shape@[0], shape@[1], shape@[2]),
            grid.planes() == shape@[0],
            grid.rows() == shape@[1],
            grid.cols() == shape@[2],
    {
        AdjacencyGrid3D { shape: [shape[0], shape[1], shape[2]] }
    }

    #[inline(always)]
    fn to_index(&self, x: usize, y: usize, z: usize) -> (index: usize)
        requires
            self.wf(),
            z < self.planes(),
            y < self.rows(),
            x < self.cols(),
        ensures
            index == x + y * self.cols() + z * self.rows() * self.cols(),
            index < self.size(),
    {
        proof {
            lemma_flat_index_3d(
                x as int,
                y as int,
                z as int,
                self.cols() as int,
                self.rows() as int,
                self.planes() as int,
            );
        }
        x + y * self.shape[2] + z * self.shape[1] * self.shape[2]
    }

    #[inline(always)]
    fn is_valid(&self, x: usize, y: usize, z: usize) -> (valid: bool)
        ensures
            valid == (z < self.planes() && y < self.rows() && x < self.cols()),
    {
        z < self.shape[0] && y < self.shape[1] && x < self.shape[2]
    }
}

impl Adjacency for AdjacencyGrid3D {
    open spec fn wf(&self) -> bool {
        &&& self.rows() > 0
        &&& self.cols() > 0
        &&& self.cols() * self.rows() <= usize::MAX
        &&& self.planes() * self.rows() * self.cols() <= usize::MAX
    }

    open spec fn size(&self) -> nat {
        self.planes() * self.rows() * self.cols()
    }

    /// The cells one step from `(x, y, z)` along `+z`, `+y`, `+x`, `-z`, `-y`
    /// and `-x`, in this order, of which those outside the grid are left out;
    /// `x` is `p % cols`, `y` is `(p / cols) % rows` and `z` is
    /// `p / (cols * rows)`.
    open spec fn neighbors_of(&self, p: usize) -> Seq<usize> {
        let x = (p as nat % self.cols()) as usize;
        let y = ((p as nat / self.cols()) % self.rows()) as usize;
        let z = (p as nat / (self.cols() * self.rows())) as usize;
        self.cell(x, y, step_up(z)) + self.cell(x, step_up(y), z) + self.cell(step_up(x), y, z)
            + self.cell(x, y, step_down(z)) + self.cell(x, step_down(y), z) + self.cell(
            step_down(x),
            y,
            z,
        )
    }

    proof fn lemma_neighbors_in_grid(&self, p: usize) {
        let x = (p as nat % self.cols()) as usize;
        let y = ((p as nat / self.cols()) % self.rows()) as usize;
        let z = (p as nat / (self.cols() * self.rows())) as usize;
        self.lemma_cell_in_grid(x, y, step_up(z));
        self.lemma_cell_in_grid(x, step_up(y), z);
        self.lemma_cell_in_grid(step_up(x), y, z);
        self.lemma_cell_in_grid(x, y, step_down(z));
        self.lemma_cell_in_grid(x, step_down(y), z);
        self.lemma_cell_in_grid(step_down(x), y, z);
    }

    fn neighbors(&self, p: usize) -> (out: Vec<usize>) {
        let (x, y, z) = self.coordinates(p);

        // the steps wrap around, so one test against the extent covers both ends
        let mut valid_neighbors = Vec::<usize>::with_capacity(6);

        // (0, 0, 1)
        self.push_if_valid(&mut valid_neighbors, x, y, z.wrapping_add(1));
        // (0, 1, 0)
        self.push_if_valid(&mut valid_neighbors, x, y.wrapping_add(1), z);
        // (1, 0, 0)
        self.push_if_valid(&mut valid_neighbors, x.wrapping_add(1), y, z);
        // (0, 0, -1)
        self.push_if_valid(&mut valid_neighbors, x, y, z.wrapping_sub(1));
        // (0, -1, 0)
        self.push_if_valid(&mut valid_neighbors, x, y.wrapping_sub(1), z);
        // (-1, 0, 0)
        self.push_if_valid(&mut valid_neighbors, x.wrapping_sub(1), y, z);

        assert(valid_neighbors@ =~= self.neighbors_of(p));
        valid_neighbors
    }
}

impl AdjacencyGrid3D {
    /// The coordinates `(x, y, z)` that `p` decodes to.
    fn coordinates(&self, p: usize) -> (c: (usize, usize, usize))
        requires
            self.wf(),
        ensures
            c.0 == p as nat % self.cols(),
            c.1 == (p as nat / self.cols()) % self.rows(),
            c.2 == p as nat / (self.cols() * self.rows()),
    {
        assert(0 < self.cols() * self.rows()) by (nonlinear_arith)
            requires
                0 < self.cols(),
                0 < self.rows(),
        ;
        let x = p % self.shape[2];
        let y = (p / self.shape[2]) % self.shape[1];
        let z = p / (self.shape[2] * self.shape[1]);
        (x, y, z)
    }

    /// Appends the flat index of `(x, y, z)` where it lies inside the grid.
    fn push_if_valid(&self, out: &mut Vec<usize>, x: usize, y: usize, z: usize)
        requires
            self.wf(),
        ensures
            final(out)@ == old(out)@ + self.cell(x, y, z),
    {
        if self.is_valid(x, y, z) {
            out.push(self.to_index(x, y, z));
        }
        assert(out@ =~= old(out)@ + self.cell(x, y, z));
    }
}

} // verus!
