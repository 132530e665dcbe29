//! Images as bare extents: the neighbors of a pixel or voxel by its flat
//! index, `x` running fastest.

use vstd::prelude::*;
use crate::adjacency::{lemma_flat_index_2d, step_down, step_up};

verus! {

/// A two-dimensional image of `width` columns and `height` rows.
pub struct Image2D {
    pub width: usize,
    pub height: usize,
}

/// A three-dimensional image of `depth` planes of `height` rows of `width`
/// columns.
pub struct Image3D {
    pub width: usize,
    pub height: usize,
    pub depth: usize,
}

impl Image2D {
    /// The extents admit the index arithmetic: the number of pixels fits in
    /// `usize` and the width, which is divided by, is positive.
    pub open spec fn wf(&self) -> bool {
        &&& self.width > 0
        &&& self.width * self.height <= usize::MAX
    }

    /// The number of pixels.
    pub open spec fn size(&self) -> nat {
        (self.width * self.height) as nat
    }

    /// The flat index of `(x, y)` alone, or nothing where `(x, y)` lies outside
    /// the image.
    pub open spec fn pixel(&self, x: usize, y: usize) -> Seq<usize> {
        if x < self.width && y < self.height {
            seq![(x + y * self.width) as usize]
        } else {
            Seq::empty()
        }
    }

    /// The pixels at `(x-1, y)`, `(x+1, y)`, `(x, y-1)` and `(x, y+1)`, in
    /// this order, of which those outside the image are left out; `x` is
    /// `p % width` and `y` is `p / width`.
    pub open spec fn neighbors_of(&self, p: usize) -> Seq<usize> {
        let x = (p as nat % self.width as nat) as usize;
        let y = (p as nat / self.width as nat) as usize;
        self.pixel(step_down(x), y) + self.pixel(step_up(x), y) + self.pixel(x, step_down(y))
            + self.pixel(x, step_up(y))
    }

    /// What `pixel` holds is a pixel of the image.
    pub proof fn lemma_pixel_in_image(&self, x: usize, y: usize)
        requires
            self.wf(),
        ensures
            forall|k: int|
                0 <= k < self.pixel(x, y).len() ==> (#[trigger] self.pixel(x, y)[k]) < self.size(),
    {
        if x < self.width && y < self.height {
            lemma_flat_index_2d(x as int, y as int, self.width as int, self.height as int);
        }
    }

    /// Every neighbor is a pixel of the image.
    pub proof fn lemma_neighbors_in_image(&self, p: usize)
        requires
            self.wf(),
        ensures
            forall|k: int|
                0 <= k < self.neighbors_of(p).len() ==> (#[trigger] self.neighbors_of(p)[k])
                    < self.size(),
    {
        let x = (p as nat % self.width as nat) as usize;
        let y = (p as nat / self.width as nat) as usize;
        self.lemma_pixel_in_image(step_down(x), y);
        self.lemma_pixel_in_image(step_up(x), y);
        self.lemma_pixel_in_image(x, step_down(y));
        self.lemma_pixel_in_image(x, step_up(y));
    }

    pub fn new(width: usize, height: usize) -> (image: Self)
        ensures
            image.width == width,
            image.height == height,
    {
        Image2D { width, height }
    }

    #[inline]
    fn to_index(&self, x: usize, y: usize) -> (index: usize)
        requires
            self.wf(),
            x < self.width,
            y < self.height,
        ensures
            index == x + y * self.width,
    {
        proof {
            lemma_flat_index_2d(x as int, y as int, self.width as int, self.height as int);
        }
        x + y * self.width
    }

    #[inline]
    pub fn neighbors(&self, p: usize) -> (out: Vec<usize>)
        requires
            self.wf(),
        ensures
            out@ == self.neighbors_of(p),
    {
        let x = p % self.width;
        let y = p / self.width;

        // the steps wrap around, so one test against the extent covers both ends
        let mut valid_neighbors = Vec::<usize>::with_capacity(4);
        self.push_if_valid(&mut valid_neighbors, x.wrapping_sub(1), y);
        self.push_if_valid(&mut valid_neighbors, x.wrapping_add(1), y);
        self.push_if_valid(&mut valid_neighbors, x, y.wrapping_sub(1));
        self.push_if_valid(&mut valid_neighbors, x, y.wrapping_add(1));

        assert(valid_neighbors@ =~= self.neighbors_of(p));
        valid_neighbors
    }

    /// Appends the flat index of `(x, y)` where it lies inside the image.
    fn push_if_valid(&self, out: &mut Vec<usize>, x: usize, y: usize)
        requires
            self.wf(),
        ensures
            final(out)@ == old(out)@ + self.pixel(x, y),
    {
        if self.is_valid(x, y) {
            out.push(self.to_index(x, y));
        }
        assert(out@ =~= old(out)@ + self.pixel(x, y));
    }

    #[inline]
    fn is_valid(&self, x: usize, y: usize) -> (valid: bool)
        ensures
            valid == (x < self.width && y < self.height),
    {
        x < self.width && y < self.height
    }
}

/// Inside an image of `w` by `h` by `d` voxels, `x + y * w + z * w * h` stays
/// below the number of voxels, and so does each of its parts.
pub proof fn lemma_voxel_index(x: int, y: int, z: int, w: int, h: int, d: int)
    requires
        0 <= x < w,
        0 <= y < h,
        0 <= z < d,
    ensures
        0 <= y * w,
        0 <= z * w <= z * w * h,
        0 <= x + y * w + z * w * h < w * h * d,
        w * h <= w * h * d,
{
    assert(0 <= y * w && x + y * w < w * h) by (nonlinear_arith)
        requires
            0 <= x < w,
            0 <= y < h,
    ;
    assert(0 <= z * w <= z * w * h) by (nonlinear_arith)
        requires
            0 <= z,
            0 < w,
            0 < h,
    ;
    assert(z * w * h + w * h <= w * h * d && w * h <= w * h * d) by (nonlinear_arith)
        requires
            0 <= z < d,
            0 < w,
            0 < h,
    ;
}

impl Image3D {
    /// The extents admit the index arithmetic: the number of voxels fits in
    /// `usize` and the width and height, which are divided by, are positive.
    pub open spec fn wf(&self) -> bool {
        &&& self.width > 0
        &&& self.height > 0
        &&& self.width * self.height <= usize::MAX
        &&& self.width * self.height * self.depth <= usize::MAX
    }

    /// The number of voxels.
    pub open spec fn size(&self) -> nat {
        (self.width * self.height * self.depth) as nat
    }

    /// The flat index of `(x, y, z)` alone, or nothing where `(x, y, z)` lies
    /// outside the image.
    pub open spec fn voxel(&self, x: usize, y: usize, z: usize) -> Seq<usize> {
        if x < self.width && y < self.height && z < self.depth {
            seq![(x + y * self.width + z * self.width * self.height) as usize]
        } else {
            Seq::empty()
        }
    }

    /// The voxels one step from `(x, y, z)` along `-x`, `+x`, `-y`, `+y`, `-z`
    /// and `+z`, in this order, of which those outside the image are left out;
    /// `x` is `p % width`, `y` is `(p / width) % height` and `z` is
    /// `p / (width * height)`.
    pub open spec fn neighbors_of(&self, p: usize) -> Seq<usize> {
        let x = (p as nat % self.width as nat) as usize;
        let y = ((p as nat / self.width as nat) % self.height as nat) as usize;
        let z = (p as nat / (self.width * self.height) as nat) as usize;
        self.voxel(step_down(x), y, z) + self.voxel(step_up(x), y, z) + self.voxel(
            x,
            step_down(y),
            z,
        ) + self.voxel(x, step_up(y), z) + self.voxel(x, y, step_down(z)) + self.voxel(
            x,
            y,
            step_up(z),
        )
    }

    /// What `voxel` holds is a voxel of the image.
    pub proof fn lemma_voxel_in_image(&self, x: usize, y: usize, z: usize)
        requires
            self.wf(),
        ensures
            forall|k: int|
                0 <= k < self.voxel(x, y, z).len() ==> (#[trigger] self.voxel(x, y, z)[k])
                    < self.size(),
    {
        if x < self.width && y < self.height && z < self.depth {
            lemma_voxel_index(
                x as int,
                y as int,
                z as int,
                self.width as int,
                self.height as int,
                self.depth as int,
            );
        }
    }

    /// Every neighbor is a voxel of the image.
    pub proof fn lemma_neighbors_in_image(&self, p: usize)
        requires
            self.wf(),
        ensures
            forall|k: int|
                0 <= k < self.neighbors_of(p).len() ==> (#[trigger] self.neighbors_of(p)[k])
                    < self.size(),
    {
        let x = (p as nat % self.width as nat) as usize;
        let y = ((p as nat / self.width as nat) % self.height as nat) as usize;
        let z = (p as nat / (self.width * self.height) as nat) as usize;
        self.lemma_voxel_in_image(step_down(x), y, z);
        self.lemma_voxel_in_image(step_up(x), y, z);
        self.lemma_voxel_in_image(x, step_down(y), z);
        self.lemma_voxel_in_image(x, step_up(y), z);
        self.lemma_voxel_in_image(x, y, step_down(z));
        self.lemma_voxel_in_image(x, y, step_up(z));
    }

    pub fn new(width: usize, height: usize, depth: usize) -> (image: Self)
        ensures
            image.width == width,
            image.height == height,
            image.depth == depth,
    {
        Image3D { width, height, depth }
    }

    #[inline]
    fn to_index(&self, x: usize, y: usize, z: usize) -> (index: usize)
        requires
            self.wf(),
            x < self.width,
            y < self.height,
            z < self.depth,
        ensures
            index == x + y * self.width + z * self.width * self.height,
    {
        proof {
            lemma_voxel_index(
                x as int,
                y as int,
                z as int,
                self.width as int,
                self.height as int,
                self.depth as int,
            );
        }
        x + y * self.width + z * self.width * self.height
    }

    #[inline]
    pub fn neighbors(&self, p: usize) -> (out: Vec<usize>)
        requires
            self.wf(),
        ensures
            out@ == self.neighbors_of(p),
    {
        let (x, y, z) = self.coordinates(p);

        // the steps wrap around, so one test against the extent covers both ends
        let mut valid_neighbors = Vec::<usize>::with_capacity(6);
        self.push_if_valid(&mut valid_neighbors, x.wrapping_sub(1), y, z);
        self.push_if_valid(&mut valid_neighbors, x.wrapping_add(1), y, z);
        self.push_if_valid(&mut valid_neighbors, x, y.wrapping_sub(1), z);
        self.push_if_valid(&mut valid_neighbors, x, y.wrapping_add(1), z);
        self.push_if_valid(&mut valid_neighbors, x, y, z.wrapping_sub(1));
        self.push_if_valid(&mut valid_neighbors, x, y, z.wrapping_add(1));

        assert(valid_neighbors@ =~= self.neighbors_of(p));
        valid_neighbors
    }

    /// The coordinates `(x, y, z)` that `p` decodes to.
    fn coordinates(&self, p: usize) -> (c: (usize, usize, usize))
        requires
            self.wf(),
        ensures
            c.0 == p as nat % self.width as nat,
            c.1 == (p as nat / self.width as nat) % self.height as nat,
            c.2 == p as nat / (self.width * self.height) as nat,
    {
        assert(0 < self.width * self.height) by (nonlinear_arith)
            requires
                0 < self.width,
                0 < self.height,
        ;
        let x = p % self.width;
        let y = (p / self.width) % self.height;
        let z = p / (self.width * self.height);
        (x, y, z)
    }

    /// Appends the flat index of `(x, y, z)` where it lies inside the image.
    fn push_if_valid(&self, out: &mut Vec<usize>, x: usize, y: usize, z: usize)
        requires
            self.wf(),
        ensures
            final(out)@ == old(out)@ + self.voxel(x, y, z),
    {
        if self.is_valid(x, y, z) {
            out.push(self.to_index(x, y, z));
        }
        assert(out@ =~= old(out)@ + self.voxel(x, y, z));
    }

    #[inline]
    fn is_valid(&self, x: usize, y: usize, z: usize) -> (valid: bool)
        ensures
            valid == (x < self.width && y < self.height && z < self.depth),
    {
        x < self.width && y < self.height && z < self.depth
    }
}

} // verus!
