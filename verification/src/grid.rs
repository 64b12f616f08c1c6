//! A rectangular grid of 8-bit intensity values.

use vstd::prelude::*;

verus! {

/// A width x height grid of intensities, addressed by (x, y) with
/// x in [0, width) and y in [0, height), stored row-major.
pub struct Grid {
    pub width: usize,
    pub height: usize,
    pub data: Vec<u8>,
}

/// Row-major indices of distinct in-range coordinates are distinct.
pub proof fn lemma_row_major_injective(w: int, h: int, x1: int, y1: int, x2: int, y2: int)
    requires
        0 <= x1 < w,
        0 <= y1 < h,
        0 <= x2 < w,
        0 <= y2 < h,
        y1 * w + x1 == y2 * w + x2,
    ensures
        x1 == x2,
        y1 == y2,
{
    assert(x1 == x2 && y1 == y2) by (nonlinear_arith)
        requires
            0 <= x1 < w,
            0 <= y1 < h,
            0 <= x2 < w,
            0 <= y2 < h,
            y1 * w + x1 == y2 * w + x2,
    ;
}

/// The row-major index of an in-range coordinate is in range.
pub proof fn lemma_row_major_in_range(w: int, h: int, x: int, y: int)
    requires
        0 <= x < w,
        0 <= y < h,
    ensures
        0 <= y * w + x < w * h,
{
    assert(0 <= y * w + x < w * h) by (nonlinear_arith)
        requires
            0 <= x < w,
            0 <= y < h,
    ;
}

/// Full-grid passes visit the pixels with x outermost and y innermost:
/// step `k` of the scan lands on column `k / height`.
pub open spec fn scan_x(k: int, height: int) -> int {
    k / height
}

/// Step `k` of the scan lands on row `k % height`.
pub open spec fn scan_y(k: int, height: int) -> int {
    k % height
}

/// Coordinate (x, y) is visited at scan step x * height + y.
pub proof fn lemma_scan_step_of_coord(w: int, h: int, x: int, y: int)
    requires
        0 <= x < w,
        0 <= y < h,
    ensures
        0 <= x * h + y < w * h,
        scan_x(x * h + y, h) == x,
        scan_y(x * h + y, h) == y,
{
    assert(0 <= x * h + y < w * h) by (nonlinear_arith)
        requires
            0 <= x < w,
            0 <= y < h,
    ;
    vstd::arithmetic::div_mod::lemma_fundamental_div_mod_converse(x * h + y, h, x, y);
}

/// Every scan step lands on an in-range coordinate, and the step is
/// recovered from the coordinate.
pub proof fn lemma_scan_coord_in_range(w: int, h: int, k: int)
    requires
        0 <= w,
        0 <= h,
        0 <= k < w * h,
    ensures
        0 <= scan_x(k, h) < w,
        0 <= scan_y(k, h) < h,
        scan_x(k, h) * h + scan_y(k, h) == k,
{
    assert(0 < w && 0 < h) by (nonlinear_arith)
        requires
            0 <= w,
            0 <= h,
            0 <= k < w * h,
    ;
    vstd::arithmetic::div_mod::lemma_fundamental_div_mod(k, h);
    vstd::arithmetic::div_mod::lemma_mod_bound(k, h);
    let q = k / h;
    let r = k % h;
    assert(0 <= q < w) by (nonlinear_arith)
        requires
            k == h * q + r,
            0 <= r < h,
            0 <= k < w * h,
    ;
    assert(q * h + r == k) by (nonlinear_arith)
        requires
            k == h * q + r,
    ;
}

impl Grid {
    /// The grid is well formed when its backing vector holds exactly
    /// width * height values.
    pub open spec fn wf(self) -> bool {
        self.data@.len() == self.width * self.height
    }

    /// Whether (x, y) is an in-range coordinate.
    pub open spec fn valid(self, x: int, y: int) -> bool {
        0 <= x < self.width && 0 <= y < self.height
    }

    /// The intensity stored at (x, y).
    pub open spec fn pix(self, x: int, y: int) -> u8 {
        self.data@[y * self.width + x]
    }

    /// A grid of the given dimensions with every pixel set to `fill`.
    pub fn new(width: usize, height: usize, fill: u8) -> (g: Grid)
        requires
            width * height <= usize::MAX,
        ensures
            g.wf(),
            g.width == width,
            g.height == height,
            forall|x: int, y: int| g.valid(x, y) ==> g.pix(x, y) == fill,
    {
        let mut data: Vec<u8> = Vec::new();
        let total = width * height;
        let mut k: usize = 0;
        while k < total
            invariant
                k <= total,
                data@.len() == k,
                forall|j: int| 0 <= j < k ==> data@[j] == fill,
            decreases total - k,
        {
            data.push(fill);
            k = k + 1;
        }
        let g = Grid { width, height, data };
        proof {
            assert forall|x: int, y: int| g.valid(x, y) implies g.pix(x, y) == fill by {
                lemma_row_major_in_range(width as int, height as int, x, y);
            }
        }
        g
    }

    /// A grid over a caller-supplied row-major intensity vector.
    pub fn from_data(width: usize, height: usize, data: Vec<u8>) -> (g: Grid)
        requires
            data@.len() == width * height,
        ensures
            g.wf(),
            g.width == width,
            g.height == height,
            g.data@ == data@,
    {
        Grid { width, height, data }
    }

    /// Reads the intensity at (x, y).
    pub fn get(&self, x: usize, y: usize) -> (v: u8)
        requires
            self.wf(),
            self.valid(x as int, y as int),
        ensures
            v == self.pix(x as int, y as int),
    {
        proof {
            assert(self.data.len() == self.data@.len());
            lemma_row_major_in_range(
                self.width as int,
                self.height as int,
                x as int,
                y as int,
            );
        }
        self.data[y * self.width + x]
    }

    /// Writes intensity `v` at (x, y), leaving every other pixel unchanged.
    pub fn set(&mut self, x: usize, y: usize, v: u8)
        requires
            old(self).wf(),
            old(self).valid(x as int, y as int),
        ensures
            final(self).wf(),
            final(self).width == old(self).width,
            final(self).height == old(self).height,
            final(self).pix(x as int, y as int) == v,
            forall|x2: int, y2: int|
                old(self).valid(x2, y2) && (x2 != x || y2 != y)
                    ==> final(self).pix(x2, y2) == old(self).pix(x2, y2),
    {
        proof {
            assert(self.data.len() == self.data@.len());
            lemma_row_major_in_range(
                self.width as int,
                self.height as int,
                x as int,
                y as int,
            );
        }
        let idx = y * self.width + x;
        self.data[idx] = v;
        proof {
            assert forall|x2: int, y2: int|
                old(self).valid(x2, y2) && (x2 != x || y2 != y)
                implies final(self).pix(x2, y2) == old(self).pix(x2, y2) by {
                lemma_row_major_in_range(self.width as int, self.height as int, x2, y2);
                if y2 * self.width + x2 == y * self.width + x {
                    lemma_row_major_injective(
                        self.width as int,
                        self.height as int,
                        x2,
                        y2,
                        x as int,
                        y as int,
                    );
                }
            }
        }
    }
}

} // verus!
