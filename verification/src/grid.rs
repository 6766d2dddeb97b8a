//! Bounds-safe 2D grid of signed integer cell values with a nodata sentinel.
//!
//! A `Grid` stores `rows * cols` values in row-major order. Reads through
//! [`Grid::get`] accept any coordinate and hand back the nodata sentinel for
//! out-of-bounds requests, which lets 8-neighbour scans run without explicit
//! edge checks.

use vstd::prelude::*;

verus! {

/// Largest accepted row or column count. Keeps every coordinate computation
/// comfortably inside `i64` and `usize` on all targets.
pub const MAX_DIM: usize = 0x7fff_ffff;

/// Error raised when companion grids disagree in shape. Such a mismatch is a
/// caller contract violation and is reported before any computation begins.
#[derive(Clone, Copy, Debug, PartialEq, Eq, Structural)]
pub enum GridError {
    DimensionMismatch,
}

/// A rows x cols raster of `i64` cell values with a nodata sentinel.
pub struct Grid {
    pub rows: usize,
    pub cols: usize,
    pub nodata: i64,
    pub data: Vec<i64>,
}

impl Grid {
    /// Structural well-formedness: the backing vector matches the declared
    /// shape and both dimensions are small enough for safe index arithmetic.
    pub open spec fn wf(&self) -> bool {
        &&& self.data@.len() == self.rows * self.cols
        &&& self.rows <= MAX_DIM
        &&& self.cols <= MAX_DIM
    }

    pub open spec fn in_bounds(&self, r: int, c: int) -> bool {
        0 <= r < self.rows && 0 <= c < self.cols
    }

    /// Row-major position of an in-bounds coordinate.
    pub open spec fn pos(&self, r: int, c: int) -> int {
        r * self.cols + c
    }

    /// The value read at any coordinate: the stored value in bounds, the
    /// nodata sentinel outside.
    pub open spec fn at(&self, r: int, c: int) -> i64 {
        if self.in_bounds(r, c) {
            self.data@[self.pos(r, c)]
        } else {
            self.nodata
        }
    }

    /// An in-bounds cell carrying real data (not the nodata sentinel).
    pub open spec fn is_valid(&self, r: int, c: int) -> bool {
        self.in_bounds(r, c) && self.at(r, c) != self.nodata
    }

    pub open spec fn same_shape(&self, other: &Grid) -> bool {
        self.rows == other.rows && self.cols == other.cols
    }

    /// Every in-bounds coordinate maps to a backing index inside the vector.
    pub proof fn lemma_pos_in_range(&self, r: int, c: int)
        requires
            self.wf(),
            self.in_bounds(r, c),
        ensures
            0 <= self.pos(r, c) < self.data@.len(),
    {
        assert(r * self.cols + c < self.rows * self.cols) by (nonlinear_arith)
            requires
                0 <= r < self.rows,
                0 <= c < self.cols,
        ;
        assert(0 <= r * self.cols) by (nonlinear_arith)
            requires
                0 <= r,
                0 <= self.cols,
        ;
    }

    /// Distinct in-bounds coordinates occupy distinct backing indices.
    pub proof fn lemma_pos_injective(&self, r1: int, c1: int, r2: int, c2: int)
        requires
            self.wf(),
            self.in_bounds(r1, c1),
            self.in_bounds(r2, c2),
            self.pos(r1, c1) == self.pos(r2, c2),
        ensures
            r1 == r2 && c1 == c2,
    {
        assert(r1 == r2 && c1 == c2) by (nonlinear_arith)
            requires
                0 <= r1 < self.rows,
                0 <= c1 < self.cols,
                0 <= r2 < self.rows,
                0 <= c2 < self.cols,
                r1 * self.cols + c1 == r2 * self.cols + c2,
        ;
    }

    /// Allocates a grid with every cell set to `fill`.
    pub fn new(rows: usize, cols: usize, nodata: i64, fill: i64) -> (g: Grid)
        requires
            rows <= MAX_DIM,
            cols <= MAX_DIM,
            rows * cols <= usize::MAX,
        ensures
            g.wf(),
            g.rows == rows,
            g.cols == cols,
            g.nodata == nodata,
            forall|r: int, c: int| g.in_bounds(r, c) ==> g.at(r, c) == fill,
            forall|k: int| 0 <= k < rows * cols ==> g.data@[k] == fill,
    {
        let n: usize = rows * cols;
        let data: Vec<i64> = vec![fill; n];
        let g = Grid { rows, cols, nodata, data };
        proof {
            assert forall|r: int, c: int| g.in_bounds(r, c) implies g.at(r, c) == fill by {
                g.lemma_pos_in_range(r, c);
            }
        }
        g
    }

    /// Builds a grid from row-major cell values.
    pub fn from_values(rows: usize, cols: usize, nodata: i64, data: Vec<i64>) -> (g: Grid)
        requires
            rows <= MAX_DIM,
            cols <= MAX_DIM,
            data@.len() == rows * cols,
        ensures
            g.wf(),
            g.rows == rows,
            g.cols == cols,
            g.nodata == nodata,
            forall|r: int, c: int|
                g.in_bounds(r, c) ==> g.at(r, c) == data@[r * cols + c],
    {
        Grid { rows, cols, nodata, data }
    }

    pub fn num_rows(&self) -> (n: usize)
        ensures
            n == self.rows,
    {
        self.rows
    }

    pub fn num_cols(&self) -> (n: usize)
        ensures
            n == self.cols,
    {
        self.cols
    }

    pub fn nodata_value(&self) -> (v: i64)
        ensures
            v == self.nodata,
    {
        self.nodata
    }

    /// Bounds-safe read: the stored value in bounds, the nodata sentinel for
    /// any coordinate outside the grid.
    pub fn get(&self, r: i64, c: i64) -> (v: i64)
        requires
            self.wf(),
        ensures
            v == self.at(r as int, c as int),
    {
        if r >= 0 && c >= 0 && (r as u64) < (self.rows as u64) && (c as u64) < (self.cols as u64) {
            let len: usize = self.data.len();
            proof {
                self.lemma_pos_in_range(r as int, c as int);
            }
            let i: usize = (r as usize) * self.cols + (c as usize);
            self.data[i]
        } else {
            self.nodata
        }
    }

    /// Backing index of an in-bounds coordinate.
    pub fn pos_of(&self, r: i64, c: i64) -> (i: usize)
        requires
            self.wf(),
            self.in_bounds(r as int, c as int),
        ensures
            i == self.pos(r as int, c as int),
            i < self.data@.len(),
    {
        let len: usize = self.data.len();
        proof {
            self.lemma_pos_in_range(r as int, c as int);
        }
        (r as usize) * self.cols + (c as usize)
    }

    /// Writes one in-bounds cell, leaving every other cell untouched.
    pub fn set(&mut self, r: i64, c: i64, v: i64)
        requires
            old(self).wf(),
            old(self).in_bounds(r as int, c as int),
        ensures
            final(self).wf(),
            final(self).rows == old(self).rows,
            final(self).cols == old(self).cols,
            final(self).nodata == old(self).nodata,
            final(self).at(r as int, c as int) == v,
            forall|rr: int, cc: int|
                !(rr == r as int && cc == c as int)
                    ==> final(self).at(rr, cc) == old(self).at(rr, cc),
            final(self).data@ == old(self).data@.update(old(self).pos(r as int, c as int), v),
    {
        let len: usize = self.data.len();
        proof {
            self.lemma_pos_in_range(r as int, c as int);
        }
        let i: usize = (r as usize) * self.cols + (c as usize);
        self.data[i] = v;
        proof {
            assert forall|rr: int, cc: int|
                !(rr == r as int && cc == c as int) implies self.at(rr, cc) == old(self).at(
                rr,
                cc,
            ) by {
                if self.in_bounds(rr, cc) {
                    self.lemma_pos_in_range(rr, cc);
                    if self.pos(rr, cc) == self.pos(r as int, c as int) {
                        self.lemma_pos_injective(rr, cc, r as int, c as int);
                    }
                }
            }
        }
    }
}

} // verus!
