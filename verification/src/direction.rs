//! D8 single-flow-direction resolver.
//!
//! Every valid cell is assigned the direction of its steepest downhill
//! neighbour among the 8 surrounding cells, scanned in a fixed order; the
//! first direction reaching the maximum positive slope wins ties, which makes
//! the output reproducible. A cell with no positive-slope neighbour is a pit
//! (code -1); a pit none of whose neighbours is nodata is an *interior* pit,
//! a diagnostic for unconditioned input.
//!
//! Slopes are drop / distance with distance = cell size along the cardinal
//! axes and the diagonal of the cell otherwise. Slope comparisons are done
//! exactly over integers: for positive drops a1, a2 and squared distances
//! s1, s2, a1/sqrt(s1) > a2/sqrt(s2) holds iff a1*a1*s2 > a2*a2*s1.

use vstd::prelude::*;

use crate::grid::Grid;

verus! {

/// Largest magnitude accepted for a valid cell's elevation value.
pub const ELEV_LIMIT: i64 = 0x100_0000_0000;

/// Largest accepted cell size along either axis.
pub const SIZE_LIMIT: i64 = 0x10_0000;

/// Row offset of neighbour `i` in the fixed scan order
/// (NE, E, SE, S, SW, W, NW, N).
pub open spec fn off_r(i: int) -> int {
    if i == 0 {
        -1
    } else if i == 1 {
        0
    } else if i == 2 {
        1
    } else if i == 3 {
        1
    } else if i == 4 {
        1
    } else if i == 5 {
        0
    } else if i == 6 {
        -1
    } else {
        -1
    }
}

/// Column offset of neighbour `i` in the fixed scan order.
pub open spec fn off_c(i: int) -> int {
    if i == 0 {
        1
    } else if i == 1 {
        1
    } else if i == 2 {
        1
    } else if i == 3 {
        0
    } else if i == 4 {
        -1
    } else if i == 5 {
        -1
    } else if i == 6 {
        -1
    } else {
        0
    }
}

/// The value read at neighbour `i` of cell (r, c); nodata outside the grid.
pub open spec fn nbr_at(dem: Grid, r: int, c: int, i: int) -> i64 {
    dem.at(r + off_r(i), c + off_c(i))
}

/// Squared distance to neighbour `i` for cell sizes sx (columns) and sy
/// (rows): sx^2 east/west, sy^2 north/south, sx^2 + sy^2 on the diagonals.
pub open spec fn dist2(i: int, sx: int, sy: int) -> int {
    if i == 1 || i == 5 {
        sx * sx
    } else if i == 3 || i == 7 {
        sy * sy
    } else {
        sx * sx + sy * sy
    }
}

/// Elevation drop from (r, c) toward neighbour `i`.
pub open spec fn drop_at(dem: Grid, r: int, c: int, i: int) -> int {
    dem.at(r, c) - nbr_at(dem, r, c, i)
}

/// Neighbour `i` receives flow candidacy: it carries data and lies strictly
/// below the cell, i.e. the slope toward it is positive.
pub open spec fn is_cand(dem: Grid, r: int, c: int, i: int) -> bool {
    nbr_at(dem, r, c, i) != dem.nodata && drop_at(dem, r, c, i) > 0
}

/// Exact comparison of two positive slopes a1/sqrt(s1) and a2/sqrt(s2).
pub open spec fn steeper(a1: int, s1: int, a2: int, s2: int) -> bool {
    a1 * a1 * s2 > a2 * a2 * s1
}

/// Steepest candidate among the first `n` neighbours, folded in scan order:
/// a later candidate replaces the best so far only when strictly steeper, so
/// the first of equally steep candidates wins. -1 when none is a candidate.
pub open spec fn best_upto(dem: Grid, sx: int, sy: int, r: int, c: int, n: int) -> int
    decreases n,
{
    if n <= 0 {
        -1
    } else {
        let prev = best_upto(dem, sx, sy, r, c, n - 1);
        let i = n - 1;
        if is_cand(dem, r, c, i) && (prev == -1 || steeper(
            drop_at(dem, r, c, i),
            dist2(i, sx, sy),
            drop_at(dem, r, c, prev),
            dist2(prev, sx, sy),
        )) {
            i
        } else {
            prev
        }
    }
}

/// The direction assigned to (r, c): the steepest-descent neighbour index for
/// a valid cell, -1 for a pit and for any cell without data.
pub open spec fn dir_of(dem: Grid, sx: int, sy: int, r: int, c: int) -> int {
    if dem.is_valid(r, c) {
        best_upto(dem, sx, sy, r, c, 8)
    } else {
        -1
    }
}

/// Some neighbour of (r, c) reads as nodata (including the virtual frame
/// outside the grid).
pub open spec fn has_nodata_nbr(dem: Grid, r: int, c: int) -> bool {
    exists|i: int| 0 <= i < 8 && nbr_at(dem, r, c, i) == dem.nodata
}

/// Some neighbour of (r, c) is a downhill candidate.
pub open spec fn has_candidate(dem: Grid, r: int, c: int) -> bool {
    exists|i: int| 0 <= i < 8 && is_cand(dem, r, c, i)
}

/// A pit entirely surrounded by data cells: such a cell signals an
/// unresolved depression in the source surface.
pub open spec fn is_interior_pit(dem: Grid, r: int, c: int) -> bool {
    dem.is_valid(r, c) && !has_candidate(dem, r, c) && !has_nodata_nbr(dem, r, c)
}

/// Every valid cell's elevation is within the accepted magnitude.
pub open spec fn elev_bounded(dem: Grid) -> bool {
    forall|r: int, c: int|
        dem.is_valid(r, c) ==> -ELEV_LIMIT <= #[trigger] dem.at(r, c) <= ELEV_LIMIT
}

/// The fold result is always -1 or a candidate index below `n`.
pub proof fn lemma_best_upto_cand(dem: Grid, sx: int, sy: int, r: int, c: int, n: int)
    requires
        0 <= n <= 8,
    ensures
        best_upto(dem, sx, sy, r, c, n) == -1 || (0 <= best_upto(dem, sx, sy, r, c, n) < n
            && is_cand(dem, r, c, best_upto(dem, sx, sy, r, c, n))),
    decreases n,
{
    if n > 0 {
        lemma_best_upto_cand(dem, sx, sy, r, c, n - 1);
    }
}

/// The fold returns -1 exactly when no neighbour below `n` is a candidate.
pub proof fn lemma_best_upto_none(dem: Grid, sx: int, sy: int, r: int, c: int, n: int)
    requires
        0 <= n <= 8,
    ensures
        (best_upto(dem, sx, sy, r, c, n) == -1) <==> (forall|i: int|
            0 <= i < n ==> !is_cand(dem, r, c, i)),
    decreases n,
{
    if n > 0 {
        lemma_best_upto_none(dem, sx, sy, r, c, n - 1);
    }
}

/// Squared distance to neighbour `i`, computed exactly.
fn dist2_of(i: usize, sx: i64, sy: i64) -> (s: i64)
    requires
        i < 8,
        1 <= sx <= SIZE_LIMIT,
        1 <= sy <= SIZE_LIMIT,
    ensures
        s == dist2(i as int, sx as int, sy as int),
        1 <= s <= 2 * SIZE_LIMIT * SIZE_LIMIT,
{
    proof {
        assert(1 <= sx * sx <= SIZE_LIMIT * SIZE_LIMIT) by (nonlinear_arith)
            requires
                1 <= sx <= SIZE_LIMIT,
        ;
        assert(1 <= sy * sy <= SIZE_LIMIT * SIZE_LIMIT) by (nonlinear_arith)
            requires
                1 <= sy <= SIZE_LIMIT,
        ;
    }
    if i == 1 || i == 5 {
        sx * sx
    } else if i == 3 || i == 7 {
        sy * sy
    } else {
        sx * sx + sy * sy
    }
}

/// Exact comparison of two positive slopes given as drop and squared
/// distance.
fn steeper_than(a1: i64, s1: i64, a2: i64, s2: i64) -> (b: bool)
    requires
        0 < a1 <= 2 * ELEV_LIMIT,
        0 < a2 <= 2 * ELEV_LIMIT,
        1 <= s1 <= 2 * SIZE_LIMIT * SIZE_LIMIT,
        1 <= s2 <= 2 * SIZE_LIMIT * SIZE_LIMIT,
    ensures
        b == steeper(a1 as int, s1 as int, a2 as int, s2 as int),
{
    proof {
        assert(0 < (a1 as int) * (a1 as int) <= 4 * ELEV_LIMIT * ELEV_LIMIT) by (nonlinear_arith)
            requires
                0 < a1 <= 2 * ELEV_LIMIT,
        ;
        assert(0 < (a2 as int) * (a2 as int) <= 4 * ELEV_LIMIT * ELEV_LIMIT) by (nonlinear_arith)
            requires
                0 < a2 <= 2 * ELEV_LIMIT,
        ;
        assert((a1 as int) * (a1 as int) * (s2 as int) < i128::MAX) by (nonlinear_arith)
            requires
                0 < (a1 as int) * (a1 as int) <= 4 * ELEV_LIMIT * ELEV_LIMIT,
                1 <= s2 <= 2 * SIZE_LIMIT * SIZE_LIMIT,
        ;
        assert((a2 as int) * (a2 as int) * (s1 as int) < i128::MAX) by (nonlinear_arith)
            requires
                0 < (a2 as int) * (a2 as int) <= 4 * ELEV_LIMIT * ELEV_LIMIT,
                1 <= s1 <= 2 * SIZE_LIMIT * SIZE_LIMIT,
        ;
    }
    let lhs: i128 = (a1 as i128) * (a1 as i128) * (s2 as i128);
    let rhs: i128 = (a2 as i128) * (a2 as i128) * (s1 as i128);
    lhs > rhs
}

/// Row and column offsets of neighbour `i`.
pub fn offset_of(i: usize) -> (d: (i64, i64))
    requires
        i < 8,
    ensures
        d.0 == off_r(i as int),
        d.1 == off_c(i as int),
{
    if i == 0 {
        (-1, 1)
    } else if i == 1 {
        (0, 1)
    } else if i == 2 {
        (1, 1)
    } else if i == 3 {
        (1, 0)
    } else if i == 4 {
        (1, -1)
    } else if i == 5 {
        (0, -1)
    } else if i == 6 {
        (-1, -1)
    } else {
        (-1, 0)
    }
}

/// Resolves one cell: its direction code, and (for a valid cell) whether any
/// of its neighbours reads as nodata.
pub fn resolve_cell(dem: &Grid, sx: i64, sy: i64, r: i64, c: i64) -> (out: (i64, bool))
    requires
        dem.wf(),
        elev_bounded(*dem),
        1 <= sx <= SIZE_LIMIT,
        1 <= sy <= SIZE_LIMIT,
        -MAX_DIM_I <= r <= MAX_DIM_I,
        -MAX_DIM_I <= c <= MAX_DIM_I,
    ensures
        out.0 == dir_of(*dem, sx as int, sy as int, r as int, c as int),
        dem.is_valid(r as int, c as int) ==> out.1 == has_nodata_nbr(*dem, r as int, c as int),
{
    let z: i64 = dem.get(r, c);
    if z == dem.nodata_value() || !(r >= 0 && c >= 0 && (r as u64) < (dem.num_rows() as u64) && (
    c as u64) < (dem.num_cols() as u64)) {
        return (-1, false);
    }
    let mut best: i64 = -1;
    let mut best_drop: i64 = 0;
    let mut best_s: i64 = 1;
    let mut nn: bool = false;
    let mut i: usize = 0;
    while i < 8
        invariant
            dem.wf(),
            elev_bounded(*dem),
            1 <= sx <= SIZE_LIMIT,
            1 <= sy <= SIZE_LIMIT,
            -MAX_DIM_I <= r <= MAX_DIM_I,
            -MAX_DIM_I <= c <= MAX_DIM_I,
            dem.is_valid(r as int, c as int),
            z == dem.at(r as int, c as int),
            i <= 8,
            -1 <= best < 8,
            best as int == best_upto(*dem, sx as int, sy as int, r as int, c as int, i as int),
            best >= 0 ==> {
                &&& is_cand(*dem, r as int, c as int, best as int)
                &&& best_drop as int == drop_at(*dem, r as int, c as int, best as int)
                &&& best_s as int == dist2(best as int, sx as int, sy as int)
                &&& 0 < best_drop <= 2 * ELEV_LIMIT
                &&& 1 <= best_s <= 2 * SIZE_LIMIT * SIZE_LIMIT
            },
            nn == exists|j: int|
                0 <= j < i && nbr_at(*dem, r as int, c as int, j) == dem.nodata,
        decreases 8 - i,
    {
        let (dr, dc) = offset_of(i);
        let zn: i64 = dem.get(r + dr, c + dc);
        if zn != dem.nodata_value() {
            if z > zn {
                let drop: i64 = z - zn;
                let s: i64 = dist2_of(i, sx, sy);
                if best < 0 || steeper_than(drop, s, best_drop, best_s) {
                    best = i as i64;
                    best_drop = drop;
                    best_s = s;
                }
            }
        } else {
            nn = true;
            proof {
                assert(nbr_at(*dem, r as int, c as int, i as int) == dem.nodata);
            }
        }
        i = i + 1;
    }
    (best, nn)
}

/// Column bound used to keep exec coordinate arithmetic inside `i64`.
pub const MAX_DIM_I: i64 = 0x7fff_ffff;

/// Resolves one full row of the grid: the direction codes of its cells, and
/// whether the row contains an interior pit. Rows are independent of one
/// another, so callers may resolve them in any order, or concurrently, and
/// assemble the same grid.
pub fn d8_row(dem: &Grid, sx: i64, sy: i64, r: i64) -> (out: (Vec<i64>, bool))
    requires
        dem.wf(),
        elev_bounded(*dem),
        1 <= sx <= SIZE_LIMIT,
        1 <= sy <= SIZE_LIMIT,
        0 <= r < dem.rows,
    ensures
        out.0@.len() == dem.cols,
        forall|c: int|
            0 <= c < dem.cols ==> out.0@[c] == dir_of(*dem, sx as int, sy as int, r as int, c),
        out.1 == exists|c: int| 0 <= c < dem.cols && is_interior_pit(*dem, r as int, c),
{
    let cols: usize = dem.num_cols();
    let mut row: Vec<i64> = Vec::new();
    let mut pit: bool = false;
    let mut c: usize = 0;
    while c < cols
        invariant
            dem.wf(),
            elev_bounded(*dem),
            1 <= sx <= SIZE_LIMIT,
            1 <= sy <= SIZE_LIMIT,
            0 <= r < dem.rows,
            cols == dem.cols,
            c <= cols,
            row@.len() == c,
            forall|cc: int|
                0 <= cc < c ==> row@[cc] == dir_of(*dem, sx as int, sy as int, r as int, cc),
            pit == exists|cc: int| 0 <= cc < c && is_interior_pit(*dem, r as int, cc),
        decreases cols - c,
    {
        let ci: i64 = c as i64;
        let (d, nn) = resolve_cell(dem, sx, sy, r, ci);
        row.push(d);
        let z: i64 = dem.get(r, ci);
        proof {
            lemma_best_upto_none(*dem, sx as int, sy as int, r as int, ci as int, 8);
        }
        if z != dem.nodata_value() && d == -1 && !nn {
            pit = true;
            proof {
                assert(is_interior_pit(*dem, r as int, ci as int));
            }
        } else {
            proof {
                assert(!is_interior_pit(*dem, r as int, ci as int));
            }
        }
        c = c + 1;
    }
    (row, pit)
}

/// `dg` is the direction grid of `dem` for cell sizes sx, sy: same shape,
/// pit/nodata code -1, and every cell resolved by steepest descent in the
/// fixed scan order.
pub open spec fn is_direction_grid(dem: Grid, sx: int, sy: int, dg: Grid) -> bool {
    &&& dg.wf()
    &&& dg.rows == dem.rows
    &&& dg.cols == dem.cols
    &&& dg.nodata == -1
    &&& forall|r: int, c: int|
        dem.in_bounds(r, c) ==> #[trigger] dg.at(r, c) == dir_of(dem, sx, sy, r, c)
}

/// Resolves the whole grid: the direction grid, and whether any cell is an
/// interior pit.
pub fn d8_directions(dem: &Grid, sx: i64, sy: i64) -> (out: (Grid, bool))
    requires
        dem.wf(),
        elev_bounded(*dem),
        1 <= sx <= SIZE_LIMIT,
        1 <= sy <= SIZE_LIMIT,
    ensures
        is_direction_grid(*dem, sx as int, sy as int, out.0),
        out.1 == exists|r: int, c: int| is_interior_pit(*dem, r, c),
{
    let rows: usize = dem.num_rows();
    let cols: usize = dem.num_cols();
    let n: usize = dem.data.len();
    let mut dg = Grid::new(rows, cols, -1, -1);
    let mut pit: bool = false;
    let mut r: usize = 0;
    while r < rows
        invariant
            dem.wf(),
            elev_bounded(*dem),
            1 <= sx <= SIZE_LIMIT,
            1 <= sy <= SIZE_LIMIT,
            rows == dem.rows,
            cols == dem.cols,
            r <= rows,
            dg.wf(),
            dg.rows == rows,
            dg.cols == cols,
            dg.nodata == -1,
            forall|rr: int, cc: int|
                0 <= rr < r && 0 <= cc < cols ==> #[trigger] dg.at(rr, cc) == dir_of(
                    *dem,
                    sx as int,
                    sy as int,
                    rr,
                    cc,
                ),
            pit == exists|rr: int, cc: int| 0 <= rr < r && is_interior_pit(*dem, rr, cc),
        decreases rows - r,
    {
        let ri: i64 = r as i64;
        let (rowv, rpit) = d8_row(dem, sx, sy, ri);
        let mut c: usize = 0;
        while c < cols
            invariant
                dem.wf(),
                rows == dem.rows,
                cols == dem.cols,
                r < rows,
                ri == r,
                c <= cols,
                rowv@.len() == cols,
                forall|cc: int|
                    0 <= cc < cols ==> rowv@[cc] == dir_of(*dem, sx as int, sy as int, r as int, cc),
                dg.wf(),
                dg.rows == rows,
                dg.cols == cols,
                dg.nodata == -1,
                forall|rr: int, cc: int|
                    0 <= rr < r && 0 <= cc < cols ==> #[trigger] dg.at(rr, cc) == dir_of(
                        *dem,
                        sx as int,
                        sy as int,
                        rr,
                        cc,
                    ),
                forall|cc: int|
                    0 <= cc < c ==> #[trigger] dg.at(r as int, cc) == dir_of(
                        *dem,
                        sx as int,
                        sy as int,
                        r as int,
                        cc,
                    ),
            decreases cols - c,
        {
            dg.set(ri, c as i64, rowv[c]);
            c = c + 1;
        }
        if rpit {
            pit = true;
        }
        proof {
            if !pit {
                assert forall|rr: int, cc: int|
                    !(0 <= rr < r + 1 && is_interior_pit(*dem, rr, cc)) by {
                    if 0 <= rr < r + 1 && is_interior_pit(*dem, rr, cc) {
                        assert(0 <= cc < dem.cols);
                    }
                }
            }
        }
        r = r + 1;
    }
    proof {
        if pit {
        } else {
            assert forall|rr: int, cc: int| !is_interior_pit(*dem, rr, cc) by {
                if is_interior_pit(*dem, rr, cc) {
                    assert(0 <= rr < rows && 0 <= cc < cols);
                }
            }
        }
    }
    (dg, pit)
}

/// The direction grid is a function of the elevation grid and the cell sizes
/// alone: any two grids meeting [`is_direction_grid`] for the same input are
/// identical, cell for cell and bit for bit, however their rows were
/// computed or assembled.
pub proof fn lemma_directions_deterministic(dem: Grid, sx: int, sy: int, g1: Grid, g2: Grid)
    requires
        is_direction_grid(dem, sx, sy, g1),
        is_direction_grid(dem, sx, sy, g2),
    ensures
        g1.data@ == g2.data@,
        g1.rows == g2.rows,
        g1.cols == g2.cols,
        g1.nodata == g2.nodata,
{
    assert(g1.data@.len() == g2.data@.len());
    assert forall|idx: int| 0 <= idx < g1.data@.len() implies g1.data@[idx] == g2.data@[idx] by {
        let cols = g1.cols as int;
        vstd::arithmetic::div_mod::lemma_fundamental_div_mod(idx, cols);
        vstd::arithmetic::div_mod::lemma_mod_bound(idx, cols);
        vstd::arithmetic::div_mod::lemma_div_pos_is_pos(idx, cols);
        let r = idx / cols;
        let c = idx % cols;
        assert(r < g1.rows) by (nonlinear_arith)
            requires
                idx == cols * r + c,
                0 <= c < cols,
                0 <= idx < g1.rows * cols,
                0 <= r,
        ;
        assert(cols * r == r * cols) by (nonlinear_arith);
        assert(g1.pos(r, c) == idx);
        g1.lemma_pos_in_range(r, c);
        g2.lemma_pos_in_range(r, c);
        assert(g1.at(r, c) == g2.at(r, c));
    }
    assert(g1.data@ =~= g2.data@);
}

/// Every cell of a direction grid carries a code in -1..=7; a cell without
/// data carries -1; and a non-pit code points at a valid neighbour lying
/// strictly below the cell. The induced flow relation therefore admits no
/// cycle.
pub open spec fn points_downhill(dem: Grid, dg: Grid) -> bool {
    &&& dg.rows == dem.rows
    &&& dg.cols == dem.cols
    &&& dg.nodata == -1
    &&& forall|r: int, c: int|
        dem.in_bounds(r, c) ==> {
            let d = #[trigger] dg.at(r, c) as int;
            &&& -1 <= d < 8
            &&& (!dem.is_valid(r, c) ==> d == -1)
            &&& (d >= 0 ==> dem.is_valid(r + off_r(d), c + off_c(d)) && dem.at(
                r + off_r(d),
                c + off_c(d),
            ) < dem.at(r, c))
        }
}

/// What the resolver assigns always points strictly downhill.
pub proof fn lemma_direction_grid_downhill(dem: Grid, sx: int, sy: int, dg: Grid)
    requires
        is_direction_grid(dem, sx, sy, dg),
    ensures
        points_downhill(dem, dg),
{
    assert forall|r: int, c: int| dem.in_bounds(r, c) implies {
        let d = #[trigger] dg.at(r, c) as int;
        &&& -1 <= d < 8
        &&& (!dem.is_valid(r, c) ==> d == -1)
        &&& (d >= 0 ==> dem.is_valid(r + off_r(d), c + off_c(d)) && dem.at(
            r + off_r(d),
            c + off_c(d),
        ) < dem.at(r, c))
    } by {
        assert(dg.at(r, c) == dir_of(dem, sx, sy, r, c));
        lemma_best_upto_cand(dem, sx, sy, r, c, 8);
        let d = dg.at(r, c) as int;
        if dem.is_valid(r, c) && d >= 0 {
            assert(is_cand(dem, r, c, d));
            assert(nbr_at(dem, r, c, d) != dem.nodata);
            assert(dem.in_bounds(r + off_r(d), c + off_c(d)));
        }
    }
}

/// Whenever some valid cell is a pit with no nodata neighbour, the resolver
/// raises the interior-pit diagnostic, and that cell's code is -1.
pub proof fn lemma_interior_pit_flagged(
    dem: Grid,
    sx: int,
    sy: int,
    dg: Grid,
    pit: bool,
    r: int,
    c: int,
)
    requires
        is_direction_grid(dem, sx, sy, dg),
        pit == exists|rr: int, cc: int| is_interior_pit(dem, rr, cc),
        is_interior_pit(dem, r, c),
    ensures
        pit,
        dg.at(r, c) == -1,
{
    lemma_best_upto_none(dem, sx, sy, r, c, 8);
}

} // verus!
