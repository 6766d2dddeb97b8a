//! Priority-flood depression filling and depth-in-sink derivation.
//!
//! The filled surface is grown inward from the grid border: a FIFO sweep
//! seeds every cell adjacent to the virtual nodata frame (continuing through
//! nodata regions connected to it), then a flood repeatedly takes the
//! lowest-keyed open cell and raises each untouched valid neighbour to at
//! least its own level — the depression-filling rule. Every flooded cell
//! therefore lies at or above its original elevation and can shed water
//! along a non-ascending path to the edge of the data.

use vstd::prelude::*;

use crate::accumulate::{inv_code, lemma_inv_code_props};
use crate::direction::{off_c, off_r, offset_of, ELEV_LIMIT};
use crate::grid::Grid;
use std::collections::VecDeque;

verus! {

/// (r2, c2) is one of the eight neighbours of (r1, c1).
pub open spec fn adjacent8(r1: int, c1: int, r2: int, c2: int) -> bool {
    exists|i: int| 0 <= i < 8 && r2 == r1 + off_r(i) && c2 == c1 + off_c(i)
}

/// A cell on the grid's outer ring.
pub open spec fn border_cell(dem: Grid, r: int, c: int) -> bool {
    dem.in_bounds(r, c) && (r == 0 || r == dem.rows - 1 || c == 0 || c == dem.cols - 1)
}

/// The virtual frame cell just outside the grid through which a border
/// cell is first reached during seeding.
pub(crate) open spec fn frame_of(dem: Grid, r: int, c: int) -> (int, int) {
    if r == 0 {
        (-1, c)
    } else if r == dem.rows - 1 {
        (dem.rows as int, c)
    } else if c == 0 {
        (r, -1)
    } else {
        (r, dem.cols as int)
    }
}

/// A drainage path for (r, c) in the filled surface: it starts at the cell,
/// runs over valid 8-adjacent cells with non-ascending filled values, ends
/// at an outside outlet, and the cell's filled value is exactly the highest
/// original elevation met along it.
pub open spec fn drain_path(
    dem: Grid,
    filled: Grid,
    path: Seq<(int, int)>,
    r: int,
    c: int,
) -> bool {
    &&& path.len() >= 1
    &&& path[0].0 == r && path[0].1 == c
    &&& (forall|j: int| 0 <= j < path.len() ==> dem.is_valid((#[trigger] path[j]).0, path[j].1))
    &&& (forall|j: int|
        1 <= j < path.len() ==> adjacent8(
            path[j - 1].0,
            path[j - 1].1,
            (#[trigger] path[j]).0,
            path[j].1,
        ))
    &&& (forall|j: int|
        1 <= j < path.len() ==> filled.at((#[trigger] path[j]).0, path[j].1) <= filled.at(
            path[j - 1].0,
            path[j - 1].1,
        ))
    &&& (forall|j: int|
        0 <= j < path.len() ==> dem.at((#[trigger] path[j]).0, path[j].1) <= filled.at(r, c))
    &&& (exists|j: int|
        0 <= j < path.len() && dem.at((#[trigger] path[j]).0, path[j].1) == filled.at(r, c))
    &&& outside_linked(dem, path[path.len() - 1].0, path[path.len() - 1].1)
}

/// Some drainage path exists for (r, c).
pub open spec fn drains(dem: Grid, filled: Grid, r: int, c: int) -> bool {
    exists|path: Seq<(int, int)>| drain_path(dem, filled, path, r, c)
}

/// Every cell of the path is already resolved in the mask.
pub(crate) open spec fn path_resolved(dem: Grid, rs: Seq<bool>, path: Seq<(int, int)>) -> bool {
    forall|j: int|
        0 <= j < path.len() ==> rs[dem.pos((#[trigger] path[j]).0, path[j].1)] == true
}

/// A drainage path through already-resolved cells exists for (r, c).
pub(crate) open spec fn live_drains(dem: Grid, filled: Grid, rs: Seq<bool>, r: int, c: int) -> bool {
    exists|path: Seq<(int, int)>|
        #[trigger] drain_path(dem, filled, path, r, c) && path_resolved(dem, rs, path)
}

/// `filled` is a depression-filled surface over `dem`: same shape, nodata
/// passes through, no valid cell lies below its original elevation, a
/// raised cell always drains — it sheds water over valid cells, never
/// ascending, to the edge of the data, its level being exactly the highest
/// original elevation on the way out — outlet cells (valid cells on the
/// outer ring or beside nodata that runs out to it) are never raised at
/// all, every cell that reaches an outlet through valid cells drains
/// (raised or not), and no such cell rises above its spill level: along
/// every valid chain to an outlet some original elevation matches or
/// exceeds the cell's level. Together the last two pin the fill exactly on
/// outlet-connected terrain: each cell's level is the least, over all
/// escape routes out of the data, of the highest elevation that route must
/// climb over. A nodata hole sealed inside the data is no outlet: water
/// does not drain into it, and cells beside it fill over their rim like any
/// others.
pub open spec fn filled_surface(dem: Grid, filled: Grid) -> bool {
    &&& filled.wf()
    &&& filled.rows == dem.rows
    &&& filled.cols == dem.cols
    &&& filled.nodata == dem.nodata
    &&& forall|r: int, c: int|
        dem.in_bounds(r, c) && !dem.is_valid(r, c) ==> #[trigger] filled.at(r, c) == dem.nodata
    &&& forall|r: int, c: int|
        dem.is_valid(r, c) ==> #[trigger] filled.at(r, c) >= dem.at(r, c)
    &&& forall|r: int, c: int|
        dem.is_valid(r, c) ==> #[trigger] filled.at(r, c) == dem.at(r, c) || drains(
            dem,
            filled,
            r,
            c,
        )
    &&& forall|r: int, c: int|
        dem.is_valid(r, c) && #[trigger] outside_linked(dem, r, c) ==> filled.at(r, c) == dem.at(
            r,
            c,
        )
    &&& forall|r: int, c: int|
        dem.is_valid(r, c) && #[trigger] edge_linked(dem, r, c) ==> drains(dem, filled, r, c)
    &&& forall|path: Seq<(int, int)>|
        #[trigger] valid_chain(dem, path) && outside_linked(
            dem,
            path[path.len() - 1].0,
            path[path.len() - 1].1,
        ) ==> exists|j: int|
            0 <= j < path.len() && dem.at((#[trigger] path[j]).0, path[j].1) >= filled.at(
                path[0].0,
                path[0].1,
            )
}

/// Number of still-unresolved positions among the first `n`.
pub(crate) open spec fn unresolved_count(rs: Seq<bool>, n: int) -> int
    decreases n,
{
    if n <= 0 {
        0
    } else {
        unresolved_count(rs, n - 1) + if rs[n - 1] {
            0int
        } else {
            1int
        }
    }
}

/// The unresolved count is non-negative, and resolving one position lowers
/// it by exactly one.
pub(crate) proof fn lemma_unresolved_update(rs: Seq<bool>, n: int, p: int)
    requires
        0 <= p < rs.len(),
        n <= rs.len(),
        rs[p] == false,
    ensures
        unresolved_count(rs.update(p, true), n) == unresolved_count(rs, n) - if p < n {
            1int
        } else {
            0int
        },
    decreases n,
{
    if n > 0 {
        lemma_unresolved_update(rs, n - 1, p);
    }
}

/// The unresolved count is never negative.
pub(crate) proof fn lemma_unresolved_nonneg(rs: Seq<bool>, n: int)
    ensures
        unresolved_count(rs, n) >= 0,
    decreases n,
{
    if n > 0 {
        lemma_unresolved_nonneg(rs, n - 1);
    }
}

/// A write that only touches unresolved cells disturbs no resolved cell's
/// value and no resolved drainage path.
pub(crate) proof fn lemma_paths_stable(
    dem: Grid,
    filled1: Grid,
    filled2: Grid,
    rs: Seq<bool>,
    r: int,
    c: int,
)
    requires
        dem.wf(),
        rs.len() == dem.rows * dem.cols,
        filled1.rows == dem.rows,
        filled1.cols == dem.cols,
        filled2.rows == filled1.rows,
        filled2.cols == filled1.cols,
        forall|r2: int, c2: int|
            dem.in_bounds(r2, c2) && rs[dem.pos(r2, c2)] == true ==> #[trigger] filled2.at(r2, c2)
                == filled1.at(r2, c2),
        dem.is_valid(r, c),
        rs[dem.pos(r, c)] == true,
        live_drains(dem, filled1, rs, r, c),
    ensures
        live_drains(dem, filled2, rs, r, c),
        filled2.at(r, c) == filled1.at(r, c),
{
    let path = choose|path: Seq<(int, int)>|
        #[trigger] drain_path(dem, filled1, path, r, c) && path_resolved(dem, rs, path);
    assert forall|j: int| 0 <= j < path.len() implies filled2.at(
        (#[trigger] path[j]).0,
        path[j].1,
    ) == filled1.at(path[j].0, path[j].1) by {
        assert(dem.is_valid(path[j].0, path[j].1));
        assert(rs[dem.pos(path[j].0, path[j].1)] == true);
    }
    assert(drain_path(dem, filled2, path, r, c) && path_resolved(dem, rs, path));
}

/// A freshly resolved valid outlet cell, holding its own elevation, drains
/// by the one-cell path.
pub(crate) proof fn lemma_seed_path(dem: Grid, filled: Grid, rs: Seq<bool>, r: int, c: int)
    requires
        dem.wf(),
        rs.len() == dem.rows * dem.cols,
        dem.is_valid(r, c),
        rs[dem.pos(r, c)] == true,
        filled.at(r, c) == dem.at(r, c),
        outside_linked(dem, r, c),
    ensures
        live_drains(dem, filled, rs, r, c),
{
    let path: Seq<(int, int)> = seq![(r, c)];
    assert(path[0].0 == r && path[0].1 == c);
    assert(drain_path(dem, filled, path, r, c) && path_resolved(dem, rs, path));
}

/// A freshly resolved valid cell drains through an adjacent resolved cell
/// it was flooded from, provided it was raised no higher than needed: to
/// its own elevation or to the neighbour's level.
pub(crate) proof fn lemma_extend_path(
    dem: Grid,
    filled: Grid,
    rs: Seq<bool>,
    r: int,
    c: int,
    qr: int,
    qc: int,
)
    requires
        dem.wf(),
        rs.len() == dem.rows * dem.cols,
        dem.is_valid(r, c),
        rs[dem.pos(r, c)] == true,
        dem.is_valid(qr, qc),
        rs[dem.pos(qr, qc)] == true,
        adjacent8(r, c, qr, qc),
        live_drains(dem, filled, rs, qr, qc),
        filled.at(qr, qc) <= filled.at(r, c),
        dem.at(r, c) <= filled.at(r, c),
        filled.at(r, c) == dem.at(r, c) || filled.at(r, c) == filled.at(qr, qc),
    ensures
        live_drains(dem, filled, rs, r, c),
{
    let ppath = choose|path: Seq<(int, int)>|
        #[trigger] drain_path(dem, filled, path, qr, qc) && path_resolved(dem, rs, path);
    let head: Seq<(int, int)> = seq![(r, c)];
    let path = head + ppath;
    assert(path.len() == 1 + ppath.len());
    assert(path[0].0 == r && path[0].1 == c);
    assert(forall|j: int| 0 <= j < ppath.len() ==> path[j + 1] == ppath[j]);
    assert forall|j: int| 0 <= j < path.len() implies dem.is_valid(
        (#[trigger] path[j]).0,
        path[j].1,
    ) && rs[dem.pos(path[j].0, path[j].1)] == true by {
        if j > 0 {
            assert(path[j] == ppath[j - 1]);
        }
    }
    assert forall|j: int| 1 <= j < path.len() implies adjacent8(
        path[j - 1].0,
        path[j - 1].1,
        (#[trigger] path[j]).0,
        path[j].1,
    ) by {
        if j == 1 {
            assert(path[1] == ppath[0]);
            assert(ppath[0].0 == qr && ppath[0].1 == qc);
        } else {
            assert(path[j - 1] == ppath[j - 2] && path[j] == ppath[j - 1]);
        }
    }
    assert forall|j: int| 1 <= j < path.len() implies filled.at(
        (#[trigger] path[j]).0,
        path[j].1,
    ) <= filled.at(path[j - 1].0, path[j - 1].1) by {
        if j == 1 {
            assert(path[1] == ppath[0]);
        } else {
            assert(path[j - 1] == ppath[j - 2] && path[j] == ppath[j - 1]);
        }
    }
    assert forall|j: int| 0 <= j < path.len() implies dem.at(
        (#[trigger] path[j]).0,
        path[j].1,
    ) <= filled.at(r, c) by {
        if j > 0 {
            assert(path[j] == ppath[j - 1]);
            assert(dem.at(ppath[j - 1].0, ppath[j - 1].1) <= filled.at(qr, qc));
        }
    }
    if filled.at(r, c) == dem.at(r, c) {
        assert(dem.at(path[0].0, path[0].1) == filled.at(r, c));
    } else {
        let jw = choose|j: int|
            0 <= j < ppath.len() && dem.at((#[trigger] ppath[j]).0, ppath[j].1) == filled.at(
                qr,
                qc,
            );
        assert(path[jw + 1] == ppath[jw]);
        assert(dem.at(path[jw + 1].0, path[jw + 1].1) == filled.at(r, c));
    }
    assert(path[path.len() - 1] == ppath[ppath.len() - 1]);
    assert(drain_path(dem, filled, path, r, c) && path_resolved(dem, rs, path));
}

/// A resolved valid cell in good standing: at or above its elevation, with
/// a drainage path through resolved cells.
pub(crate) open spec fn cell_ok(dem: Grid, filled: Grid, rs: Seq<bool>, r: int, c: int) -> bool {
    filled.at(r, c) >= dem.at(r, c) && live_drains(dem, filled, rs, r, c)
}

/// A chain of valid, consecutively 8-adjacent cells.
pub open spec fn valid_chain(dem: Grid, path: Seq<(int, int)>) -> bool {
    &&& path.len() >= 1
    &&& (forall|j: int| 0 <= j < path.len() ==> dem.is_valid((#[trigger] path[j]).0, path[j].1))
    &&& (forall|j: int|
        1 <= j < path.len() ==> adjacent8(
            path[j - 1].0,
            path[j - 1].1,
            (#[trigger] path[j]).0,
            path[j].1,
        ))
}

/// A chain of in-bounds nodata cells, consecutively 8-adjacent.
pub open spec fn nodata_chain(dem: Grid, path: Seq<(int, int)>) -> bool {
    &&& (forall|j: int|
        0 <= j < path.len() ==> dem.in_bounds((#[trigger] path[j]).0, path[j].1) && dem.at(
            path[j].0,
            path[j].1,
        ) == dem.nodata)
    &&& (forall|j: int|
        1 <= j < path.len() ==> adjacent8(
            path[j - 1].0,
            path[j - 1].1,
            (#[trigger] path[j]).0,
            path[j].1,
        ))
}

/// A valid cell at the outside edge of the data: on the grid's outer ring,
/// or beside a nodata region that runs out to the ring. These are the cells
/// where water leaves the grid; a nodata hole sealed inside the data is not
/// such an outlet.
pub open spec fn outside_linked(dem: Grid, r: int, c: int) -> bool {
    ||| border_cell(dem, r, c)
    ||| exists|path: Seq<(int, int)>|
        #[trigger] nodata_chain(dem, path) && path.len() >= 1 && adjacent8(
            r,
            c,
            path[0].0,
            path[0].1,
        ) && border_cell(dem, path[path.len() - 1].0, path[path.len() - 1].1)
}

/// (r, c) reaches an outside outlet through valid cells.
pub open spec fn edge_linked(dem: Grid, r: int, c: int) -> bool {
    exists|path: Seq<(int, int)>|
        #[trigger] valid_chain(dem, path) && path[0].0 == r && path[0].1 == c && outside_linked(
            dem,
            path[path.len() - 1].0,
            path[path.len() - 1].1,
        )
}

/// Every valid neighbour of (a, b) is resolved.
pub(crate) open spec fn closed_at(dem: Grid, rs: Seq<bool>, a: int, b: int) -> bool {
    forall|i: int|
        0 <= i < 8 && dem.is_valid(a + off_r(i), b + #[trigger] off_c(i)) ==> rs[dem.pos(
            a + off_r(i),
            b + off_c(i),
        )] == true
}

/// The flood has nothing left to do: every resolved valid cell has passed
/// its level on to all of its valid neighbours.
pub(crate) open spec fn flood_closed(dem: Grid, rs: Seq<bool>) -> bool {
    forall|a: int, b: int|
        dem.in_bounds(a, b) && rs[dem.pos(a, b)] == true && dem.is_valid(a, b)
            ==> #[trigger] closed_at(dem, rs, a, b)
}

/// (a, b) stands somewhere in the open list.
pub(crate) open spec fn open_in(open_cells: Seq<(i64, i64)>, a: int, b: int) -> bool {
    exists|k: int|
        0 <= k < open_cells.len() && (#[trigger] open_cells[k]).0 == a && open_cells[k].1 == b
}

/// During seeding, every resolved valid cell is still open.
pub(crate) open spec fn all_open(dem: Grid, rs: Seq<bool>, open_cells: Seq<(i64, i64)>) -> bool {
    forall|a: int, b: int|
        dem.in_bounds(a, b) && rs[dem.pos(a, b)] == true && dem.is_valid(a, b)
            ==> #[trigger] open_in(open_cells, a, b)
}

/// The flood never raises a cell above what its neighbour warrants: the
/// cell sits at its own elevation, or no higher than this neighbour.
pub(crate) open spec fn capped_step(dem: Grid, filled: Grid, a: int, b: int, i: int) -> bool {
    filled.at(a, b) <= dem.at(a, b) || filled.at(a, b) <= filled.at(a + off_r(i), b + off_c(i))
}

/// The cap holds between every pair of adjacent resolved valid cells.
pub(crate) open spec fn locally_capped(dem: Grid, filled: Grid, rs: Seq<bool>) -> bool {
    forall|a: int, b: int, i: int|
        0 <= i < 8 && dem.is_valid(a, b) && rs[dem.pos(a, b)] == true && dem.is_valid(
            a + off_r(i),
            b + off_c(i),
        ) && rs[dem.pos(a + off_r(i), b + off_c(i))] == true ==> #[trigger] capped_step(
            dem,
            filled,
            a,
            b,
            i,
        )
}

/// A resolved valid cell during the flood proper: still open, or settled at
/// or below the flood level with all its valid neighbours resolved.
pub(crate) open spec fn frontier_ok(
    dem: Grid,
    filled: Grid,
    rs: Seq<bool>,
    open_cells: Seq<(i64, i64)>,
    floor: int,
    a: int,
    b: int,
) -> bool {
    ||| open_in(open_cells, a, b)
    ||| (filled.at(a, b) as int <= floor && closed_at(dem, rs, a, b))
}

/// Every resolved valid cell is in good frontier standing.
pub(crate) open spec fn flood_frontier(
    dem: Grid,
    filled: Grid,
    rs: Seq<bool>,
    open_cells: Seq<(i64, i64)>,
    floor: int,
) -> bool {
    forall|a: int, b: int|
        dem.in_bounds(a, b) && rs[dem.pos(a, b)] == true && dem.is_valid(a, b)
            ==> #[trigger] frontier_ok(dem, filled, rs, open_cells, floor, a, b)
}

/// Every in-bounds neighbour of (a, b), with or without data, is resolved.
pub(crate) open spec fn closed_all_at(dem: Grid, rs: Seq<bool>, a: int, b: int) -> bool {
    forall|i: int|
        0 <= i < 8 && dem.in_bounds(a + off_r(i), b + #[trigger] off_c(i)) ==> rs[dem.pos(
            a + off_r(i),
            b + off_c(i),
        )] == true
}

/// A resolved nodata cell during the seeding sweep: still queued, or done
/// with its whole neighbourhood resolved.
pub(crate) open spec fn sweep_ok(
    dem: Grid,
    rs: Seq<bool>,
    queued: Seq<(i64, i64)>,
    a: int,
    b: int,
) -> bool {
    ||| open_in(queued, a, b)
    ||| closed_all_at(dem, rs, a, b)
}

/// Every resolved nodata cell is in good sweep standing.
pub(crate) open spec fn sweep_frontier(dem: Grid, rs: Seq<bool>, queued: Seq<(i64, i64)>) -> bool {
    forall|a: int, b: int|
        dem.in_bounds(a, b) && rs[dem.pos(a, b)] == true && dem.at(a, b) == dem.nodata
            ==> #[trigger] sweep_ok(dem, rs, queued, a, b)
}

/// Every cell of the outer ring is resolved.
pub(crate) open spec fn ring_done(dem: Grid, rs: Seq<bool>) -> bool {
    forall|a: int, b: int| #[trigger] border_cell(dem, a, b) ==> rs[dem.pos(a, b)] == true
}

/// The sweep has finished: every resolved nodata cell has passed resolution
/// on to its whole neighbourhood.
pub(crate) open spec fn sweep_closed(dem: Grid, rs: Seq<bool>) -> bool {
    forall|a: int, b: int|
        dem.in_bounds(a, b) && rs[dem.pos(a, b)] == true && dem.at(a, b) == dem.nodata
            ==> #[trigger] closed_all_at(dem, rs, a, b)
}

/// A nodata cell joined to the grid's outer ring by a chain of nodata
/// cells.
pub(crate) open spec fn nodata_linked(dem: Grid, a: int, b: int) -> bool {
    exists|path: Seq<(int, int)>|
        #[trigger] nodata_chain(dem, path) && path.len() >= 1 && path[0].0 == a && path[0].1 == b
            && border_cell(dem, path[path.len() - 1].0, path[path.len() - 1].1)
}

/// Every resolved nodata cell runs out to the ring: the sweep only ever
/// walks nodata regions connected to the frame.
pub(crate) open spec fn sweep_linked(dem: Grid, rs: Seq<bool>) -> bool {
    forall|a: int, b: int|
        dem.in_bounds(a, b) && rs[dem.pos(a, b)] == true && dem.at(a, b) == dem.nodata
            ==> #[trigger] nodata_linked(dem, a, b)
}

/// An outside-linked valid cell held where seeding put it: resolved, at its
/// own elevation.
pub(crate) open spec fn outside_ok(
    dem: Grid,
    filled: Grid,
    rs: Seq<bool>,
    a: int,
    b: int,
) -> bool {
    rs[dem.pos(a, b)] == true && filled.at(a, b) == dem.at(a, b)
}

/// Every valid cell at the outside edge of the data is resolved and pinned
/// at its own elevation: outlets are never raised.
pub(crate) open spec fn outside_pinned(dem: Grid, filled: Grid, rs: Seq<bool>) -> bool {
    forall|a: int, b: int|
        dem.is_valid(a, b) && outside_linked(dem, a, b) ==> #[trigger] outside_ok(
            dem,
            filled,
            rs,
            a,
            b,
        )
}

/// Appending to the open list keeps every member and adds the new one.
pub(crate) proof fn lemma_open_in_push(open_cells: Seq<(i64, i64)>, x: (i64, i64))
    ensures
        open_in(open_cells.push(x), x.0 as int, x.1 as int),
        forall|a: int, b: int|
            #[trigger] open_in(open_cells, a, b) ==> open_in(open_cells.push(x), a, b),
{
    assert(open_cells.push(x)[open_cells.len() as int].0 == x.0 as int && open_cells.push(x)[
        open_cells.len() as int].1 == x.1 as int);
    assert forall|a: int, b: int| #[trigger] open_in(open_cells, a, b) implies open_in(
        open_cells.push(x),
        a,
        b,
    ) by {
        let k0 = choose|k: int|
            0 <= k < open_cells.len() && (#[trigger] open_cells[k]).0 == a && open_cells[k].1
                == b;
        assert(open_cells.push(x)[k0].0 == a && open_cells.push(x)[k0].1 == b);
    }
}

/// Resolving a valid cell and opening it keeps every resolved valid cell
/// open.
pub(crate) proof fn lemma_all_open_push(
    dem: Grid,
    rs0: Seq<bool>,
    rs: Seq<bool>,
    open0: Seq<(i64, i64)>,
    nri: int,
    nci: int,
)
    requires
        dem.wf(),
        rs0.len() == dem.rows * dem.cols,
        all_open(dem, rs0, open0),
        dem.in_bounds(nri, nci),
        rs == rs0.update(dem.pos(nri, nci), true),
    ensures
        all_open(dem, rs, open0.push((nri as i64, nci as i64))),
{
    dem.lemma_pos_in_range(nri, nci);
    lemma_open_in_push(open0, (nri as i64, nci as i64));
    let open1 = open0.push((nri as i64, nci as i64));
    assert forall|a: int, b: int|
        dem.in_bounds(a, b) && rs[dem.pos(a, b)] == true && dem.is_valid(a, b) implies #[trigger] open_in(
        open1,
        a,
        b,
    ) by {
        dem.lemma_pos_in_range(a, b);
        if a == nri && b == nci {
            assert(open_in(open1, nri, nci));
        } else {
            if dem.pos(a, b) == dem.pos(nri, nci) {
                dem.lemma_pos_injective(a, b, nri, nci);
            }
            assert(open_in(open0, a, b));
        }
    }
}

/// Resolving a cell without data opens nothing and closes nothing.
pub(crate) proof fn lemma_all_open_skip(
    dem: Grid,
    rs0: Seq<bool>,
    rs: Seq<bool>,
    open0: Seq<(i64, i64)>,
    nri: int,
    nci: int,
)
    requires
        dem.wf(),
        rs0.len() == dem.rows * dem.cols,
        all_open(dem, rs0, open0),
        dem.in_bounds(nri, nci),
        !dem.is_valid(nri, nci),
        rs == rs0.update(dem.pos(nri, nci), true),
    ensures
        all_open(dem, rs, open0),
{
    dem.lemma_pos_in_range(nri, nci);
    assert forall|a: int, b: int|
        dem.in_bounds(a, b) && rs[dem.pos(a, b)] == true && dem.is_valid(a, b) implies #[trigger] open_in(
        open0,
        a,
        b,
    ) by {
        dem.lemma_pos_in_range(a, b);
        if dem.pos(a, b) == dem.pos(nri, nci) {
            dem.lemma_pos_injective(a, b, nri, nci);
        }
        assert(open_in(open0, a, b));
    }
}

/// The frontier is monotone in the open list and the flood level.
pub(crate) proof fn lemma_frontier_mono(
    dem: Grid,
    filled: Grid,
    rs: Seq<bool>,
    open0: Seq<(i64, i64)>,
    open1: Seq<(i64, i64)>,
    floor0: int,
    floor1: int,
)
    requires
        flood_frontier(dem, filled, rs, open0, floor0),
        floor0 <= floor1,
        forall|a: int, b: int| #[trigger] open_in(open0, a, b) ==> open_in(open1, a, b),
    ensures
        flood_frontier(dem, filled, rs, open1, floor1),
{
    assert forall|a: int, b: int|
        dem.in_bounds(a, b) && rs[dem.pos(a, b)] == true && dem.is_valid(a, b) implies #[trigger] frontier_ok(
        dem,
        filled,
        rs,
        open1,
        floor1,
        a,
        b,
    ) by {
        assert(frontier_ok(dem, filled, rs, open0, floor0, a, b));
    }
}

/// Taking a settled cell out of the open list keeps the frontier whole.
pub(crate) proof fn lemma_frontier_close_cell(
    dem: Grid,
    filled: Grid,
    rs: Seq<bool>,
    open0: Seq<(i64, i64)>,
    open1: Seq<(i64, i64)>,
    floor: int,
    qr: int,
    qc: int,
)
    requires
        flood_frontier(dem, filled, rs, open0, floor),
        forall|a: int, b: int|
            #[trigger] open_in(open0, a, b) ==> open_in(open1, a, b) || (a == qr && b == qc),
        filled.at(qr, qc) as int <= floor,
        closed_at(dem, rs, qr, qc),
    ensures
        flood_frontier(dem, filled, rs, open1, floor),
{
    assert forall|a: int, b: int|
        dem.in_bounds(a, b) && rs[dem.pos(a, b)] == true && dem.is_valid(a, b) implies #[trigger] frontier_ok(
        dem,
        filled,
        rs,
        open1,
        floor,
        a,
        b,
    ) by {
        assert(frontier_ok(dem, filled, rs, open0, floor, a, b));
        if open_in(open0, a, b) && !open_in(open1, a, b) {
            assert(a == qr && b == qc);
        }
    }
}

/// An in-bounds neighbour of a frame cell lies on the grid's outer ring.
pub(crate) proof fn lemma_frame_neighbor_on_ring(
    dem: Grid,
    qr: int,
    qc: int,
    i: int,
)
    requires
        dem.wf(),
        -1 <= qr <= dem.rows,
        -1 <= qc <= dem.cols,
        !dem.in_bounds(qr, qc),
        0 <= i < 8,
        dem.in_bounds(qr + off_r(i), qc + off_c(i)),
    ensures
        border_cell(dem, qr + off_r(i), qc + off_c(i)),
{
}

/// A nodata cell beside a ring-linked nodata cell is ring-linked itself.
pub(crate) proof fn lemma_nodata_linked_prepend(dem: Grid, a: int, b: int, qr: int, qc: int)
    requires
        dem.in_bounds(a, b),
        dem.at(a, b) == dem.nodata,
        adjacent8(a, b, qr, qc),
        nodata_linked(dem, qr, qc),
    ensures
        nodata_linked(dem, a, b),
{
    let ppath = choose|path: Seq<(int, int)>|
        #[trigger] nodata_chain(dem, path) && path.len() >= 1 && path[0].0 == qr && path[0].1
            == qc && border_cell(dem, path[path.len() - 1].0, path[path.len() - 1].1);
    let head: Seq<(int, int)> = seq![(a, b)];
    let path = head + ppath;
    assert(path.len() == 1 + ppath.len());
    assert(path[0].0 == a && path[0].1 == b);
    assert(forall|j: int| 0 <= j < ppath.len() ==> path[j + 1] == ppath[j]);
    assert forall|j: int|
        0 <= j < path.len() implies dem.in_bounds((#[trigger] path[j]).0, path[j].1) && dem.at(
        path[j].0,
        path[j].1,
    ) == dem.nodata by {
        if j > 0 {
            assert(path[j] == ppath[j - 1]);
        }
    }
    assert forall|j: int| 1 <= j < path.len() implies adjacent8(
        path[j - 1].0,
        path[j - 1].1,
        (#[trigger] path[j]).0,
        path[j].1,
    ) by {
        if j == 1 {
            assert(path[1] == ppath[0]);
            assert(ppath[0].0 == qr && ppath[0].1 == qc);
        } else {
            assert(path[j - 1] == ppath[j - 2] && path[j] == ppath[j - 1]);
        }
    }
    assert(path[path.len() - 1] == ppath[ppath.len() - 1]);
    assert(nodata_chain(dem, path) && path.len() >= 1 && path[0].0 == a && path[0].1 == b
        && border_cell(dem, path[path.len() - 1].0, path[path.len() - 1].1));
}

/// Ring linkage of the swept region survives resolving one more cell.
pub(crate) proof fn lemma_sweep_linked_grow(
    dem: Grid,
    rs0: Seq<bool>,
    rs: Seq<bool>,
    nri: int,
    nci: int,
)
    requires
        dem.wf(),
        rs0.len() == dem.rows * dem.cols,
        sweep_linked(dem, rs0),
        dem.in_bounds(nri, nci),
        rs == rs0.update(dem.pos(nri, nci), true),
        dem.at(nri, nci) == dem.nodata ==> nodata_linked(dem, nri, nci),
    ensures
        sweep_linked(dem, rs),
{
    dem.lemma_pos_in_range(nri, nci);
    assert forall|a: int, b: int|
        dem.in_bounds(a, b) && rs[dem.pos(a, b)] == true && dem.at(a, b)
            == dem.nodata implies #[trigger] nodata_linked(dem, a, b) by {
        dem.lemma_pos_in_range(a, b);
        if !(a == nri && b == nci) {
            if dem.pos(a, b) == dem.pos(nri, nci) {
                dem.lemma_pos_injective(a, b, nri, nci);
            }
            assert(rs0[dem.pos(a, b)] == true);
        }
    }
}

/// During the sweep, resolving and queueing a nodata cell keeps every
/// resolved nodata cell in sweep standing.
pub(crate) proof fn lemma_sweep_after_nodata(
    dem: Grid,
    rs0: Seq<bool>,
    rs: Seq<bool>,
    queued0: Seq<(i64, i64)>,
    nri: int,
    nci: int,
)
    requires
        dem.wf(),
        rs0.len() == dem.rows * dem.cols,
        sweep_frontier(dem, rs0, queued0),
        dem.in_bounds(nri, nci),
        dem.at(nri, nci) == dem.nodata,
        rs == rs0.update(dem.pos(nri, nci), true),
    ensures
        sweep_frontier(dem, rs, queued0.push((nri as i64, nci as i64))),
{
    dem.lemma_pos_in_range(nri, nci);
    lemma_open_in_push(queued0, (nri as i64, nci as i64));
    let queued1 = queued0.push((nri as i64, nci as i64));
    assert forall|a: int, b: int|
        dem.in_bounds(a, b) && rs[dem.pos(a, b)] == true && dem.at(a, b)
            == dem.nodata implies #[trigger] sweep_ok(dem, rs, queued1, a, b) by {
        dem.lemma_pos_in_range(a, b);
        if a == nri && b == nci {
            assert(open_in(queued1, nri, nci));
        } else {
            if dem.pos(a, b) == dem.pos(nri, nci) {
                dem.lemma_pos_injective(a, b, nri, nci);
            }
            assert(sweep_ok(dem, rs0, queued0, a, b));
            if !open_in(queued0, a, b) {
                assert forall|i: int|
                    0 <= i < 8 && dem.in_bounds(a + off_r(i), b + #[trigger] off_c(i)) implies rs[
                dem.pos(a + off_r(i), b + off_c(i))] == true by {
                    dem.lemma_pos_in_range(a + off_r(i), b + off_c(i));
                }
            }
        }
    }
}

/// During the sweep, resolving a valid cell adds no sweep obligation.
pub(crate) proof fn lemma_sweep_after_valid(
    dem: Grid,
    rs0: Seq<bool>,
    rs: Seq<bool>,
    queued0: Seq<(i64, i64)>,
    nri: int,
    nci: int,
)
    requires
        dem.wf(),
        rs0.len() == dem.rows * dem.cols,
        sweep_frontier(dem, rs0, queued0),
        dem.in_bounds(nri, nci),
        dem.at(nri, nci) != dem.nodata,
        rs == rs0.update(dem.pos(nri, nci), true),
    ensures
        sweep_frontier(dem, rs, queued0),
{
    dem.lemma_pos_in_range(nri, nci);
    assert forall|a: int, b: int|
        dem.in_bounds(a, b) && rs[dem.pos(a, b)] == true && dem.at(a, b)
            == dem.nodata implies #[trigger] sweep_ok(dem, rs, queued0, a, b) by {
        dem.lemma_pos_in_range(a, b);
        if dem.pos(a, b) == dem.pos(nri, nci) {
            dem.lemma_pos_injective(a, b, nri, nci);
        }
        assert(sweep_ok(dem, rs0, queued0, a, b));
        if !open_in(queued0, a, b) {
            assert forall|i: int|
                0 <= i < 8 && dem.in_bounds(a + off_r(i), b + #[trigger] off_c(i)) implies rs[
            dem.pos(a + off_r(i), b + off_c(i))] == true by {
                dem.lemma_pos_in_range(a + off_r(i), b + off_c(i));
            }
        }
    }
}

/// The sweep standing is monotone in the queue.
pub(crate) proof fn lemma_sweep_mono(
    dem: Grid,
    rs: Seq<bool>,
    queued0: Seq<(i64, i64)>,
    queued1: Seq<(i64, i64)>,
)
    requires
        sweep_frontier(dem, rs, queued0),
        forall|a: int, b: int| #[trigger] open_in(queued0, a, b) ==> open_in(queued1, a, b),
    ensures
        sweep_frontier(dem, rs, queued1),
{
    assert forall|a: int, b: int|
        dem.in_bounds(a, b) && rs[dem.pos(a, b)] == true && dem.at(a, b)
            == dem.nodata implies #[trigger] sweep_ok(dem, rs, queued1, a, b) by {
        assert(sweep_ok(dem, rs, queued0, a, b));
    }
}

/// Taking a swept-out cell off the queue keeps the sweep standing.
pub(crate) proof fn lemma_sweep_close_cell(
    dem: Grid,
    rs: Seq<bool>,
    queued0: Seq<(i64, i64)>,
    queued1: Seq<(i64, i64)>,
    qr: int,
    qc: int,
)
    requires
        sweep_frontier(dem, rs, queued0),
        forall|a: int, b: int|
            #[trigger] open_in(queued0, a, b) ==> open_in(queued1, a, b) || (a == qr && b == qc),
        dem.in_bounds(qr, qc) ==> closed_all_at(dem, rs, qr, qc),
    ensures
        sweep_frontier(dem, rs, queued1),
{
    assert forall|a: int, b: int|
        dem.in_bounds(a, b) && rs[dem.pos(a, b)] == true && dem.at(a, b)
            == dem.nodata implies #[trigger] sweep_ok(dem, rs, queued1, a, b) by {
        assert(sweep_ok(dem, rs, queued0, a, b));
        if open_in(queued0, a, b) && !open_in(queued1, a, b) {
            assert(a == qr && b == qc);
        }
    }
}

/// Once the sweep has closed and the whole ring is resolved, every cell of
/// a nodata chain that ends on the ring is resolved, all the way in.
pub(crate) proof fn lemma_nodata_chain_resolved(
    dem: Grid,
    rs: Seq<bool>,
    path: Seq<(int, int)>,
    j: int,
)
    requires
        dem.wf(),
        rs.len() == dem.rows * dem.cols,
        nodata_chain(dem, path),
        border_cell(dem, path[path.len() - 1].0, path[path.len() - 1].1),
        ring_done(dem, rs),
        sweep_closed(dem, rs),
        0 <= j < path.len(),
    ensures
        rs[dem.pos((path[j]).0, path[j].1)] == true,
    decreases path.len() - j,
{
    let pr = path[j].0;
    let pc = path[j].1;
    dem.lemma_pos_in_range(pr, pc);
    if j == path.len() - 1 {
        assert(border_cell(dem, pr, pc));
    } else {
        lemma_nodata_chain_resolved(dem, rs, path, j + 1);
        let sr = path[j + 1].0;
        let sc = path[j + 1].1;
        let i = choose|i: int|
            0 <= i < 8 && sr == pr + off_r(i) && sc == pc + #[trigger] off_c(i);
        lemma_inv_code_props(i);
        assert(closed_all_at(dem, rs, sr, sc));
        assert(sr + off_r(inv_code(i)) == pr && sc + off_c(inv_code(i)) == pc);
        assert(rs[dem.pos(sr + off_r(inv_code(i)), sc + off_c(inv_code(i)))] == true);
    }
}

/// Pinned outlets stay pinned when a write touches only a cell that was
/// not yet resolved and resolution only grows.
pub(crate) proof fn lemma_outside_still_pinned(
    dem: Grid,
    filled0: Grid,
    filled: Grid,
    rs0: Seq<bool>,
    rs: Seq<bool>,
    nri: int,
    nci: int,
)
    requires
        dem.wf(),
        rs0.len() == dem.rows * dem.cols,
        rs.len() == rs0.len(),
        outside_pinned(dem, filled0, rs0),
        dem.in_bounds(nri, nci),
        rs0[dem.pos(nri, nci)] == false,
        forall|q: int| 0 <= q < rs0.len() && rs0[q] == true ==> rs[q] == true,
        forall|a: int, b: int|
            !(a == nri && b == nci) ==> #[trigger] filled.at(a, b) == filled0.at(a, b),
    ensures
        outside_pinned(dem, filled, rs),
{
    assert forall|a: int, b: int|
        dem.is_valid(a, b) && outside_linked(dem, a, b) implies #[trigger] outside_ok(
        dem,
        filled,
        rs,
        a,
        b,
    ) by {
        dem.lemma_pos_in_range(a, b);
        assert(outside_ok(dem, filled0, rs0, a, b));
        if a == nri && b == nci {
            assert(false);
        }
        assert(outside_ok(dem, filled, rs, a, b));
    }
}

/// Resolving a cell without data touches no pair of valid cells and no
/// frontier obligation.
pub(crate) proof fn lemma_flood_facts_after_nodata(
    dem: Grid,
    filled0: Grid,
    filled: Grid,
    rs0: Seq<bool>,
    rs: Seq<bool>,
    open0: Seq<(i64, i64)>,
    floor: int,
    nri: int,
    nci: int,
)
    requires
        dem.wf(),
        rs0.len() == dem.rows * dem.cols,
        locally_capped(dem, filled0, rs0),
        flood_frontier(dem, filled0, rs0, open0, floor),
        dem.in_bounds(nri, nci),
        !dem.is_valid(nri, nci),
        rs == rs0.update(dem.pos(nri, nci), true),
        filled.rows == filled0.rows,
        filled.cols == filled0.cols,
        forall|a: int, b: int|
            !(a == nri && b == nci) ==> #[trigger] filled.at(a, b) == filled0.at(a, b),
    ensures
        locally_capped(dem, filled, rs),
        flood_frontier(dem, filled, rs, open0, floor),
{
    dem.lemma_pos_in_range(nri, nci);
    assert forall|a: int, b: int, i: int|
        0 <= i < 8 && dem.is_valid(a, b) && rs[dem.pos(a, b)] == true && dem.is_valid(
            a + off_r(i),
            b + off_c(i),
        ) && rs[dem.pos(a + off_r(i), b + off_c(i))] == true implies #[trigger] capped_step(
        dem,
        filled,
        a,
        b,
        i,
    ) by {
        dem.lemma_pos_in_range(a, b);
        dem.lemma_pos_in_range(a + off_r(i), b + off_c(i));
        if dem.pos(a, b) == dem.pos(nri, nci) {
            dem.lemma_pos_injective(a, b, nri, nci);
        }
        if dem.pos(a + off_r(i), b + off_c(i)) == dem.pos(nri, nci) {
            dem.lemma_pos_injective(a + off_r(i), b + off_c(i), nri, nci);
        }
        assert(capped_step(dem, filled0, a, b, i));
        assert(capped_step(dem, filled, a, b, i));
    }
    assert forall|a: int, b: int|
        dem.in_bounds(a, b) && rs[dem.pos(a, b)] == true && dem.is_valid(a, b) implies #[trigger] frontier_ok(
        dem,
        filled,
        rs,
        open0,
        floor,
        a,
        b,
    ) by {
        dem.lemma_pos_in_range(a, b);
        if dem.pos(a, b) == dem.pos(nri, nci) {
            dem.lemma_pos_injective(a, b, nri, nci);
        }
        assert(frontier_ok(dem, filled0, rs0, open0, floor, a, b));
        if !open_in(open0, a, b) {
            assert(filled.at(a, b) == filled0.at(a, b));
            assert forall|i: int|
                0 <= i < 8 && dem.is_valid(a + off_r(i), b + #[trigger] off_c(i)) implies rs[
            dem.pos(a + off_r(i), b + off_c(i))] == true by {
                dem.lemma_pos_in_range(a + off_r(i), b + off_c(i));
            }
        }
    }
}

/// Resolving a valid cell at `max(its elevation, the flood level)` and
/// opening it: the cap holds around it because every resolved neighbour is
/// either still open — hence at its own elevation or below the level — or
/// settled, which its unresolved neighbourhood rules out.
pub(crate) proof fn lemma_flood_facts_after_fill(
    dem: Grid,
    filled0: Grid,
    filled: Grid,
    rs0: Seq<bool>,
    rs: Seq<bool>,
    open0: Seq<(i64, i64)>,
    floor: int,
    nri: int,
    nci: int,
)
    requires
        dem.wf(),
        rs0.len() == dem.rows * dem.cols,
        locally_capped(dem, filled0, rs0),
        flood_frontier(dem, filled0, rs0, open0, floor),
        forall|k: int|
            0 <= k < open0.len() ==> {
                let m = #[trigger] open0[k];
                &&& dem.is_valid(m.0 as int, m.1 as int)
                &&& floor <= filled0.at(m.0 as int, m.1 as int)
                &&& (filled0.at(m.0 as int, m.1 as int) == dem.at(m.0 as int, m.1 as int)
                    || filled0.at(m.0 as int, m.1 as int) as int <= floor)
            },
        dem.is_valid(nri, nci),
        rs0[dem.pos(nri, nci)] == false,
        rs == rs0.update(dem.pos(nri, nci), true),
        filled.rows == filled0.rows,
        filled.cols == filled0.cols,
        forall|a: int, b: int|
            !(a == nri && b == nci) ==> #[trigger] filled.at(a, b) == filled0.at(a, b),
        floor <= filled.at(nri, nci),
        filled.at(nri, nci) == dem.at(nri, nci) || filled.at(nri, nci) as int <= floor,
    ensures
        locally_capped(dem, filled, rs),
        flood_frontier(dem, filled, rs, open0.push((nri as i64, nci as i64)), floor),
{
    dem.lemma_pos_in_range(nri, nci);
    lemma_open_in_push(open0, (nri as i64, nci as i64));
    let open1 = open0.push((nri as i64, nci as i64));
    assert forall|a: int, b: int, i: int|
        0 <= i < 8 && dem.is_valid(a, b) && rs[dem.pos(a, b)] == true && dem.is_valid(
            a + off_r(i),
            b + off_c(i),
        ) && rs[dem.pos(a + off_r(i), b + off_c(i))] == true implies #[trigger] capped_step(
        dem,
        filled,
        a,
        b,
        i,
    ) by {
        let nr2 = a + off_r(i);
        let nc2 = b + off_c(i);
        dem.lemma_pos_in_range(a, b);
        dem.lemma_pos_in_range(nr2, nc2);
        lemma_inv_code_props(i);
        if a == nri && b == nci {
            // the fresh cell against a resolved neighbour: that neighbour is
            // still open (a settled one would have resolved this cell), so
            // its value is at least the flood level
            assert(!(nr2 == nri && nc2 == nci));
            if dem.pos(nr2, nc2) == dem.pos(nri, nci) {
                dem.lemma_pos_injective(nr2, nc2, nri, nci);
            }
            assert(rs0[dem.pos(nr2, nc2)] == true);
            assert(frontier_ok(dem, filled0, rs0, open0, floor, nr2, nc2));
            if open_in(open0, nr2, nc2) {
                let k0 = choose|k: int|
                    0 <= k < open0.len() && (#[trigger] open0[k]).0 == nr2 && open0[k].1 == nc2;
                assert(floor <= filled0.at(nr2, nc2));
                assert(filled.at(nr2, nc2) == filled0.at(nr2, nc2));
                assert(capped_step(dem, filled, a, b, i));
            } else {
                assert(closed_at(dem, rs0, nr2, nc2));
                assert(nr2 + off_r(inv_code(i)) == nri && nc2 + off_c(inv_code(i)) == nci);
                assert(rs0[dem.pos(nri, nci)] == true);
                assert(false);
            }
        } else if nr2 == nri && nc2 == nci {
            // a resolved neighbour against the fresh cell: open, so at its
            // own elevation or below the level, which the fresh cell matches
            if dem.pos(a, b) == dem.pos(nri, nci) {
                dem.lemma_pos_injective(a, b, nri, nci);
            }
            assert(rs0[dem.pos(a, b)] == true);
            assert(frontier_ok(dem, filled0, rs0, open0, floor, a, b));
            if open_in(open0, a, b) {
                let k0 = choose|k: int|
                    0 <= k < open0.len() && (#[trigger] open0[k]).0 == a && open0[k].1 == b;
                assert(filled.at(a, b) == filled0.at(a, b));
                assert(floor <= filled.at(nri, nci));
                assert(capped_step(dem, filled, a, b, i));
            } else {
                assert(closed_at(dem, rs0, a, b));
                assert(a + off_r(i) == nri && b + off_c(i) == nci);
                assert(rs0[dem.pos(nri, nci)] == true);
                assert(false);
            }
        } else {
            if dem.pos(a, b) == dem.pos(nri, nci) {
                dem.lemma_pos_injective(a, b, nri, nci);
            }
            if dem.pos(nr2, nc2) == dem.pos(nri, nci) {
                dem.lemma_pos_injective(nr2, nc2, nri, nci);
            }
            assert(capped_step(dem, filled0, a, b, i));
            assert(capped_step(dem, filled, a, b, i));
        }
    }
    assert forall|a: int, b: int|
        dem.in_bounds(a, b) && rs[dem.pos(a, b)] == true && dem.is_valid(a, b) implies #[trigger] frontier_ok(
        dem,
        filled,
        rs,
        open1,
        floor,
        a,
        b,
    ) by {
        dem.lemma_pos_in_range(a, b);
        if a == nri && b == nci {
            assert(open_in(open1, nri, nci));
        } else {
            if dem.pos(a, b) == dem.pos(nri, nci) {
                dem.lemma_pos_injective(a, b, nri, nci);
            }
            assert(frontier_ok(dem, filled0, rs0, open0, floor, a, b));
            if !open_in(open0, a, b) {
                assert(filled.at(a, b) == filled0.at(a, b));
                assert forall|i: int|
                    0 <= i < 8 && dem.is_valid(a + off_r(i), b + #[trigger] off_c(i)) implies rs[
                dem.pos(a + off_r(i), b + off_c(i))] == true by {
                    dem.lemma_pos_in_range(a + off_r(i), b + off_c(i));
                }
            }
        }
    }
}

/// A write that only touches unresolved cells keeps the cap between
/// resolved cells.
pub(crate) proof fn lemma_capped_stable(
    dem: Grid,
    filled0: Grid,
    filled: Grid,
    rs: Seq<bool>,
)
    requires
        dem.wf(),
        rs.len() == dem.rows * dem.cols,
        locally_capped(dem, filled0, rs),
        forall|a: int, b: int|
            dem.in_bounds(a, b) && rs[dem.pos(a, b)] == true ==> #[trigger] filled.at(a, b)
                == filled0.at(a, b),
    ensures
        locally_capped(dem, filled, rs),
{
    assert forall|a: int, b: int, i: int|
        0 <= i < 8 && dem.is_valid(a, b) && rs[dem.pos(a, b)] == true && dem.is_valid(
            a + off_r(i),
            b + off_c(i),
        ) && rs[dem.pos(a + off_r(i), b + off_c(i))] == true implies #[trigger] capped_step(
        dem,
        filled,
        a,
        b,
        i,
    ) by {
        assert(capped_step(dem, filled0, a, b, i));
        assert(filled.at(a, b) == filled0.at(a, b));
        assert(filled.at(a + off_r(i), b + off_c(i)) == filled0.at(a + off_r(i), b + off_c(i)));
    }
}

/// Along any chain of valid cells whose far end is an outside outlet,
/// every cell is resolved once the flood has closed, and each cell's level
/// is bounded by some original elevation further along the chain: the spill
/// level over the rim.
pub(crate) proof fn lemma_chain_spill(
    dem: Grid,
    filled: Grid,
    rs: Seq<bool>,
    path: Seq<(int, int)>,
    j: int,
)
    requires
        dem.wf(),
        rs.len() == dem.rows * dem.cols,
        valid_chain(dem, path),
        outside_linked(dem, path[path.len() - 1].0, path[path.len() - 1].1),
        outside_pinned(dem, filled, rs),
        flood_closed(dem, rs),
        locally_capped(dem, filled, rs),
        0 <= j < path.len(),
    ensures
        rs[dem.pos((path[j]).0, path[j].1)] == true,
        exists|jj: int|
            j <= jj < path.len() && dem.at((#[trigger] path[jj]).0, path[jj].1) >= filled.at(
                path[j].0,
                path[j].1,
            ),
    decreases path.len() - j,
{
    let pr = path[j].0;
    let pc = path[j].1;
    dem.lemma_pos_in_range(pr, pc);
    if j == path.len() - 1 {
        assert(outside_ok(dem, filled, rs, pr, pc));
        assert(dem.at(path[j].0, path[j].1) >= filled.at(pr, pc));
    } else {
        lemma_chain_spill(dem, filled, rs, path, j + 1);
        let sr = path[j + 1].0;
        let sc = path[j + 1].1;
        let i = choose|i: int|
            0 <= i < 8 && sr == pr + off_r(i) && sc == pc + #[trigger] off_c(i);
        lemma_inv_code_props(i);
        assert(sr + off_r(inv_code(i)) == pr && sc + off_c(inv_code(i)) == pc);
        assert(closed_at(dem, rs, sr, sc));
        assert(rs[dem.pos(sr + off_r(inv_code(i)), sc + off_c(inv_code(i)))] == true);
        assert(rs[dem.pos(pr, pc)] == true);
        assert(capped_step(dem, filled, pr, pc, i));
        if filled.at(pr, pc) <= dem.at(pr, pc) {
            assert(dem.at(path[j].0, path[j].1) >= filled.at(pr, pc));
        } else {
            assert(filled.at(pr, pc) <= filled.at(sr, sc));
            let jj = choose|jj: int|
                j + 1 <= jj < path.len() && dem.at((#[trigger] path[jj]).0, path[jj].1)
                    >= filled.at(sr, sc);
            assert(dem.at(path[jj].0, path[jj].1) >= filled.at(pr, pc));
        }
    }
}

/// The state carried across both flood phases: unresolved cells still hold
/// the nodata fill, resolved cells without data hold nodata, and every
/// resolved valid cell sits at or above its elevation with a drainage path
/// through resolved cells.
pub(crate) open spec fn flood_state(dem: Grid, filled: Grid, rs: Seq<bool>) -> bool {
    &&& dem.wf()
    &&& filled.wf()
    &&& filled.rows == dem.rows
    &&& filled.cols == dem.cols
    &&& filled.nodata == dem.nodata
    &&& rs.len() == dem.rows * dem.cols
    &&& forall|r: int, c: int|
        dem.in_bounds(r, c) && rs[dem.pos(r, c)] == false ==> #[trigger] filled.at(r, c)
            == dem.nodata
    &&& forall|r: int, c: int|
        dem.in_bounds(r, c) && rs[dem.pos(r, c)] == true && !dem.is_valid(r, c)
            ==> #[trigger] filled.at(r, c) == dem.nodata
    &&& forall|r: int, c: int|
        dem.in_bounds(r, c) && rs[dem.pos(r, c)] == true && dem.is_valid(r, c)
            ==> #[trigger] cell_ok(dem, filled, rs, r, c)
}

/// Common form of the requires shared by the three resolution lemmas: the
/// write touches exactly the newly resolved cell.
pub(crate) open spec fn resolve_shape(
    dem: Grid,
    filled1: Grid,
    filled2: Grid,
    rs1: Seq<bool>,
    rs2: Seq<bool>,
    nri: int,
    nci: int,
) -> bool {
    &&& flood_state(dem, filled1, rs1)
    &&& dem.in_bounds(nri, nci)
    &&& rs1[dem.pos(nri, nci)] == false
    &&& rs2 == rs1.update(dem.pos(nri, nci), true)
    &&& filled2.wf()
    &&& filled2.rows == filled1.rows
    &&& filled2.cols == filled1.cols
    &&& filled2.nodata == filled1.nodata
    &&& forall|r2: int, c2: int|
        !(r2 == nri && c2 == nci) ==> #[trigger] filled2.at(r2, c2) == filled1.at(r2, c2)
}

/// In any resolution step, every previously resolved cell keeps its value
/// and its drainage path.
#[verifier::rlimit(50)]
pub(crate) proof fn lemma_resolve_keeps_old(
    dem: Grid,
    filled1: Grid,
    filled2: Grid,
    rs1: Seq<bool>,
    rs2: Seq<bool>,
    nri: int,
    nci: int,
)
    requires
        resolve_shape(dem, filled1, filled2, rs1, rs2, nri, nci),
    ensures
        forall|r2: int, c2: int|
            #![trigger rs1[dem.pos(r2, c2)]]
            dem.in_bounds(r2, c2) && rs1[dem.pos(r2, c2)] == true ==> filled2.at(r2, c2)
                == filled1.at(r2, c2),
        forall|r2: int, c2: int|
            dem.in_bounds(r2, c2) && rs2[dem.pos(r2, c2)] == true && dem.is_valid(r2, c2) && !(r2
                == nri && c2 == nci) ==> #[trigger] cell_ok(dem, filled2, rs2, r2, c2),
{
    let pn = dem.pos(nri, nci);
    dem.lemma_pos_in_range(nri, nci);
    assert forall|r2: int, c2: int|
        #![trigger rs1[dem.pos(r2, c2)]]
        dem.in_bounds(r2, c2) && rs1[dem.pos(r2, c2)] == true implies filled2.at(r2, c2)
        == filled1.at(r2, c2) by {
        if r2 == nri && c2 == nci {
            assert(rs1[pn] == false);
        }
    }
    assert forall|r2: int, c2: int|
        dem.in_bounds(r2, c2) && rs2[dem.pos(r2, c2)] == true && dem.is_valid(r2, c2) && !(r2 == nri
        && c2 == nci) implies #[trigger] cell_ok(dem, filled2, rs2, r2, c2) by {
        dem.lemma_pos_in_range(r2, c2);
        if dem.pos(r2, c2) == pn {
            dem.lemma_pos_injective(r2, c2, nri, nci);
        }
        assert(rs1[dem.pos(r2, c2)] == true);
        assert(cell_ok(dem, filled1, rs1, r2, c2));
        lemma_paths_stable(dem, filled1, filled2, rs1, r2, c2);
        let path = choose|path: Seq<(int, int)>|
            #[trigger] drain_path(dem, filled2, path, r2, c2) && path_resolved(dem, rs1, path);
        assert forall|j: int|
            0 <= j < path.len() implies rs2[dem.pos(
            (#[trigger] path[j]).0,
            path[j].1,
        )] == true by {
            dem.lemma_pos_in_range(path[j].0, path[j].1);
        }
        assert(drain_path(dem, filled2, path, r2, c2) && path_resolved(dem, rs2, path));
    }
}

/// Resolving a nodata cell (to nodata) preserves the flood state.
#[verifier::rlimit(20)]
pub(crate) proof fn lemma_resolve_nodata(
    dem: Grid,
    filled1: Grid,
    filled2: Grid,
    rs1: Seq<bool>,
    rs2: Seq<bool>,
    nri: int,
    nci: int,
)
    requires
        resolve_shape(dem, filled1, filled2, rs1, rs2, nri, nci),
        !dem.is_valid(nri, nci),
        filled2.at(nri, nci) == dem.nodata,
    ensures
        flood_state(dem, filled2, rs2),
{
    let pn = dem.pos(nri, nci);
    dem.lemma_pos_in_range(nri, nci);
    lemma_resolve_keeps_old(dem, filled1, filled2, rs1, rs2, nri, nci);
    assert forall|r2: int, c2: int|
        dem.in_bounds(r2, c2) && rs2[dem.pos(r2, c2)] == false implies #[trigger] filled2.at(
        r2,
        c2,
    ) == dem.nodata by {
        dem.lemma_pos_in_range(r2, c2);
        if dem.pos(r2, c2) == pn {
            dem.lemma_pos_injective(r2, c2, nri, nci);
        }
    }
}

/// Resolving a valid outlet cell to its own elevation preserves the flood
/// state.
#[verifier::rlimit(20)]
pub(crate) proof fn lemma_resolve_seed(
    dem: Grid,
    filled1: Grid,
    filled2: Grid,
    rs1: Seq<bool>,
    rs2: Seq<bool>,
    nri: int,
    nci: int,
)
    requires
        resolve_shape(dem, filled1, filled2, rs1, rs2, nri, nci),
        dem.is_valid(nri, nci),
        filled2.at(nri, nci) == dem.at(nri, nci),
        outside_linked(dem, nri, nci),
    ensures
        flood_state(dem, filled2, rs2),
{
    let pn = dem.pos(nri, nci);
    dem.lemma_pos_in_range(nri, nci);
    lemma_resolve_keeps_old(dem, filled1, filled2, rs1, rs2, nri, nci);
    lemma_seed_path(dem, filled2, rs2, nri, nci);
    assert(cell_ok(dem, filled2, rs2, nri, nci));
    assert forall|r2: int, c2: int|
        dem.in_bounds(r2, c2) && rs2[dem.pos(r2, c2)] == false implies #[trigger] filled2.at(
        r2,
        c2,
    ) == dem.nodata by {
        dem.lemma_pos_in_range(r2, c2);
        if dem.pos(r2, c2) == pn {
            dem.lemma_pos_injective(r2, c2, nri, nci);
        }
    }
}

/// Resolving a valid cell flooded from an adjacent resolved valid cell,
/// raising it exactly to the higher of its own elevation and the
/// neighbour's level, preserves the flood state.
#[verifier::rlimit(20)]
pub(crate) proof fn lemma_resolve_flood(
    dem: Grid,
    filled1: Grid,
    filled2: Grid,
    rs1: Seq<bool>,
    rs2: Seq<bool>,
    nri: int,
    nci: int,
    qr: int,
    qc: int,
)
    requires
        resolve_shape(dem, filled1, filled2, rs1, rs2, nri, nci),
        dem.is_valid(nri, nci),
        dem.is_valid(qr, qc),
        rs1[dem.pos(qr, qc)] == true,
        adjacent8(nri, nci, qr, qc),
        filled2.at(nri, nci) == if dem.at(nri, nci) < filled1.at(qr, qc) {
            filled1.at(qr, qc)
        } else {
            dem.at(nri, nci)
        },
    ensures
        flood_state(dem, filled2, rs2),
{
    let pn = dem.pos(nri, nci);
    dem.lemma_pos_in_range(nri, nci);
    dem.lemma_pos_in_range(qr, qc);
    lemma_resolve_keeps_old(dem, filled1, filled2, rs1, rs2, nri, nci);
    assert(!(qr == nri && qc == nci));
    assert(cell_ok(dem, filled1, rs1, qr, qc));
    assert(filled2.at(qr, qc) == filled1.at(qr, qc));
    lemma_paths_stable(dem, filled1, filled2, rs1, qr, qc);
    let path = choose|path: Seq<(int, int)>|
        #[trigger] drain_path(dem, filled2, path, qr, qc) && path_resolved(dem, rs1, path);
    assert forall|j: int|
        0 <= j < path.len() implies rs2[dem.pos((#[trigger] path[j]).0, path[j].1)] == true by {
        dem.lemma_pos_in_range(path[j].0, path[j].1);
    }
    assert(drain_path(dem, filled2, path, qr, qc) && path_resolved(dem, rs2, path));
    lemma_extend_path(dem, filled2, rs2, nri, nci, qr, qc);
    assert(cell_ok(dem, filled2, rs2, nri, nci));
    assert forall|r2: int, c2: int|
        dem.in_bounds(r2, c2) && rs2[dem.pos(r2, c2)] == false implies #[trigger] filled2.at(
        r2,
        c2,
    ) == dem.nodata by {
        dem.lemma_pos_in_range(r2, c2);
        if dem.pos(r2, c2) == pn {
            dem.lemma_pos_injective(r2, c2, nri, nci);
        }
    }
}
/// Boundary-seeded priority-flood depression filling. The result is a
/// depression-free surface: see [`filled_surface`]. Valid cells on the
/// grid's outer ring seed the flood at their own elevation and are never
/// raised; valid cells that no flood can reach (islands sealed off by
/// interior nodata) keep their own elevation.
#[verifier::rlimit(60)]
pub fn fill_depressions(dem: &Grid) -> (filled: Grid)
    requires
        dem.wf(),
    ensures
        filled_surface(*dem, filled),
{
    let rows: usize = dem.num_rows();
    let cols: usize = dem.num_cols();
    let n: usize = dem.data.len();
    let ghost nn: int = dem.rows * dem.cols;
    let nd: i64 = dem.nodata_value();
    let mut filled = Grid::new(rows, cols, nd, nd);
    let mut resolved: Vec<bool> = vec![false; n];
    let mut queue: VecDeque<(i64, i64)> = VecDeque::new();
    let mut pq: Vec<(i64, i64)> = Vec::new();
    let mut r: usize = 0;
    while r < rows
        invariant
            dem.wf(),
            rows == dem.rows,
            cols == dem.cols,
            nd == dem.nodata,
            r <= rows,
            forall|k: int|
                0 <= k < queue@.len() ==> {
                    let q = #[trigger] queue@[k];
                    &&& dem.at(q.0 as int, q.1 as int) == dem.nodata
                    &&& -1 <= q.0 <= dem.rows
                    &&& -1 <= q.1 <= dem.cols
                    &&& (dem.in_bounds(q.0 as int, q.1 as int) ==> resolved@[dem.pos(
                        q.0 as int,
                        q.1 as int,
                    )] == true)
                },
            forall|a: int, b: int|
                #![trigger frame_of(*dem, a, b)]
                border_cell(*dem, a, b) && frame_of(*dem, a, b).1 == -1 && a < r ==> exists|k: int|
                    0 <= k < queue@.len() && (#[trigger] queue@[k]).0 == a && queue@[k].1 == -1,
            forall|a: int, b: int|
                #![trigger frame_of(*dem, a, b)]
                border_cell(*dem, a, b) && frame_of(*dem, a, b).1 == dem.cols && a < r
                    ==> exists|k: int|
                    0 <= k < queue@.len() && (#[trigger] queue@[k]).0 == a && queue@[k].1
                        == dem.cols,
        decreases rows - r,
    {
        let ghost queue0 = queue@;
        queue.push_back((r as i64, -1));
        queue.push_back((r as i64, cols as i64));
        proof {
            assert(queue@[queue@.len() - 2] == (r as i64, -1i64));
            assert(queue@[queue@.len() - 1] == (r as i64, cols as i64));
            assert forall|a: int, b: int|
                border_cell(*dem, a, b) && #[trigger] frame_of(*dem, a, b).1 == -1 && a < r
                    + 1 implies exists|k: int|
                0 <= k < queue@.len() && (#[trigger] queue@[k]).0 == a && queue@[k].1 == -1 by {
                if a == r {
                    assert(queue@[queue@.len() - 2].0 == a && queue@[queue@.len() - 2].1 == -1);
                } else {
                    let k0 = choose|k: int|
                        0 <= k < queue0.len() && (#[trigger] queue0[k]).0 == a && queue0[k].1
                            == -1;
                    assert(queue@[k0].0 == a && queue@[k0].1 == -1);
                }
            }
            assert forall|a: int, b: int|
                border_cell(*dem, a, b) && #[trigger] frame_of(*dem, a, b).1 == dem.cols && a < r
                    + 1 implies exists|k: int|
                0 <= k < queue@.len() && (#[trigger] queue@[k]).0 == a && queue@[k].1
                    == dem.cols by {
                if a == r {
                    assert(queue@[queue@.len() - 1].0 == a && queue@[queue@.len() - 1].1
                        == dem.cols);
                } else {
                    let k0 = choose|k: int|
                        0 <= k < queue0.len() && (#[trigger] queue0[k]).0 == a && queue0[k].1
                            == dem.cols;
                    assert(queue@[k0].0 == a && queue@[k0].1 == dem.cols);
                }
            }
        }
        r = r + 1;
    }
    let mut c: usize = 0;
    while c < cols
        invariant
            dem.wf(),
            rows == dem.rows,
            cols == dem.cols,
            nd == dem.nodata,
            c <= cols,
            forall|k: int|
                0 <= k < queue@.len() ==> {
                    let q = #[trigger] queue@[k];
                    &&& dem.at(q.0 as int, q.1 as int) == dem.nodata
                    &&& -1 <= q.0 <= dem.rows
                    &&& -1 <= q.1 <= dem.cols
                    &&& (dem.in_bounds(q.0 as int, q.1 as int) ==> resolved@[dem.pos(
                        q.0 as int,
                        q.1 as int,
                    )] == true)
                },
            forall|a: int, b: int|
                #![trigger frame_of(*dem, a, b)]
                border_cell(*dem, a, b) && frame_of(*dem, a, b).1 == -1 ==> exists|k: int|
                    0 <= k < queue@.len() && (#[trigger] queue@[k]).0 == a && queue@[k].1 == -1,
            forall|a: int, b: int|
                #![trigger frame_of(*dem, a, b)]
                border_cell(*dem, a, b) && frame_of(*dem, a, b).1 == dem.cols ==> exists|k: int|
                    0 <= k < queue@.len() && (#[trigger] queue@[k]).0 == a && queue@[k].1
                        == dem.cols,
            forall|a: int, b: int|
                #![trigger frame_of(*dem, a, b)]
                border_cell(*dem, a, b) && frame_of(*dem, a, b).0 == -1 && b < c ==> exists|k: int|
                    0 <= k < queue@.len() && (#[trigger] queue@[k]).0 == -1 && queue@[k].1 == b,
            forall|a: int, b: int|
                #![trigger frame_of(*dem, a, b)]
                border_cell(*dem, a, b) && frame_of(*dem, a, b).0 == dem.rows && b < c
                    ==> exists|k: int|
                    0 <= k < queue@.len() && (#[trigger] queue@[k]).0 == dem.rows && queue@[k].1
                        == b,
        decreases cols - c,
    {
        let ghost queue0 = queue@;
        queue.push_back((-1, c as i64));
        queue.push_back((rows as i64, c as i64));
        proof {
            assert(queue@[queue@.len() - 2] == (-1i64, c as i64));
            assert(queue@[queue@.len() - 1] == (rows as i64, c as i64));
            assert forall|a: int, b: int|
                border_cell(*dem, a, b) && #[trigger] frame_of(*dem, a, b).1 == -1 implies exists|
                k: int,
            |
                0 <= k < queue@.len() && (#[trigger] queue@[k]).0 == a && queue@[k].1 == -1 by {
                let k0 = choose|k: int|
                    0 <= k < queue0.len() && (#[trigger] queue0[k]).0 == a && queue0[k].1 == -1;
                assert(queue@[k0].0 == a && queue@[k0].1 == -1);
            }
            assert forall|a: int, b: int|
                border_cell(*dem, a, b) && #[trigger] frame_of(*dem, a, b).1
                    == dem.cols implies exists|k: int|
                0 <= k < queue@.len() && (#[trigger] queue@[k]).0 == a && queue@[k].1
                    == dem.cols by {
                let k0 = choose|k: int|
                    0 <= k < queue0.len() && (#[trigger] queue0[k]).0 == a && queue0[k].1
                        == dem.cols;
                assert(queue@[k0].0 == a && queue@[k0].1 == dem.cols);
            }
            assert forall|a: int, b: int|
                border_cell(*dem, a, b) && #[trigger] frame_of(*dem, a, b).0 == -1 && b < c
                    + 1 implies exists|k: int|
                0 <= k < queue@.len() && (#[trigger] queue@[k]).0 == -1 && queue@[k].1 == b by {
                if b == c {
                    assert(queue@[queue@.len() - 2].0 == -1 && queue@[queue@.len() - 2].1 == b);
                } else {
                    let k0 = choose|k: int|
                        0 <= k < queue0.len() && (#[trigger] queue0[k]).0 == -1 && queue0[k].1
                            == b;
                    assert(queue@[k0].0 == -1 && queue@[k0].1 == b);
                }
            }
            assert forall|a: int, b: int|
                border_cell(*dem, a, b) && #[trigger] frame_of(*dem, a, b).0 == dem.rows && b < c
                    + 1 implies exists|k: int|
                0 <= k < queue@.len() && (#[trigger] queue@[k]).0 == dem.rows && queue@[k].1
                    == b by {
                if b == c {
                    assert(queue@[queue@.len() - 1].0 == dem.rows && queue@[queue@.len() - 1].1
                        == b);
                } else {
                    let k0 = choose|k: int|
                        0 <= k < queue0.len() && (#[trigger] queue0[k]).0 == dem.rows
                            && queue0[k].1 == b;
                    assert(queue@[k0].0 == dem.rows && queue@[k0].1 == b);
                }
            }
        }
        c = c + 1;
    }
    proof {
        assert forall|a: int, b: int| dem.in_bounds(a, b) implies resolved@[dem.pos(a, b)]
            == false by {
            dem.lemma_pos_in_range(a, b);
        }
        assert(flood_state(*dem, filled, resolved@));
        assert forall|a: int, b: int|
            dem.in_bounds(a, b) && resolved@[dem.pos(a, b)] == true && dem.is_valid(
                a,
                b,
            ) implies #[trigger] open_in(pq@, a, b) by {
            dem.lemma_pos_in_range(a, b);
        }
        assert(all_open(*dem, resolved@, pq@));
        assert forall|a: int, b: int|
            dem.in_bounds(a, b) && resolved@[dem.pos(a, b)] == true && dem.at(a, b)
                == dem.nodata implies #[trigger] sweep_ok(*dem, resolved@, queue@, a, b) by {
            dem.lemma_pos_in_range(a, b);
        }
        assert(sweep_frontier(*dem, resolved@, queue@));
        assert forall|a: int, b: int|
            dem.in_bounds(a, b) && resolved@[dem.pos(a, b)] == true && dem.at(a, b)
                == dem.nodata implies #[trigger] nodata_linked(*dem, a, b) by {
            dem.lemma_pos_in_range(a, b);
        }
        assert(sweep_linked(*dem, resolved@));
        assert forall|a: int, b: int|
            border_cell(*dem, a, b) && resolved@[dem.pos(a, b)] == false implies exists|k: int|
            0 <= k < queue@.len() && (#[trigger] queue@[k]).0 == frame_of(*dem, a, b).0
                && queue@[k].1 == frame_of(*dem, a, b).1 by {
            if a == 0 {
                assert(frame_of(*dem, a, b).0 == -1 && frame_of(*dem, a, b).1 == b);
                let k0 = choose|k: int|
                    0 <= k < queue@.len() && (#[trigger] queue@[k]).0 == -1 && queue@[k].1 == b;
                assert(queue@[k0].0 == frame_of(*dem, a, b).0 && queue@[k0].1 == frame_of(
                    *dem,
                    a,
                    b,
                ).1);
            } else if a == dem.rows - 1 {
                assert(frame_of(*dem, a, b).0 == dem.rows && frame_of(*dem, a, b).1 == b);
                let k0 = choose|k: int|
                    0 <= k < queue@.len() && (#[trigger] queue@[k]).0 == dem.rows && queue@[k].1
                        == b;
                assert(queue@[k0].0 == frame_of(*dem, a, b).0 && queue@[k0].1 == frame_of(
                    *dem,
                    a,
                    b,
                ).1);
            } else if b == 0 {
                assert(frame_of(*dem, a, b).0 == a && frame_of(*dem, a, b).1 == -1);
                let k0 = choose|k: int|
                    0 <= k < queue@.len() && (#[trigger] queue@[k]).0 == a && queue@[k].1 == -1;
                assert(queue@[k0].0 == frame_of(*dem, a, b).0 && queue@[k0].1 == frame_of(
                    *dem,
                    a,
                    b,
                ).1);
            } else {
                assert(frame_of(*dem, a, b).0 == a && frame_of(*dem, a, b).1 == dem.cols);
                let k0 = choose|k: int|
                    0 <= k < queue@.len() && (#[trigger] queue@[k]).0 == a && queue@[k].1
                        == dem.cols;
                assert(queue@[k0].0 == frame_of(*dem, a, b).0 && queue@[k0].1 == frame_of(
                    *dem,
                    a,
                    b,
                ).1);
            }
        }
    }
    while queue.len() > 0
        invariant
            flood_state(*dem, filled, resolved@),
            all_open(*dem, resolved@, pq@),
            sweep_frontier(*dem, resolved@, queue@),
            sweep_linked(*dem, resolved@),
            rows == dem.rows,
            cols == dem.cols,
            nd == dem.nodata,
            nn == dem.rows * dem.cols,
            forall|k: int|
                0 <= k < queue@.len() ==> {
                    let q = #[trigger] queue@[k];
                    &&& dem.at(q.0 as int, q.1 as int) == dem.nodata
                    &&& -1 <= q.0 <= dem.rows
                    &&& -1 <= q.1 <= dem.cols
                    &&& (dem.in_bounds(q.0 as int, q.1 as int) ==> resolved@[dem.pos(
                        q.0 as int,
                        q.1 as int,
                    )] == true)
                },
            forall|k: int|
                0 <= k < pq@.len() ==> {
                    let q = #[trigger] pq@[k];
                    &&& dem.is_valid(q.0 as int, q.1 as int)
                    &&& resolved@[dem.pos(q.0 as int, q.1 as int)] == true
                },
            forall|a: int, b: int|
                dem.in_bounds(a, b) && resolved@[dem.pos(a, b)] == true && dem.is_valid(a, b)
                    ==> #[trigger] filled.at(a, b) == dem.at(a, b),
            forall|a: int, b: int|
                border_cell(*dem, a, b) && resolved@[dem.pos(a, b)] == false ==> exists|k: int|
                    0 <= k < queue@.len() && (#[trigger] queue@[k]).0 == frame_of(*dem, a, b).0
                        && queue@[k].1 == frame_of(*dem, a, b).1,
        decreases 9 * unresolved_count(resolved@, nn) + queue@.len(),
    {
        let ghost queuep = queue@;
        let cell = queue.pop_front().unwrap();
        proof {
            lemma_open_in_push(queue@, cell);
            assert forall|a2: int, b2: int| #[trigger] open_in(queuep, a2, b2) implies open_in(
                queue@.push(cell),
                a2,
                b2,
            ) by {
                let k0 = choose|k: int|
                    0 <= k < queuep.len() && (#[trigger] queuep[k]).0 == a2 && queuep[k].1 == b2;
                if k0 == 0 {
                    assert(queuep[0] == cell);
                    assert(open_in(queue@.push(cell), cell.0 as int, cell.1 as int));
                } else {
                    assert(queue@.push(cell)[k0 - 1] == queuep[k0]);
                    assert(queue@.push(cell)[k0 - 1].0 == a2 && queue@.push(cell)[k0 - 1].1
                        == b2);
                }
            }
            lemma_sweep_mono(*dem, resolved@, queuep, queue@.push(cell));
            assert forall|a: int, b: int|
                border_cell(*dem, a, b) && resolved@[dem.pos(a, b)] == false implies (exists|
                k: int,
            |
                0 <= k < queue@.len() && (#[trigger] queue@[k]).0 == frame_of(*dem, a, b).0
                    && queue@[k].1 == frame_of(*dem, a, b).1) || (frame_of(*dem, a, b).0
                == cell.0 && frame_of(*dem, a, b).1 == cell.1) by {
                let k0 = choose|k: int|
                    0 <= k < queuep.len() && (#[trigger] queuep[k]).0 == frame_of(*dem, a, b).0
                        && queuep[k].1 == frame_of(*dem, a, b).1;
                if k0 == 0 {
                    assert(queuep[0] == cell);
                } else {
                    assert(queue@[k0 - 1] == queuep[k0]);
                    assert(queue@[k0 - 1].0 == frame_of(*dem, a, b).0 && queue@[k0 - 1].1
                        == frame_of(*dem, a, b).1);
                }
            }
        }
        let ghost m0 = 9 * unresolved_count(resolved@, nn) + queue@.len();
        let mut i: usize = 0;
        while i < 8
            invariant
                flood_state(*dem, filled, resolved@),
                all_open(*dem, resolved@, pq@),
                rows == dem.rows,
                cols == dem.cols,
                nd == dem.nodata,
                nn == dem.rows * dem.cols,
                i <= 8,
                dem.at(cell.0 as int, cell.1 as int) == dem.nodata,
                -1 <= cell.0 <= dem.rows,
                -1 <= cell.1 <= dem.cols,
                forall|k: int|
                    0 <= k < queue@.len() ==> {
                        let q = #[trigger] queue@[k];
                        &&& dem.at(q.0 as int, q.1 as int) == dem.nodata
                        &&& -1 <= q.0 <= dem.rows
                        &&& -1 <= q.1 <= dem.cols
                        &&& (dem.in_bounds(q.0 as int, q.1 as int) ==> resolved@[dem.pos(
                            q.0 as int,
                            q.1 as int,
                        )] == true)
                    },
                forall|k: int|
                    0 <= k < pq@.len() ==> {
                        let q = #[trigger] pq@[k];
                        &&& dem.is_valid(q.0 as int, q.1 as int)
                        &&& resolved@[dem.pos(q.0 as int, q.1 as int)] == true
                    },
                forall|a: int, b: int|
                    dem.in_bounds(a, b) && resolved@[dem.pos(a, b)] == true && dem.is_valid(a, b)
                        ==> #[trigger] filled.at(a, b) == dem.at(a, b),
                forall|a: int, b: int|
                    border_cell(*dem, a, b) && resolved@[dem.pos(a, b)] == false ==> (exists|
                    k: int,
                |
                    0 <= k < queue@.len() && (#[trigger] queue@[k]).0 == frame_of(*dem, a, b).0
                        && queue@[k].1 == frame_of(*dem, a, b).1) || (frame_of(*dem, a, b).0
                    == cell.0 && frame_of(*dem, a, b).1 == cell.1),
                forall|j: int|
                    0 <= j < i ==> !dem.in_bounds(
                        cell.0 as int + off_r(j),
                        cell.1 as int + #[trigger] off_c(j),
                    ) || resolved@[dem.pos(cell.0 as int + off_r(j), cell.1 as int + off_c(j))]
                        == true,
                sweep_frontier(*dem, resolved@, queue@.push(cell)),
                sweep_linked(*dem, resolved@),
                dem.in_bounds(cell.0 as int, cell.1 as int) ==> resolved@[dem.pos(
                    cell.0 as int,
                    cell.1 as int,
                )] == true,
                9 * unresolved_count(resolved@, nn) + queue@.len() <= m0,
            decreases 8 - i,
        {
            let (dr, dc) = offset_of(i);
            let nr: i64 = cell.0 + dr;
            let nc: i64 = cell.1 + dc;
            if nr >= 0 && nc >= 0 && (nr as u64) < (rows as u64) && (nc as u64) < (cols as u64) {
                let pos = dem.pos_of(nr, nc);
                if !resolved[pos] {
                    let ghost rs0 = resolved@;
                    let ghost filled0 = filled;
                    let ghost queue1 = queue@;
                    let z = dem.get(nr, nc);
                    proof {
                        lemma_unresolved_update(rs0, nn, pos as int);
                        lemma_unresolved_nonneg(resolved@, nn);
                    }
                    if z == nd {
                        filled.set(nr, nc, nd);
                        resolved[pos] = true;
                        queue.push_back((nr, nc));
                        proof {
                            lemma_resolve_nodata(
                                *dem,
                                filled0,
                                filled,
                                rs0,
                                resolved@,
                                nr as int,
                                nc as int,
                            );
                            lemma_all_open_skip(*dem, rs0, resolved@, pq@, nr as int, nc as int);
                            if dem.in_bounds(cell.0 as int, cell.1 as int) {
                                assert(nodata_linked(*dem, cell.0 as int, cell.1 as int));
                                lemma_inv_code_props(i as int);
                                assert(cell.0 as int == nr as int + off_r(inv_code(i as int))
                                    && cell.1 as int == nc as int + off_c(inv_code(i as int)));
                                assert(adjacent8(
                                    nr as int,
                                    nc as int,
                                    cell.0 as int,
                                    cell.1 as int,
                                ));
                                lemma_nodata_linked_prepend(
                                    *dem,
                                    nr as int,
                                    nc as int,
                                    cell.0 as int,
                                    cell.1 as int,
                                );
                            } else {
                                lemma_frame_neighbor_on_ring(
                                    *dem,
                                    cell.0 as int,
                                    cell.1 as int,
                                    i as int,
                                );
                                let ringp: Seq<(int, int)> = seq![(nr as int, nc as int)];
                                assert(ringp[0].0 == nr as int && ringp[0].1 == nc as int);
                                assert(nodata_chain(*dem, ringp) && ringp.len() >= 1 && ringp[0].0
                                    == nr as int && ringp[0].1 == nc as int && border_cell(
                                    *dem,
                                    ringp[ringp.len() - 1].0,
                                    ringp[ringp.len() - 1].1,
                                ));
                            }
                            assert(nodata_linked(*dem, nr as int, nc as int));
                            lemma_sweep_linked_grow(*dem, rs0, resolved@, nr as int, nc as int);
                            lemma_sweep_after_nodata(
                                *dem,
                                rs0,
                                resolved@,
                                queue1.push(cell),
                                nr as int,
                                nc as int,
                            );
                            assert forall|a2: int, b2: int|
                                #[trigger] open_in(
                                    queue1.push(cell).push((nr, nc)),
                                    a2,
                                    b2,
                                ) implies open_in(queue@.push(cell), a2, b2) by {
                                let k0 = choose|k: int|
                                    0 <= k < queue1.push(cell).push((nr, nc)).len() && (
                                    #[trigger] queue1.push(cell).push((nr, nc))[k]).0 == a2
                                        && queue1.push(cell).push((nr, nc))[k].1 == b2;
                                if k0 < queue1.len() {
                                    assert(queue@.push(cell)[k0].0 == a2 && queue@.push(cell)[k0].1
                                        == b2);
                                } else if k0 == queue1.len() {
                                    assert(queue@.push(cell)[queue@.len() as int].0 == a2
                                        && queue@.push(cell)[queue@.len() as int].1 == b2);
                                } else {
                                    assert(queue@.push(cell)[queue1.len() as int].0 == a2
                                        && queue@.push(cell)[queue1.len() as int].1 == b2);
                                }
                            }
                            lemma_sweep_mono(
                                *dem,
                                resolved@,
                                queue1.push(cell).push((nr, nc)),
                                queue@.push(cell),
                            );
                            assert forall|k: int|
                                0 <= k < pq@.len() implies {
                                let q = #[trigger] pq@[k];
                                &&& dem.is_valid(q.0 as int, q.1 as int)
                                &&& resolved@[dem.pos(q.0 as int, q.1 as int)] == true
                            } by {
                                dem.lemma_pos_in_range(pq@[k].0 as int, pq@[k].1 as int);
                            }
                            assert forall|a: int, b: int|
                                dem.in_bounds(a, b) && resolved@[dem.pos(a, b)] == true
                                    && dem.is_valid(a, b) implies #[trigger] filled.at(a, b)
                                == dem.at(a, b) by {
                                dem.lemma_pos_in_range(a, b);
                                if dem.pos(a, b) == dem.pos(nr as int, nc as int) {
                                    dem.lemma_pos_injective(a, b, nr as int, nc as int);
                                }
                            }
                            assert forall|a: int, b: int|
                                border_cell(*dem, a, b) && resolved@[dem.pos(a, b)]
                                    == false implies (exists|k: int|
                                0 <= k < queue@.len() && (#[trigger] queue@[k]).0 == frame_of(
                                    *dem,
                                    a,
                                    b,
                                ).0 && queue@[k].1 == frame_of(*dem, a, b).1) || (frame_of(
                                *dem,
                                a,
                                b,
                            ).0 == cell.0 && frame_of(*dem, a, b).1 == cell.1) by {
                                dem.lemma_pos_in_range(a, b);
                                assert(rs0[dem.pos(a, b)] == false);
                                if !(frame_of(*dem, a, b).0 == cell.0 && frame_of(*dem, a, b).1
                                    == cell.1) {
                                    let k0 = choose|k: int|
                                        0 <= k < queue1.len() && (#[trigger] queue1[k]).0
                                            == frame_of(*dem, a, b).0 && queue1[k].1 == frame_of(
                                            *dem,
                                            a,
                                            b,
                                        ).1;
                                    assert(queue@[k0] == queue1[k0]);
                                    assert(queue@[k0].0 == frame_of(*dem, a, b).0 && queue@[k0].1
                                        == frame_of(*dem, a, b).1);
                                }
                            }
                        }
                    } else {
                        filled.set(nr, nc, z);
                        resolved[pos] = true;
                        let ghost pq0 = pq@;
                        pq.push((nr, nc));
                        proof {
                            lemma_all_open_push(*dem, rs0, resolved@, pq0, nr as int, nc as int);
                            assert(pq@ == pq0.push((nr, nc)));
                            lemma_sweep_after_valid(
                                *dem,
                                rs0,
                                resolved@,
                                queue@.push(cell),
                                nr as int,
                                nc as int,
                            );
                            lemma_sweep_linked_grow(*dem, rs0, resolved@, nr as int, nc as int);
                            lemma_inv_code_props(i as int);
                            if dem.in_bounds(cell.0 as int, cell.1 as int) {
                                assert(nodata_linked(*dem, cell.0 as int, cell.1 as int));
                                let qpath = choose|path: Seq<(int, int)>|
                                    #[trigger] nodata_chain(*dem, path) && path.len() >= 1
                                        && path[0].0 == cell.0 as int && path[0].1
                                        == cell.1 as int && border_cell(
                                        *dem,
                                        path[path.len() - 1].0,
                                        path[path.len() - 1].1,
                                    );
                                assert(cell.0 as int == nr as int + off_r(inv_code(i as int))
                                    && cell.1 as int == nc as int + off_c(inv_code(i as int)));
                                assert(adjacent8(
                                    nr as int,
                                    nc as int,
                                    qpath[0].0,
                                    qpath[0].1,
                                ));
                                assert(outside_linked(*dem, nr as int, nc as int));
                            } else {
                                lemma_frame_neighbor_on_ring(
                                    *dem,
                                    cell.0 as int,
                                    cell.1 as int,
                                    i as int,
                                );
                                assert(outside_linked(*dem, nr as int, nc as int));
                            }
                            lemma_resolve_seed(
                                *dem,
                                filled0,
                                filled,
                                rs0,
                                resolved@,
                                nr as int,
                                nc as int,
                            );
                            assert forall|k: int|
                                0 <= k < pq@.len() implies {
                                let q = #[trigger] pq@[k];
                                &&& dem.is_valid(q.0 as int, q.1 as int)
                                &&& resolved@[dem.pos(q.0 as int, q.1 as int)] == true
                            } by {
                                dem.lemma_pos_in_range(pq@[k].0 as int, pq@[k].1 as int);
                            }
                            assert forall|a: int, b: int|
                                dem.in_bounds(a, b) && resolved@[dem.pos(a, b)] == true
                                    && dem.is_valid(a, b) implies #[trigger] filled.at(a, b)
                                == dem.at(a, b) by {
                                dem.lemma_pos_in_range(a, b);
                                if dem.pos(a, b) == dem.pos(nr as int, nc as int) {
                                    dem.lemma_pos_injective(a, b, nr as int, nc as int);
                                }
                            }
                            assert forall|a: int, b: int|
                                border_cell(*dem, a, b) && resolved@[dem.pos(a, b)]
                                    == false implies (exists|k: int|
                                0 <= k < queue@.len() && (#[trigger] queue@[k]).0 == frame_of(
                                    *dem,
                                    a,
                                    b,
                                ).0 && queue@[k].1 == frame_of(*dem, a, b).1) || (frame_of(
                                *dem,
                                a,
                                b,
                            ).0 == cell.0 && frame_of(*dem, a, b).1 == cell.1) by {
                                dem.lemma_pos_in_range(a, b);
                                assert(rs0[dem.pos(a, b)] == false);
                                if !(frame_of(*dem, a, b).0 == cell.0 && frame_of(*dem, a, b).1
                                    == cell.1) {
                                    let k0 = choose|k: int|
                                        0 <= k < queue1.len() && (#[trigger] queue1[k]).0
                                            == frame_of(*dem, a, b).0 && queue1[k].1 == frame_of(
                                            *dem,
                                            a,
                                            b,
                                        ).1;
                                    assert(queue@[k0].0 == frame_of(*dem, a, b).0 && queue@[k0].1
                                        == frame_of(*dem, a, b).1);
                                }
                            }
                        }
                    }
                }
            }
            proof {
                assert forall|j: int|
                    0 <= j < i + 1 && dem.in_bounds(
                        cell.0 as int + off_r(j),
                        cell.1 as int + #[trigger] off_c(j),
                    ) implies resolved@[dem.pos(
                    cell.0 as int + off_r(j),
                    cell.1 as int + off_c(j),
                )] == true by {
                    dem.lemma_pos_in_range(cell.0 as int + off_r(j), cell.1 as int + off_c(j));
                }
            }
            proof {
                if dem.in_bounds(cell.0 as int, cell.1 as int) {
                    dem.lemma_pos_in_range(cell.0 as int, cell.1 as int);
                }
                assert forall|k: int|
                    0 <= k < queue@.len() implies {
                    let q = #[trigger] queue@[k];
                    &&& dem.at(q.0 as int, q.1 as int) == dem.nodata
                    &&& -1 <= q.0 <= dem.rows
                    &&& -1 <= q.1 <= dem.cols
                    &&& (dem.in_bounds(q.0 as int, q.1 as int) ==> resolved@[dem.pos(
                        q.0 as int,
                        q.1 as int,
                    )] == true)
                } by {
                    if dem.in_bounds(queue@[k].0 as int, queue@[k].1 as int) {
                        dem.lemma_pos_in_range(queue@[k].0 as int, queue@[k].1 as int);
                    }
                }
            }
            i = i + 1;
        }
        proof {
            lemma_unresolved_nonneg(resolved@, nn);
            assert forall|a2: int, b2: int|
                #[trigger] open_in(queue@.push(cell), a2, b2) implies open_in(queue@, a2, b2) || (
                a2 == cell.0 as int && b2 == cell.1 as int) by {
                let k0 = choose|k: int|
                    0 <= k < queue@.push(cell).len() && (#[trigger] queue@.push(cell)[k]).0 == a2
                        && queue@.push(cell)[k].1 == b2;
                if k0 < queue@.len() {
                    assert(queue@[k0].0 == a2 && queue@[k0].1 == b2);
                }
            }
            assert forall|i2: int|
                0 <= i2 < 8 && dem.in_bounds(
                    cell.0 as int + off_r(i2),
                    cell.1 as int + #[trigger] off_c(i2),
                ) implies resolved@[dem.pos(
                cell.0 as int + off_r(i2),
                cell.1 as int + off_c(i2),
            )] == true by {}
            if dem.in_bounds(cell.0 as int, cell.1 as int) {
                assert(closed_all_at(*dem, resolved@, cell.0 as int, cell.1 as int));
            }
            lemma_sweep_close_cell(
                *dem,
                resolved@,
                queue@.push(cell),
                queue@,
                cell.0 as int,
                cell.1 as int,
            );
            assert forall|a: int, b: int|
                border_cell(*dem, a, b) && resolved@[dem.pos(a, b)] == false implies exists|k: int|
                0 <= k < queue@.len() && (#[trigger] queue@[k]).0 == frame_of(*dem, a, b).0
                    && queue@[k].1 == frame_of(*dem, a, b).1 by {
                if frame_of(*dem, a, b).0 == cell.0 && frame_of(*dem, a, b).1 == cell.1 {
                    // the popped frame cell reaches this border cell directly,
                    // so the sweep above has resolved it
                    dem.lemma_pos_in_range(a, b);
                    if a == 0 {
                        assert(a == cell.0 as int + off_r(3) && b == cell.1 as int + off_c(3));
                    } else if a == dem.rows - 1 {
                        assert(a == cell.0 as int + off_r(7) && b == cell.1 as int + off_c(7));
                    } else if b == 0 {
                        assert(a == cell.0 as int + off_r(1) && b == cell.1 as int + off_c(1));
                    } else {
                        assert(a == cell.0 as int + off_r(5) && b == cell.1 as int + off_c(5));
                    }
                    assert(false);
                }
            }
        }
    }
    proof {
        // every outer-ring cell was reached from its frame neighbour
        assert forall|a: int, b: int| #[trigger] border_cell(*dem, a, b) implies resolved@[
        dem.pos(a, b)] == true by {
            dem.lemma_pos_in_range(a, b);
            if resolved@[dem.pos(a, b)] == false {
                assert(false);
            }
        }
        assert(ring_done(*dem, resolved@));
        assert forall|a: int, b: int|
            dem.in_bounds(a, b) && resolved@[dem.pos(a, b)] == true && dem.at(a, b)
                == dem.nodata implies #[trigger] closed_all_at(*dem, resolved@, a, b) by {
            assert(sweep_ok(*dem, resolved@, queue@, a, b));
            if open_in(queue@, a, b) {
                let k0 = choose|k: int|
                    0 <= k < queue@.len() && (#[trigger] queue@[k]).0 == a && queue@[k].1 == b;
                assert(false);
            }
        }
        assert(sweep_closed(*dem, resolved@));
        // every outlet was seeded at its own elevation: straight from the
        // ring, or through the nodata region that runs out to it
        assert forall|a: int, b: int|
            dem.is_valid(a, b) && outside_linked(*dem, a, b) implies #[trigger] outside_ok(
            *dem,
            filled,
            resolved@,
            a,
            b,
        ) by {
            dem.lemma_pos_in_range(a, b);
            if border_cell(*dem, a, b) {
                assert(resolved@[dem.pos(a, b)] == true);
            } else {
                let path = choose|path: Seq<(int, int)>|
                    #[trigger] nodata_chain(*dem, path) && path.len() >= 1 && adjacent8(
                        a,
                        b,
                        path[0].0,
                        path[0].1,
                    ) && border_cell(*dem, path[path.len() - 1].0, path[path.len() - 1].1);
                lemma_nodata_chain_resolved(*dem, resolved@, path, 0);
                assert(closed_all_at(*dem, resolved@, path[0].0, path[0].1));
                let i = choose|i: int|
                    0 <= i < 8 && path[0].0 == a + off_r(i) && path[0].1 == b + #[trigger] off_c(
                        i,
                    );
                lemma_inv_code_props(i);
                assert(path[0].0 + off_r(inv_code(i)) == a && path[0].1 + off_c(inv_code(i))
                    == b);
                assert(resolved@[dem.pos(
                    path[0].0 + off_r(inv_code(i)),
                    path[0].1 + off_c(inv_code(i)),
                )] == true);
                assert(resolved@[dem.pos(a, b)] == true);
            }
            assert(outside_ok(*dem, filled, resolved@, a, b));
        }
        assert(outside_pinned(*dem, filled, resolved@));
    }
    let ghost mut floor: int = (i64::MIN as int) - 1;
    proof {
        assert forall|a: int, b: int|
            dem.in_bounds(a, b) && resolved@[dem.pos(a, b)] == true && dem.is_valid(
                a,
                b,
            ) implies #[trigger] frontier_ok(*dem, filled, resolved@, pq@, floor, a, b) by {
            dem.lemma_pos_in_range(a, b);
            assert(open_in(pq@, a, b));
        }
        assert(flood_frontier(*dem, filled, resolved@, pq@, floor));
        assert forall|a: int, b: int, i: int|
            0 <= i < 8 && dem.is_valid(a, b) && resolved@[dem.pos(a, b)] == true && dem.is_valid(
                a + off_r(i),
                b + off_c(i),
            ) && resolved@[dem.pos(a + off_r(i), b + off_c(i))] == true implies #[trigger] capped_step(
            *dem,
            filled,
            a,
            b,
            i,
        ) by {
            dem.lemma_pos_in_range(a, b);
            assert(filled.at(a, b) == dem.at(a, b));
            assert(capped_step(*dem, filled, a, b, i));
        }
        assert(locally_capped(*dem, filled, resolved@));
        assert forall|k: int|
            0 <= k < pq@.len() implies {
            let q = #[trigger] pq@[k];
            &&& floor <= filled.at(q.0 as int, q.1 as int)
            &&& (filled.at(q.0 as int, q.1 as int) == dem.at(q.0 as int, q.1 as int) || filled.at(
                q.0 as int,
                q.1 as int,
            ) as int <= floor)
        } by {
            dem.lemma_pos_in_range(pq@[k].0 as int, pq@[k].1 as int);
            assert(filled.at(pq@[k].0 as int, pq@[k].1 as int) == dem.at(
                pq@[k].0 as int,
                pq@[k].1 as int,
            ));
        }
    }
    while pq.len() > 0
        invariant
            flood_state(*dem, filled, resolved@),
            rows == dem.rows,
            cols == dem.cols,
            nd == dem.nodata,
            nn == dem.rows * dem.cols,
            forall|k: int|
                0 <= k < pq@.len() ==> {
                    let q = #[trigger] pq@[k];
                    &&& dem.is_valid(q.0 as int, q.1 as int)
                    &&& resolved@[dem.pos(q.0 as int, q.1 as int)] == true
                    &&& floor <= filled.at(q.0 as int, q.1 as int)
                    &&& (filled.at(q.0 as int, q.1 as int) == dem.at(q.0 as int, q.1 as int)
                        || filled.at(q.0 as int, q.1 as int) as int <= floor)
                },
            outside_pinned(*dem, filled, resolved@),
            locally_capped(*dem, filled, resolved@),
            flood_frontier(*dem, filled, resolved@, pq@, floor),
        decreases 9 * unresolved_count(resolved@, nn) + pq@.len(),
    {
        let mut best: usize = 0;
        let mut bi: usize = 1;
        while bi < pq.len()
            invariant
                flood_state(*dem, filled, resolved@),
                pq@.len() > 0,
                best < pq@.len(),
                best < bi,
                bi <= pq@.len(),
                forall|k: int|
                    0 <= k < pq@.len() ==> {
                        let q = #[trigger] pq@[k];
                        &&& dem.is_valid(q.0 as int, q.1 as int)
                        &&& resolved@[dem.pos(q.0 as int, q.1 as int)] == true
                        &&& floor <= filled.at(q.0 as int, q.1 as int)
                        &&& (filled.at(q.0 as int, q.1 as int) == dem.at(q.0 as int, q.1 as int)
                            || filled.at(q.0 as int, q.1 as int) as int <= floor)
                    },
                forall|k: int|
                    0 <= k < bi ==> filled.at(
                        pq@[best as int].0 as int,
                        pq@[best as int].1 as int,
                    ) <= filled.at(
                        (#[trigger] pq@[k]).0 as int,
                        pq@[k].1 as int,
                    ),
                outside_pinned(*dem, filled, resolved@),
                locally_capped(*dem, filled, resolved@),
                flood_frontier(*dem, filled, resolved@, pq@, floor),
            decreases pq@.len() - bi,
        {
            let a = pq[bi];
            let b = pq[best];
            if filled.get(a.0, a.1) < filled.get(b.0, b.1) {
                best = bi;
            }
            bi = bi + 1;
        }
        let ghost pq0 = pq@;
        let cell = pq.swap_remove(best);
        let zq: i64 = filled.get(cell.0, cell.1);
        proof {
            assert(cell == pq0[best as int]);
            assert forall|k: int|
                0 <= k < pq@.len() implies {
                let q = #[trigger] pq@[k];
                &&& dem.is_valid(q.0 as int, q.1 as int)
                &&& resolved@[dem.pos(q.0 as int, q.1 as int)] == true
                &&& zq <= filled.at(q.0 as int, q.1 as int)
                &&& (filled.at(q.0 as int, q.1 as int) == dem.at(q.0 as int, q.1 as int)
                    || filled.at(q.0 as int, q.1 as int) as int <= zq)
            } by {
                assert(pq@[k] == pq0[k] || pq@[k] == pq0[pq0.len() - 1]);
            }
            let ghost floor0 = floor;
            floor = zq as int;
            lemma_open_in_push(pq@, cell);
            assert forall|a2: int, b2: int| #[trigger] open_in(pq0, a2, b2) implies open_in(
                pq@.push(cell),
                a2,
                b2,
            ) by {
                let k0 = choose|k: int|
                    0 <= k < pq0.len() && (#[trigger] pq0[k]).0 == a2 && pq0[k].1 == b2;
                if k0 == best {
                    assert(open_in(pq@.push(cell), cell.0 as int, cell.1 as int));
                } else if k0 == pq0.len() - 1 {
                    assert(pq@.push(cell)[best as int].0 == a2 && pq@.push(cell)[best as int].1
                        == b2);
                } else {
                    assert(pq@.push(cell)[k0].0 == a2 && pq@.push(cell)[k0].1 == b2);
                }
            }
            lemma_frontier_mono(
                *dem,
                filled,
                resolved@,
                pq0,
                pq@.push(cell),
                floor0,
                floor,
            );
        }
        let ghost m0 = 9 * unresolved_count(resolved@, nn) + pq@.len();
        let mut i: usize = 0;
        while i < 8
            invariant
                flood_state(*dem, filled, resolved@),
                rows == dem.rows,
                cols == dem.cols,
                nd == dem.nodata,
                nn == dem.rows * dem.cols,
                i <= 8,
                dem.is_valid(cell.0 as int, cell.1 as int),
                resolved@[dem.pos(cell.0 as int, cell.1 as int)] == true,
                zq == filled.at(cell.0 as int, cell.1 as int),
                floor == zq as int,
                forall|k: int|
                    0 <= k < pq@.len() ==> {
                        let q = #[trigger] pq@[k];
                        &&& dem.is_valid(q.0 as int, q.1 as int)
                        &&& resolved@[dem.pos(q.0 as int, q.1 as int)] == true
                        &&& floor <= filled.at(q.0 as int, q.1 as int)
                        &&& (filled.at(q.0 as int, q.1 as int) == dem.at(q.0 as int, q.1 as int)
                            || filled.at(q.0 as int, q.1 as int) as int <= floor)
                    },
                outside_pinned(*dem, filled, resolved@),
                locally_capped(*dem, filled, resolved@),
                flood_frontier(*dem, filled, resolved@, pq@.push(cell), floor),
                forall|j: int|
                    0 <= j < i ==> !dem.in_bounds(
                        cell.0 as int + off_r(j),
                        cell.1 as int + #[trigger] off_c(j),
                    ) || resolved@[dem.pos(cell.0 as int + off_r(j), cell.1 as int + off_c(j))]
                        == true,
                9 * unresolved_count(resolved@, nn) + pq@.len() <= m0,
            decreases 8 - i,
        {
            let (dr, dc) = offset_of(i);
            let nr: i64 = cell.0 + dr;
            let nc: i64 = cell.1 + dc;
            if nr >= 0 && nc >= 0 && (nr as u64) < (rows as u64) && (nc as u64) < (cols as u64) {
                let pos = dem.pos_of(nr, nc);
                if !resolved[pos] {
                    let ghost rs0 = resolved@;
                    let ghost filled0 = filled;
                    let z = dem.get(nr, nc);
                    proof {
                        lemma_unresolved_update(rs0, nn, pos as int);
                        lemma_unresolved_nonneg(resolved@, nn);
                        dem.lemma_pos_in_range(cell.0 as int, cell.1 as int);
                        if dem.pos(nr as int, nc as int) == dem.pos(cell.0 as int, cell.1 as int) {
                            dem.lemma_pos_injective(
                                nr as int,
                                nc as int,
                                cell.0 as int,
                                cell.1 as int,
                            );
                            assert(false);
                        }
                    }
                    if z != nd {
                        let f: i64 = if z < zq {
                            zq
                        } else {
                            z
                        };
                        filled.set(nr, nc, f);
                        resolved[pos] = true;
                        let ghost pqa = pq@;
                        pq.push((nr, nc));
                        proof {
                            lemma_inv_code_props(i as int);
                            assert(cell.0 as int == nr as int + off_r(inv_code(i as int))
                                && cell.1 as int == nc as int + off_c(inv_code(i as int)));
                            assert(adjacent8(
                                nr as int,
                                nc as int,
                                cell.0 as int,
                                cell.1 as int,
                            ));
                            lemma_resolve_flood(
                                *dem,
                                filled0,
                                filled,
                                rs0,
                                resolved@,
                                nr as int,
                                nc as int,
                                cell.0 as int,
                                cell.1 as int,
                            );
                            lemma_outside_still_pinned(
                                *dem,
                                filled0,
                                filled,
                                rs0,
                                resolved@,
                                nr as int,
                                nc as int,
                            );
                            // the flood level and cap survive this fill
                            let ghost open0 = pqa.push(cell);
                            assert forall|k: int|
                                0 <= k < open0.len() implies {
                                let m = #[trigger] open0[k];
                                &&& dem.is_valid(m.0 as int, m.1 as int)
                                &&& floor <= filled0.at(m.0 as int, m.1 as int)
                                &&& (filled0.at(m.0 as int, m.1 as int) == dem.at(
                                    m.0 as int,
                                    m.1 as int,
                                ) || filled0.at(m.0 as int, m.1 as int) as int <= floor)
                            } by {
                                if k < pqa.len() {
                                    assert(open0[k] == pqa[k]);
                                } else {
                                    assert(open0[k] == cell);
                                }
                            }
                            lemma_flood_facts_after_fill(
                                *dem,
                                filled0,
                                filled,
                                rs0,
                                resolved@,
                                open0,
                                floor,
                                nr as int,
                                nc as int,
                            );
                            // same open set, listed the other way round
                            assert forall|a2: int, b2: int|
                                #[trigger] open_in(open0.push((nr, nc)), a2, b2) implies open_in(
                                pq@.push(cell),
                                a2,
                                b2,
                            ) by {
                                let k0 = choose|k: int|
                                    0 <= k < open0.push((nr, nc)).len() && (#[trigger] open0.push(
                                        (nr, nc),
                                    )[k]).0 == a2 && open0.push((nr, nc))[k].1 == b2;
                                if k0 < pqa.len() {
                                    assert(pq@.push(cell)[k0].0 == a2 && pq@.push(cell)[k0].1
                                        == b2);
                                } else if k0 == pqa.len() {
                                    assert(pq@.push(cell)[pq@.len() as int].0 == a2 && pq@.push(
                                        cell,
                                    )[pq@.len() as int].1 == b2);
                                } else {
                                    assert(pq@.push(cell)[pqa.len() as int].0 == a2 && pq@.push(
                                        cell,
                                    )[pqa.len() as int].1 == b2);
                                }
                            }
                            lemma_frontier_mono(
                                *dem,
                                filled,
                                resolved@,
                                open0.push((nr, nc)),
                                pq@.push(cell),
                                floor,
                                floor,
                            );
                            assert forall|k: int|
                                0 <= k < pq@.len() implies {
                                let q = #[trigger] pq@[k];
                                &&& dem.is_valid(q.0 as int, q.1 as int)
                                &&& resolved@[dem.pos(q.0 as int, q.1 as int)] == true
                                &&& floor <= filled.at(q.0 as int, q.1 as int)
                                &&& (filled.at(q.0 as int, q.1 as int) == dem.at(
                                    q.0 as int,
                                    q.1 as int,
                                ) || filled.at(q.0 as int, q.1 as int) as int <= floor)
                            } by {
                                dem.lemma_pos_in_range(pq@[k].0 as int, pq@[k].1 as int);
                                if k < pqa.len() {
                                    assert(pq@[k] == pqa[k]);
                                    assert(!(pq@[k].0 as int == nr as int && pq@[k].1 as int
                                        == nc as int));
                                } else {
                                    assert(pq@[k] == (nr, nc));
                                }
                            }
                        }
                    } else {
                        filled.set(nr, nc, nd);
                        resolved[pos] = true;
                        proof {
                            lemma_resolve_nodata(
                                *dem,
                                filled0,
                                filled,
                                rs0,
                                resolved@,
                                nr as int,
                                nc as int,
                            );
                            lemma_outside_still_pinned(
                                *dem,
                                filled0,
                                filled,
                                rs0,
                                resolved@,
                                nr as int,
                                nc as int,
                            );
                            lemma_flood_facts_after_nodata(
                                *dem,
                                filled0,
                                filled,
                                rs0,
                                resolved@,
                                pq@.push(cell),
                                floor,
                                nr as int,
                                nc as int,
                            );
                            assert forall|k: int|
                                0 <= k < pq@.len() implies {
                                let q = #[trigger] pq@[k];
                                &&& dem.is_valid(q.0 as int, q.1 as int)
                                &&& resolved@[dem.pos(q.0 as int, q.1 as int)] == true
                                &&& floor <= filled.at(q.0 as int, q.1 as int)
                                &&& (filled.at(q.0 as int, q.1 as int) == dem.at(
                                    q.0 as int,
                                    q.1 as int,
                                ) || filled.at(q.0 as int, q.1 as int) as int <= floor)
                            } by {
                                dem.lemma_pos_in_range(pq@[k].0 as int, pq@[k].1 as int);
                                assert(!(pq@[k].0 as int == nr as int && pq@[k].1 as int
                                    == nc as int));
                            }
                        }
                    }
                }
            }
            proof {
                assert forall|j: int|
                    0 <= j < i + 1 && dem.in_bounds(
                        cell.0 as int + off_r(j),
                        cell.1 as int + #[trigger] off_c(j),
                    ) implies resolved@[dem.pos(
                    cell.0 as int + off_r(j),
                    cell.1 as int + off_c(j),
                )] == true by {
                    dem.lemma_pos_in_range(cell.0 as int + off_r(j), cell.1 as int + off_c(j));
                }
            }
            i = i + 1;
        }
        proof {
            lemma_unresolved_nonneg(resolved@, nn);
            // this cell is settled: take it off the open list for good
            assert forall|a2: int, b2: int|
                #[trigger] open_in(pq@.push(cell), a2, b2) implies open_in(pq@, a2, b2) || (a2
                == cell.0 as int && b2 == cell.1 as int) by {
                let k0 = choose|k: int|
                    0 <= k < pq@.push(cell).len() && (#[trigger] pq@.push(cell)[k]).0 == a2
                        && pq@.push(cell)[k].1 == b2;
                if k0 < pq@.len() {
                    assert(pq@[k0].0 == a2 && pq@[k0].1 == b2);
                }
            }
            assert forall|i2: int|
                0 <= i2 < 8 && dem.is_valid(
                    cell.0 as int + off_r(i2),
                    cell.1 as int + #[trigger] off_c(i2),
                ) implies resolved@[dem.pos(
                cell.0 as int + off_r(i2),
                cell.1 as int + off_c(i2),
            )] == true by {}
            assert(closed_at(*dem, resolved@, cell.0 as int, cell.1 as int));
            lemma_frontier_close_cell(
                *dem,
                filled,
                resolved@,
                pq@.push(cell),
                pq@,
                floor,
                cell.0 as int,
                cell.1 as int,
            );
        }
    }
    proof {
        assert forall|a: int, b: int|
            dem.in_bounds(a, b) && resolved@[dem.pos(a, b)] == true && dem.is_valid(
                a,
                b,
            ) implies #[trigger] closed_at(*dem, resolved@, a, b) by {
            assert(frontier_ok(*dem, filled, resolved@, pq@, floor, a, b));
            if open_in(pq@, a, b) {
                let k0 = choose|k: int|
                    0 <= k < pq@.len() && (#[trigger] pq@[k]).0 == a && pq@[k].1 == b;
                assert(false);
            }
        }
        assert(flood_closed(*dem, resolved@));
    }
    let mut r2: usize = 0;
    while r2 < rows
        invariant
            dem.wf(),
            filled.wf(),
            filled.rows == dem.rows,
            filled.cols == dem.cols,
            filled.nodata == dem.nodata,
            resolved@.len() == nn,
            rows == dem.rows,
            cols == dem.cols,
            nd == dem.nodata,
            nn == dem.rows * dem.cols,
            r2 <= rows,
            forall|a: int, b: int|
                dem.in_bounds(a, b) && resolved@[dem.pos(a, b)] == true && !dem.is_valid(a, b)
                    ==> #[trigger] filled.at(a, b) == dem.nodata,
            forall|a: int, b: int|
                dem.in_bounds(a, b) && resolved@[dem.pos(a, b)] == true && dem.is_valid(a, b)
                    ==> #[trigger] cell_ok(*dem, filled, resolved@, a, b),
            forall|a: int, b: int|
                dem.in_bounds(a, b) && resolved@[dem.pos(a, b)] == false && a >= r2
                    ==> #[trigger] filled.at(a, b) == dem.nodata,
            forall|a: int, b: int|
                dem.in_bounds(a, b) && resolved@[dem.pos(a, b)] == false && a < r2
                    ==> #[trigger] filled.at(a, b) == (if dem.is_valid(a, b) {
                    dem.at(a, b)
                } else {
                    dem.nodata
                }),
            outside_pinned(*dem, filled, resolved@),
            locally_capped(*dem, filled, resolved@),
            flood_closed(*dem, resolved@),
        decreases rows - r2,
    {
        let ri: i64 = r2 as i64;
        let mut c2: usize = 0;
        while c2 < cols
            invariant
                dem.wf(),
                filled.wf(),
                filled.rows == dem.rows,
                filled.cols == dem.cols,
                filled.nodata == dem.nodata,
                resolved@.len() == nn,
                rows == dem.rows,
                cols == dem.cols,
                nd == dem.nodata,
                nn == dem.rows * dem.cols,
                r2 < rows,
                ri == r2,
                c2 <= cols,
                forall|a: int, b: int|
                    dem.in_bounds(a, b) && resolved@[dem.pos(a, b)] == true && !dem.is_valid(a, b)
                        ==> #[trigger] filled.at(a, b) == dem.nodata,
                forall|a: int, b: int|
                    dem.in_bounds(a, b) && resolved@[dem.pos(a, b)] == true && dem.is_valid(a, b)
                        ==> #[trigger] cell_ok(*dem, filled, resolved@, a, b),
                forall|a: int, b: int|
                    dem.in_bounds(a, b) && resolved@[dem.pos(a, b)] == false && (a > r2 || (a == r2
                        && b >= c2)) ==> #[trigger] filled.at(a, b) == dem.nodata,
                forall|a: int, b: int|
                    dem.in_bounds(a, b) && resolved@[dem.pos(a, b)] == false && (a < r2 || (a == r2
                        && b < c2)) ==> #[trigger] filled.at(a, b) == (if dem.is_valid(a, b) {
                        dem.at(a, b)
                    } else {
                        dem.nodata
                    }),
                outside_pinned(*dem, filled, resolved@),
                locally_capped(*dem, filled, resolved@),
                flood_closed(*dem, resolved@),
            decreases cols - c2,
        {
            let ci: i64 = c2 as i64;
            let pos = dem.pos_of(ri, ci);
            if !resolved[pos] {
                let z = dem.get(ri, ci);
                if z != nd {
                    let ghost filled0 = filled;
                    filled.set(ri, ci, z);
                    proof {
                        assert forall|a: int, b: int|
                            dem.in_bounds(a, b) && resolved@[dem.pos(a, b)] == true
                                && dem.is_valid(a, b) implies #[trigger] cell_ok(
                            *dem,
                            filled,
                            resolved@,
                            a,
                            b,
                        ) by {
                            dem.lemma_pos_in_range(a, b);
                            if a == ri as int && b == ci as int {
                                assert(false);
                            }
                            assert(cell_ok(*dem, filled0, resolved@, a, b));
                            assert forall|a3: int, b3: int|
                                dem.in_bounds(a3, b3) && resolved@[dem.pos(a3, b3)]
                                    == true implies #[trigger] filled.at(a3, b3) == filled0.at(
                                a3,
                                b3,
                            ) by {
                                if a3 == ri as int && b3 == ci as int {
                                    assert(false);
                                }
                            }
                            lemma_paths_stable(*dem, filled0, filled, resolved@, a, b);
                        }
                        lemma_outside_still_pinned(
                            *dem,
                            filled0,
                            filled,
                            resolved@,
                            resolved@,
                            ri as int,
                            ci as int,
                        );
                        assert forall|a3: int, b3: int|
                            dem.in_bounds(a3, b3) && resolved@[dem.pos(a3, b3)]
                                == true implies #[trigger] filled.at(a3, b3) == filled0.at(
                            a3,
                            b3,
                        ) by {
                            if a3 == ri as int && b3 == ci as int {
                                assert(false);
                            }
                        }
                        lemma_capped_stable(*dem, filled0, filled, resolved@);
                    }
                }
            }
            c2 = c2 + 1;
        }
        r2 = r2 + 1;
    }
    proof {
        assert forall|a: int, b: int|
            dem.is_valid(a, b) && #[trigger] outside_linked(*dem, a, b) implies filled.at(a, b)
            == dem.at(a, b) by {
            assert(outside_ok(*dem, filled, resolved@, a, b));
        }
        assert forall|a: int, b: int| dem.is_valid(a, b) implies #[trigger] filled.at(a, b)
            >= dem.at(a, b) && (filled.at(a, b) == dem.at(a, b) || drains(*dem, filled, a, b)) by {
            dem.lemma_pos_in_range(a, b);
            if resolved@[dem.pos(a, b)] {
                assert(cell_ok(*dem, filled, resolved@, a, b));
                let path = choose|path: Seq<(int, int)>|
                    #[trigger] drain_path(*dem, filled, path, a, b) && path_resolved(
                        *dem,
                        resolved@,
                        path,
                    );
                assert(drain_path(*dem, filled, path, a, b));
            }
        }
        assert forall|path: Seq<(int, int)>|
            #[trigger] valid_chain(*dem, path) && outside_linked(
                *dem,
                path[path.len() - 1].0,
                path[path.len() - 1].1,
            ) implies exists|j: int|
            0 <= j < path.len() && dem.at((#[trigger] path[j]).0, path[j].1) >= filled.at(
                path[0].0,
                path[0].1,
            ) by {
            lemma_chain_spill(*dem, filled, resolved@, path, 0);
        }
        assert forall|a: int, b: int|
            dem.is_valid(a, b) && #[trigger] edge_linked(*dem, a, b) implies drains(
            *dem,
            filled,
            a,
            b,
        ) by {
            let path = choose|path: Seq<(int, int)>|
                #[trigger] valid_chain(*dem, path) && path[0].0 == a && path[0].1 == b
                    && outside_linked(*dem, path[path.len() - 1].0, path[path.len() - 1].1);
            lemma_chain_spill(*dem, filled, resolved@, path, 0);
            dem.lemma_pos_in_range(a, b);
            assert(resolved@[dem.pos(a, b)] == true);
            assert(cell_ok(*dem, filled, resolved@, a, b));
            let dpath = choose|dpath: Seq<(int, int)>|
                #[trigger] drain_path(*dem, filled, dpath, a, b) && path_resolved(
                    *dem,
                    resolved@,
                    dpath,
                );
            assert(drain_path(*dem, filled, dpath, a, b));
        }
    }
    filled
}

/// The filled surface is a function of the terrain alone wherever the cell
/// reaches an outside outlet through valid cells: any two surfaces meeting
/// [`filled_surface`] agree there, each one's level being both achieved by
/// one of its own escape chains and capped by every chain of the other.
pub proof fn lemma_fill_pinned(dem: Grid, f1: Grid, f2: Grid, r: int, c: int)
    requires
        filled_surface(dem, f1),
        filled_surface(dem, f2),
        dem.is_valid(r, c),
        edge_linked(dem, r, c),
    ensures
        f1.at(r, c) == f2.at(r, c),
{
    assert(drains(dem, f1, r, c));
    assert(drains(dem, f2, r, c));
    let p1 = choose|path: Seq<(int, int)>| drain_path(dem, f1, path, r, c);
    let p2 = choose|path: Seq<(int, int)>| drain_path(dem, f2, path, r, c);
    assert(valid_chain(dem, p1));
    assert(valid_chain(dem, p2));
    let j2 = choose|j: int|
        0 <= j < p1.len() && dem.at((#[trigger] p1[j]).0, p1[j].1) >= f2.at(p1[0].0, p1[0].1);
    assert(dem.at(p1[j2].0, p1[j2].1) <= f1.at(r, c));
    let j1 = choose|j: int|
        0 <= j < p2.len() && dem.at((#[trigger] p2[j]).0, p2[j].1) >= f1.at(p2[0].0, p2[0].1);
    assert(dem.at(p2[j1].0, p2[j1].1) <= f2.at(r, c));
}

/// Depth law across background policies: on every outlet-connected valid
/// cell the zero and nodata policies agree wherever the flood raised the
/// cell, and each reports its own background exactly where it did not.
pub proof fn lemma_background_flag_invariance(
    dem: Grid,
    fa: Grid,
    fb: Grid,
    outa: Grid,
    outb: Grid,
    r: int,
    c: int,
)
    requires
        filled_surface(dem, fa),
        depth_report(dem, fa, true, outa),
        filled_surface(dem, fb),
        depth_report(dem, fb, false, outb),
        dem.is_valid(r, c),
        edge_linked(dem, r, c),
    ensures
        fa.at(r, c) > dem.at(r, c) ==> outa.at(r, c) == outb.at(r, c),
        fa.at(r, c) == dem.at(r, c) ==> outa.at(r, c) == 0 && outb.at(r, c) == dem.nodata,
{
    lemma_fill_pinned(dem, fa, fb, r, c);
}

/// `out` reports, for every valid cell, how deep the cell sits in a sink:
/// the raise applied by depression filling where there was one, and the
/// background value (zero or nodata, by the caller's policy) where the
/// filled surface did not rise above the terrain.
pub open spec fn depth_report(
    dem: Grid,
    filled: Grid,
    zero_background: bool,
    out: Grid,
) -> bool {
    forall|r: int, c: int|
        dem.is_valid(r, c) ==> #[trigger] out.at(r, c) == if filled.at(r, c) > dem.at(r, c) {
            (filled.at(r, c) - dem.at(r, c)) as i64
        } else if zero_background {
            0i64
        } else {
            dem.nodata
        }
}

/// The filled surface never leaves the elevation range of the terrain: a
/// cell's level is some cell's original elevation.
pub proof fn lemma_filled_bounded(dem: Grid, filled: Grid)
    requires
        dem.wf(),
        crate::direction::elev_bounded(dem),
        filled_surface(dem, filled),
    ensures
        forall|r: int, c: int|
            dem.is_valid(r, c) ==> -ELEV_LIMIT <= #[trigger] filled.at(r, c) <= ELEV_LIMIT,
{
    assert forall|r: int, c: int| dem.is_valid(r, c) implies -ELEV_LIMIT <= #[trigger] filled.at(
        r,
        c,
    ) <= ELEV_LIMIT by {
        if filled.at(r, c) != dem.at(r, c) {
            let path = choose|path: Seq<(int, int)>| drain_path(dem, filled, path, r, c);
            let jw = choose|j: int|
                0 <= j < path.len() && dem.at((#[trigger] path[j]).0, path[j].1) == filled.at(
                    r,
                    c,
                );
            assert(dem.is_valid(path[jw].0, path[jw].1));
        }
    }
}

/// Depth in sink: the filled surface minus the original terrain, with
/// depth-zero cells reported as the caller-selected background value so
/// that cells outside any sink stand apart. Depth is never negative: where
/// it is not the background it is strictly positive.
#[verifier::rlimit(60)]
pub fn depth_in_sink(dem: &Grid, zero_background: bool) -> (out: Grid)
    requires
        dem.wf(),
        crate::direction::elev_bounded(*dem),
    ensures
        out.wf(),
        out.rows == dem.rows,
        out.cols == dem.cols,
        out.nodata == dem.nodata,
        forall|r: int, c: int|
            dem.in_bounds(r, c) && !dem.is_valid(r, c) ==> #[trigger] out.at(r, c) == dem.nodata,
        exists|filled: Grid|
            #[trigger] filled_surface(*dem, filled) && depth_report(
                *dem,
                filled,
                zero_background,
                out,
            ),
        zero_background ==> forall|r: int, c: int|
            dem.is_valid(r, c) ==> #[trigger] out.at(r, c) >= 0,
        !zero_background ==> forall|r: int, c: int|
            dem.is_valid(r, c) ==> #[trigger] out.at(r, c) == dem.nodata || out.at(r, c) > 0,
{
    let rows: usize = dem.num_rows();
    let cols: usize = dem.num_cols();
    let n: usize = dem.data.len();
    let nd: i64 = dem.nodata_value();
    let filled = fill_depressions(dem);
    proof {
        lemma_filled_bounded(*dem, filled);
    }
    let bg: i64 = if zero_background {
        0
    } else {
        nd
    };
    let mut out = Grid::new(rows, cols, nd, nd);
    let mut r: usize = 0;
    while r < rows
        invariant
            dem.wf(),
            crate::direction::elev_bounded(*dem),
            filled_surface(*dem, filled),
            forall|a: int, b: int|
                dem.is_valid(a, b) ==> -ELEV_LIMIT <= #[trigger] filled.at(a, b) <= ELEV_LIMIT,
            rows == dem.rows,
            cols == dem.cols,
            nd == dem.nodata,
            bg == (if zero_background {
                0i64
            } else {
                dem.nodata
            }),
            r <= rows,
            out.wf(),
            out.rows == dem.rows,
            out.cols == dem.cols,
            out.nodata == dem.nodata,
            forall|a: int, b: int|
                dem.in_bounds(a, b) && !dem.is_valid(a, b) ==> #[trigger] out.at(a, b)
                    == dem.nodata,
            forall|a: int, b: int|
                0 <= a < r && 0 <= b < cols && dem.is_valid(a, b) ==> #[trigger] out.at(a, b) == (
                if filled.at(a, b) > dem.at(a, b) {
                    (filled.at(a, b) - dem.at(a, b)) as i64
                } else {
                    bg
                }),
        decreases rows - r,
    {
        let ri: i64 = r as i64;
        let mut c: usize = 0;
        while c < cols
            invariant
                dem.wf(),
                crate::direction::elev_bounded(*dem),
                filled_surface(*dem, filled),
                forall|a: int, b: int|
                    dem.is_valid(a, b) ==> -ELEV_LIMIT <= #[trigger] filled.at(a, b) <= ELEV_LIMIT,
                rows == dem.rows,
                cols == dem.cols,
                nd == dem.nodata,
                bg == (if zero_background {
                    0i64
                } else {
                    dem.nodata
                }),
                r < rows,
                ri == r,
                c <= cols,
                out.wf(),
                out.rows == dem.rows,
                out.cols == dem.cols,
                out.nodata == dem.nodata,
                forall|a: int, b: int|
                    dem.in_bounds(a, b) && !dem.is_valid(a, b) ==> #[trigger] out.at(a, b)
                        == dem.nodata,
                forall|a: int, b: int|
                    0 <= a < r && 0 <= b < cols && dem.is_valid(a, b) ==> #[trigger] out.at(a, b)
                        == (if filled.at(a, b) > dem.at(a, b) {
                        (filled.at(a, b) - dem.at(a, b)) as i64
                    } else {
                        bg
                    }),
                forall|b: int|
                    0 <= b < c && dem.is_valid(r as int, b) ==> #[trigger] out.at(r as int, b) == (
                    if filled.at(r as int, b) > dem.at(r as int, b) {
                        (filled.at(r as int, b) - dem.at(r as int, b)) as i64
                    } else {
                        bg
                    }),
            decreases cols - c,
        {
            let ci: i64 = c as i64;
            let z: i64 = dem.get(ri, ci);
            if z != nd {
                let f: i64 = filled.get(ri, ci);
                if f > z {
                    out.set(ri, ci, f - z);
                } else {
                    out.set(ri, ci, bg);
                }
            }
            c = c + 1;
        }
        r = r + 1;
    }
    proof {
        assert(depth_report(*dem, filled, zero_background, out));
        assert(filled_surface(*dem, filled) && depth_report(*dem, filled, zero_background, out));
    }
    out
}

/// Depth law: under a filled surface the depth filled - elevation is never
/// negative, the report carries exactly that depth wherever the flood
/// raised the cell, and the background value wherever it did not.
pub proof fn lemma_depth_report_law(
    dem: Grid,
    filled: Grid,
    zero_background: bool,
    out: Grid,
    r: int,
    c: int,
)
    requires
        crate::direction::elev_bounded(dem),
        filled_surface(dem, filled),
        depth_report(dem, filled, zero_background, out),
        dem.is_valid(r, c),
    ensures
        filled.at(r, c) - dem.at(r, c) >= 0,
        filled.at(r, c) > dem.at(r, c) ==> out.at(r, c) as int == filled.at(r, c) - dem.at(r, c),
        filled.at(r, c) == dem.at(r, c) ==> out.at(r, c) == (if zero_background {
            0i64
        } else {
            dem.nodata
        }),
{
    if filled.at(r, c) != dem.at(r, c) {
        let path = choose|path: Seq<(int, int)>| drain_path(dem, filled, path, r, c);
        let jw = choose|j: int|
            0 <= j < path.len() && dem.at((#[trigger] path[j]).0, path[j].1) == filled.at(r, c);
        assert(dem.is_valid(path[jw].0, path[jw].1));
    }
}

} // verus!
