//! Inflow counting and topological flow accumulation.
//!
//! Every valid cell starts with one unit of flow. Cells whose inflow count is
//! zero (ridges and headwaters) seed a LIFO work stack; popping a cell adds
//! its accumulated flow to its downstream neighbour and decrements that
//! neighbour's inflow count, pushing the neighbour once the count reaches
//! zero. Because every assigned direction points strictly downhill, the flow
//! relation is a DAG and the traversal settles every valid cell exactly once:
//! the result satisfies, cell for cell,
//! `accumulation = 1 + sum of accumulation over upstream neighbours`.

use vstd::prelude::*;

use crate::direction::{off_c, off_r, points_downhill};
use crate::grid::{Grid, GridError};

verus! {

/// The code under which a neighbour in scan position `i` points back at the
/// centre cell (the opposite direction).
pub open spec fn inv_code(i: int) -> int {
    if i < 4 {
        i + 4
    } else {
        i - 4
    }
}

/// Neighbour `i` of (r, c) routes its flow into (r, c).
pub open spec fn flows_into(dg: Grid, r: int, c: int, i: int) -> bool {
    dg.at(r + off_r(i), c + off_c(i)) == inv_code(i)
}

/// Number of upstream neighbours of (r, c) among the first `n` scan
/// positions.
pub open spec fn inflow_upto(dg: Grid, r: int, c: int, n: int) -> int
    decreases n,
{
    if n <= 0 {
        0
    } else {
        inflow_upto(dg, r, c, n - 1) + if flows_into(dg, r, c, n - 1) {
            1int
        } else {
            0int
        }
    }
}

/// Total accumulated flow routed into (r, c) by its upstream neighbours,
/// read from `acc`.
pub open spec fn upstream_sum(dg: Grid, acc: Grid, r: int, c: int, n: int) -> int
    decreases n,
{
    if n <= 0 {
        0
    } else {
        upstream_sum(dg, acc, r, c, n - 1) + if flows_into(dg, r, c, n - 1) {
            acc.at(r + off_r(n - 1), c + off_c(n - 1)) as int
        } else {
            0int
        }
    }
}

/// Opposite-direction bookkeeping: the opposite code is again a code, taking
/// the opposite twice is the identity, and the opposite offset is the
/// negated offset.
pub proof fn lemma_inv_code_props(i: int)
    requires
        0 <= i < 8,
    ensures
        0 <= inv_code(i) < 8,
        inv_code(inv_code(i)) == i,
        off_r(inv_code(i)) == -off_r(i),
        off_c(inv_code(i)) == -off_c(i),
{
}

/// Flow already delivered into (r, c): the part of [`upstream_sum`] whose
/// senders have settled (their backing position is in `done`).
pub(crate) open spec fn settled_sum(
    dg: Grid,
    acc: Grid,
    done: Set<int>,
    r: int,
    c: int,
    n: int,
) -> int
    decreases n,
{
    if n <= 0 {
        0
    } else {
        let i = n - 1;
        settled_sum(dg, acc, done, r, c, i) + if flows_into(dg, r, c, i) && done.contains(
            dg.pos(r + off_r(i), c + off_c(i)),
        ) {
            acc.at(r + off_r(i), c + off_c(i)) as int
        } else {
            0int
        }
    }
}

/// Number of upstream neighbours of (r, c) that have already settled.
pub(crate) open spec fn settled_cnt(dg: Grid, done: Set<int>, r: int, c: int, n: int) -> int
    decreases n,
{
    if n <= 0 {
        0
    } else {
        let i = n - 1;
        settled_cnt(dg, done, r, c, i) + if flows_into(dg, r, c, i) && done.contains(
            dg.pos(r + off_r(i), c + off_c(i)),
        ) {
            1int
        } else {
            0int
        }
    }
}

/// With nothing settled, nothing has been delivered or counted.
pub(crate) proof fn lemma_settled_empty(dg: Grid, acc: Grid, r: int, c: int, n: int)
    ensures
        settled_sum(dg, acc, Set::empty(), r, c, n) == 0,
        settled_cnt(dg, Set::empty(), r, c, n) == 0,
    decreases n,
{
    if n > 0 {
        lemma_settled_empty(dg, acc, r, c, n - 1);
    }
}

/// The settled count never exceeds the inflow count, and both lie in
/// [0, n]; when they coincide, every upstream neighbour has settled, and
/// when they differ some upstream neighbour has not.
pub(crate) proof fn lemma_settled_cnt_range(dg: Grid, done: Set<int>, r: int, c: int, n: int)
    requires
        0 <= n,
    ensures
        0 <= settled_cnt(dg, done, r, c, n) <= inflow_upto(dg, r, c, n) <= n,
        settled_cnt(dg, done, r, c, n) == inflow_upto(dg, r, c, n) ==> forall|i: int|
            0 <= i < n && flows_into(dg, r, c, i) ==> done.contains(
                #[trigger] dg.pos(r + off_r(i), c + off_c(i)),
            ),
        settled_cnt(dg, done, r, c, n) < inflow_upto(dg, r, c, n) ==> exists|i: int|
            0 <= i < n && #[trigger] flows_into(dg, r, c, i) && !done.contains(
                dg.pos(r + off_r(i), c + off_c(i)),
            ),
    decreases n,
{
    if n > 0 {
        lemma_settled_cnt_range(dg, done, r, c, n - 1);
    }
}

/// Once every upstream neighbour has settled, the settled part of the sum is
/// the whole upstream sum.
pub(crate) proof fn lemma_settled_sum_complete(
    dg: Grid,
    acc: Grid,
    done: Set<int>,
    r: int,
    c: int,
    n: int,
)
    requires
        forall|i: int|
            0 <= i < n && flows_into(dg, r, c, i) ==> done.contains(
                #[trigger] dg.pos(r + off_r(i), c + off_c(i)),
            ),
    ensures
        settled_sum(dg, acc, done, r, c, n) == upstream_sum(dg, acc, r, c, n),
    decreases n,
{
    if n > 0 {
        lemma_settled_sum_complete(dg, acc, done, r, c, n - 1);
    }
}

/// Rewriting the accumulation grid at a position outside `done` leaves every
/// settled sum unchanged: settled senders keep their values.
pub(crate) proof fn lemma_settled_sum_acc_update(
    dg: Grid,
    acc1: Grid,
    acc2: Grid,
    done: Set<int>,
    p: int,
    r: int,
    c: int,
    n: int,
)
    requires
        acc1.wf(),
        acc2.rows == acc1.rows,
        acc2.cols == acc1.cols,
        acc2.nodata == acc1.nodata,
        dg.rows == acc1.rows,
        dg.cols == acc1.cols,
        acc2.data@.len() == acc1.data@.len(),
        forall|q: int| 0 <= q < acc1.data@.len() && q != p ==> acc2.data@[q] == acc1.data@[q],
        !done.contains(p),
    ensures
        settled_sum(dg, acc2, done, r, c, n) == settled_sum(dg, acc1, done, r, c, n),
    decreases n,
{
    if n > 0 {
        let i = n - 1;
        lemma_settled_sum_acc_update(dg, acc1, acc2, done, p, r, c, i);
        let nr = r + off_r(i);
        let nc = c + off_c(i);
        if flows_into(dg, r, c, i) && done.contains(dg.pos(nr, nc)) {
            if acc1.in_bounds(nr, nc) {
                acc1.lemma_pos_in_range(nr, nc);
                assert(dg.pos(nr, nc) == acc1.pos(nr, nc));
                assert(acc2.at(nr, nc) == acc1.at(nr, nc));
            } else {
                assert(acc2.at(nr, nc) == acc1.at(nr, nc));
            }
        }
    }
}

/// Settling a position that no scanned neighbour of (r, c) occupies changes
/// neither the settled sum nor the settled count at (r, c).
pub(crate) proof fn lemma_settled_insert_miss(
    dg: Grid,
    acc: Grid,
    done: Set<int>,
    p: int,
    r: int,
    c: int,
    n: int,
)
    requires
        forall|i: int|
            0 <= i < n ==> !(#[trigger] flows_into(dg, r, c, i) && dg.pos(
                r + off_r(i),
                c + off_c(i),
            ) == p),
    ensures
        settled_sum(dg, acc, done.insert(p), r, c, n) == settled_sum(dg, acc, done, r, c, n),
        settled_cnt(dg, done.insert(p), r, c, n) == settled_cnt(dg, done, r, c, n),
    decreases n,
{
    if n > 0 {
        lemma_settled_insert_miss(dg, acc, done, p, r, c, n - 1);
    }
}

/// Settling the position of the one upstream neighbour `istar` of (r, c)
/// adds exactly that neighbour's flow to the settled sum and one to the
/// settled count.
pub(crate) proof fn lemma_settled_insert_hit(
    dg: Grid,
    acc: Grid,
    done: Set<int>,
    p: int,
    r: int,
    c: int,
    istar: int,
    n: int,
)
    requires
        0 <= istar < n,
        flows_into(dg, r, c, istar),
        dg.pos(r + off_r(istar), c + off_c(istar)) == p,
        !done.contains(p),
        forall|i: int|
            0 <= i < n && i != istar ==> !(#[trigger] flows_into(dg, r, c, i) && dg.pos(
                r + off_r(i),
                c + off_c(i),
            ) == p),
    ensures
        settled_sum(dg, acc, done.insert(p), r, c, n) == settled_sum(dg, acc, done, r, c, n)
            + acc.at(r + off_r(istar), c + off_c(istar)),
        settled_cnt(dg, done.insert(p), r, c, n) == settled_cnt(dg, done, r, c, n) + 1,
    decreases n,
{
    if n > 0 {
        if istar == n - 1 {
            lemma_settled_insert_miss(dg, acc, done, p, r, c, n - 1);
        } else {
            lemma_settled_insert_hit(dg, acc, done, p, r, c, istar, n - 1);
        }
    }
}

/// Sum of the entries of `data` whose position is not in `done`, over the
/// first `n` positions.
pub(crate) open spec fn unsettled_total(data: Seq<i64>, done: Set<int>, n: int) -> int
    decreases n,
{
    if n <= 0 {
        0
    } else {
        unsettled_total(data, done, n - 1) + if done.contains(n - 1) {
            0int
        } else {
            data[n - 1] as int
        }
    }
}

/// With every entry equal to one and nothing settled, the total is `n`.
pub(crate) proof fn lemma_unsettled_all_ones(data: Seq<i64>, n: int)
    requires
        0 <= n <= data.len(),
        forall|k: int| 0 <= k < n ==> data[k] == 1,
    ensures
        unsettled_total(data, Set::empty(), n) == n,
    decreases n,
{
    if n > 0 {
        lemma_unsettled_all_ones(data, n - 1);
    }
}

/// An unsettled entry is at most the unsettled total when all entries are
/// non-negative.
pub(crate) proof fn lemma_unsettled_single(data: Seq<i64>, done: Set<int>, n: int, i: int)
    requires
        0 <= i < n <= data.len(),
        !done.contains(i),
        forall|k: int| 0 <= k < n ==> data[k] >= 0,
    ensures
        data[i] <= unsettled_total(data, done, n),
    decreases n,
{
    lemma_unsettled_nonneg(data, done, i);
    if i < n - 1 {
        lemma_unsettled_single(data, done, n - 1, i);
    }
}

/// The unsettled total of non-negative entries is non-negative.
pub(crate) proof fn lemma_unsettled_nonneg(data: Seq<i64>, done: Set<int>, n: int)
    requires
        n <= data.len(),
        forall|k: int| 0 <= k < n ==> data[k] >= 0,
    ensures
        unsettled_total(data, done, n) >= 0,
    decreases n,
{
    if n > 0 {
        lemma_unsettled_nonneg(data, done, n - 1);
    }
}

/// Two distinct unsettled entries together are at most the unsettled total
/// when all entries are non-negative.
pub(crate) proof fn lemma_unsettled_pair(data: Seq<i64>, done: Set<int>, n: int, i: int, j: int)
    requires
        0 <= i < n <= data.len(),
        0 <= j < n,
        i != j,
        !done.contains(i),
        !done.contains(j),
        forall|k: int| 0 <= k < n ==> data[k] >= 0,
    ensures
        data[i] + data[j] <= unsettled_total(data, done, n),
    decreases n,
{
    if i == n - 1 {
        lemma_unsettled_single(data, done, n - 1, j);
    } else if j == n - 1 {
        lemma_unsettled_single(data, done, n - 1, i);
    } else {
        lemma_unsettled_pair(data, done, n - 1, i, j);
    }
}

/// Rewriting one entry shifts the unsettled total by the difference, when
/// the position is unsettled and in range.
pub(crate) proof fn lemma_unsettled_update(
    data: Seq<i64>,
    done: Set<int>,
    n: int,
    p: int,
    v: i64,
)
    requires
        0 <= p < data.len(),
        n <= data.len(),
    ensures
        unsettled_total(data.update(p, v), done, n) == unsettled_total(data, done, n) + if 0 <= p
            < n && !done.contains(p) {
            v - data[p]
        } else {
            0int
        },
    decreases n,
{
    if n > 0 {
        lemma_unsettled_update(data, done, n - 1, p, v);
    }
}

/// A cell no neighbour points into receives nothing.
pub(crate) proof fn lemma_no_inflow_zero(
    dg: Grid,
    acc: Grid,
    done: Set<int>,
    r: int,
    c: int,
    n: int,
)
    requires
        forall|i: int| 0 <= i < n ==> !#[trigger] flows_into(dg, r, c, i),
    ensures
        inflow_upto(dg, r, c, n) == 0,
        upstream_sum(dg, acc, r, c, n) == 0,
        settled_sum(dg, acc, done, r, c, n) == 0,
        settled_cnt(dg, done, r, c, n) == 0,
    decreases n,
{
    if n > 0 {
        lemma_no_inflow_zero(dg, acc, done, r, c, n - 1);
    }
}

/// Every finite, non-empty set of in-range positions has a member whose
/// entry in `data` is maximal.
pub(crate) proof fn lemma_max_position(data: Seq<i64>, s: Set<int>)
    requires
        s.finite(),
        s.len() > 0,
        forall|p: int| s.contains(p) ==> 0 <= p < data.len(),
    ensures
        exists|m: int|
            #[trigger] s.contains(m) && forall|q: int| s.contains(q) ==> data[q] <= data[m],
    decreases s.len(),
{
    let x = s.choose();
    assert(s.contains(x));
    let s2 = s.remove(x);
    if s2.len() == 0 {
        s2.lemma_len0_is_empty();
        assert forall|q: int| s.contains(q) implies data[q] <= data[x] by {
            if q != x {
                assert(s2.contains(q));
            }
        }
        assert(s.contains(x) && forall|q: int| s.contains(q) ==> data[q] <= data[x]);
    } else {
        lemma_max_position(data, s2);
        let m2 = choose|m: int|
            #[trigger] s2.contains(m) && forall|q: int| s2.contains(q) ==> data[q] <= data[m];
        if data[m2] >= data[x] {
            assert forall|q: int| s.contains(q) implies data[q] <= data[m2] by {
                if q != x {
                    assert(s2.contains(q));
                }
            }
            assert(s.contains(m2) && forall|q: int| s.contains(q) ==> data[q] <= data[m2]);
        } else {
            assert forall|q: int| s.contains(q) implies data[q] <= data[x] by {
                if q != x {
                    assert(s2.contains(q));
                }
            }
            assert(s.contains(x) && forall|q: int| s.contains(q) ==> data[q] <= data[x]);
        }
    }
}

/// The code that points from scan position `i` back at the centre.
fn inverse_of(i: usize) -> (v: i64)
    requires
        i < 8,
    ensures
        v == inv_code(i as int),
{
    if i < 4 {
        (i + 4) as i64
    } else {
        (i - 4) as i64
    }
}

/// Counts, for one row, how many neighbours of each cell point into it:
/// -1 for cells without data. Rows are independent, so callers may compute
/// them in any order, or concurrently.
pub fn inflow_row(dem: &Grid, dg: &Grid, r: i64) -> (out: Vec<i64>)
    requires
        dem.wf(),
        dg.wf(),
        dem.same_shape(dg),
        0 <= r < dem.rows,
    ensures
        out@.len() == dem.cols,
        forall|c: int|
            0 <= c < dem.cols ==> out@[c] == if dem.is_valid(r as int, c) {
                inflow_upto(*dg, r as int, c, 8)
            } else {
                -1
            },
{
    let cols: usize = dem.num_cols();
    let mut row: Vec<i64> = Vec::new();
    let mut c: usize = 0;
    while c < cols
        invariant
            dem.wf(),
            dg.wf(),
            dem.same_shape(dg),
            0 <= r < dem.rows,
            cols == dem.cols,
            c <= cols,
            row@.len() == c,
            forall|cc: int|
                0 <= cc < c ==> row@[cc] == if dem.is_valid(r as int, cc) {
                    inflow_upto(*dg, r as int, cc, 8)
                } else {
                    -1
                },
        decreases cols - c,
    {
        let ci: i64 = c as i64;
        if dem.get(r, ci) == dem.nodata_value() {
            row.push(-1);
        } else {
            let mut count: i64 = 0;
            let mut i: usize = 0;
            while i < 8
                invariant
                    dem.wf(),
                    dg.wf(),
                    dem.same_shape(dg),
                    0 <= r < dem.rows,
                    0 <= ci < dem.cols,
                    i <= 8,
                    0 <= count <= i,
                    count == inflow_upto(*dg, r as int, ci as int, i as int),
                decreases 8 - i,
            {
                let (dr, dc) = crate::direction::offset_of(i);
                if dg.get(r + dr, ci + dc) == inverse_of(i) {
                    count = count + 1;
                }
                i = i + 1;
            }
            row.push(count);
        }
        c = c + 1;
    }
    row
}

/// Counts, for every cell, how many of its neighbours point into it
/// (the readiness counters of the topological traversal); cells without
/// data get -1. Fails when the two grids disagree in shape.
pub fn inflow_counts(dem: &Grid, dg: &Grid) -> (res: Result<Grid, GridError>)
    requires
        dem.wf(),
        dg.wf(),
    ensures
        res.is_ok() <==> dem.same_shape(dg),
        res matches Ok(g) ==> {
            &&& g.wf()
            &&& g.rows == dem.rows
            &&& g.cols == dem.cols
            &&& g.nodata == -1
            &&& forall|r: int, c: int|
                dem.in_bounds(r, c) ==> #[trigger] g.at(r, c) == if dem.is_valid(r, c) {
                    inflow_upto(*dg, r, c, 8)
                } else {
                    -1
                }
        },
        res matches Err(e) ==> e == GridError::DimensionMismatch,
{
    if dem.num_rows() != dg.num_rows() || dem.num_cols() != dg.num_cols() {
        return Err(GridError::DimensionMismatch);
    }
    let rows: usize = dem.num_rows();
    let cols: usize = dem.num_cols();
    let n: usize = dem.data.len();
    let mut g = Grid::new(rows, cols, -1, -1);
    let mut r: usize = 0;
    while r < rows
        invariant
            dem.wf(),
            dg.wf(),
            dem.same_shape(dg),
            rows == dem.rows,
            cols == dem.cols,
            r <= rows,
            g.wf(),
            g.rows == rows,
            g.cols == cols,
            g.nodata == -1,
            forall|rr: int, cc: int|
                0 <= rr < r && 0 <= cc < cols ==> #[trigger] g.at(rr, cc) == if dem.is_valid(
                    rr,
                    cc,
                ) {
                    inflow_upto(*dg, rr, cc, 8)
                } else {
                    -1
                },
        decreases rows - r,
    {
        let ri: i64 = r as i64;
        let rowv = inflow_row(dem, dg, ri);
        let mut c: usize = 0;
        while c < cols
            invariant
                dem.wf(),
                rows == dem.rows,
                cols == dem.cols,
                r < rows,
                ri == r,
                c <= cols,
                rowv@.len() == cols,
                forall|cc: int|
                    0 <= cc < cols ==> rowv@[cc] == if dem.is_valid(r as int, cc) {
                        inflow_upto(*dg, r as int, cc, 8)
                    } else {
                        -1
                    },
                g.wf(),
                g.rows == rows,
                g.cols == cols,
                g.nodata == -1,
                forall|rr: int, cc: int|
                    0 <= rr < r && 0 <= cc < cols ==> #[trigger] g.at(rr, cc) == if dem.is_valid(
                        rr,
                        cc,
                    ) {
                        inflow_upto(*dg, rr, cc, 8)
                    } else {
                        -1
                    },
                forall|cc: int|
                    0 <= cc < c ==> #[trigger] g.at(r as int, cc) == if dem.is_valid(
                        r as int,
                        cc,
                    ) {
                        inflow_upto(*dg, r as int, cc, 8)
                    } else {
                        -1
                    },
            decreases cols - c,
        {
            g.set(ri, c as i64, rowv[c]);
            c = c + 1;
        }
        r = r + 1;
    }
    Ok(g)
}

/// Settling one position removes its entry from the unsettled total.
pub(crate) proof fn lemma_unsettled_insert(data: Seq<i64>, done: Set<int>, n: int, p: int)
    ensures
        unsettled_total(data, done.insert(p), n) == unsettled_total(data, done, n) - if 0 <= p < n
            && !done.contains(p) {
            data[p] as int
        } else {
            0int
        },
    decreases n,
{
    if n > 0 {
        lemma_unsettled_insert(data, done, n - 1, p);
    }
}

/// Settling a pit cell delivers nothing anywhere: no neighbour's scan
/// position can name a cell whose direction code is -1 as its sender.
pub(crate) proof fn lemma_insert_pit(
    dem: Grid,
    dg: Grid,
    acc: Grid,
    done: Set<int>,
    pr: int,
    pc: int,
)
    requires
        dem.wf(),
        dg.wf(),
        points_downhill(dem, dg),
        dem.in_bounds(pr, pc),
        dg.at(pr, pc) == -1,
    ensures
        forall|r: int, c: int|
            settled_sum(dg, acc, done.insert(dg.pos(pr, pc)), r, c, 8) == #[trigger] settled_sum(
                dg,
                acc,
                done,
                r,
                c,
                8,
            ),
        forall|r: int, c: int|
            settled_cnt(dg, done.insert(dg.pos(pr, pc)), r, c, 8) == #[trigger] settled_cnt(
                dg,
                done,
                r,
                c,
                8,
            ),
{
    let p = dg.pos(pr, pc);
    assert forall|r: int, c: int|
        settled_sum(dg, acc, done.insert(p), r, c, 8) == #[trigger] settled_sum(
            dg,
            acc,
            done,
            r,
            c,
            8,
        ) && settled_cnt(dg, done.insert(p), r, c, 8) == settled_cnt(dg, done, r, c, 8) by {
        assert forall|i: int|
            0 <= i < 8 implies !(#[trigger] flows_into(dg, r, c, i) && dg.pos(
            r + off_r(i),
            c + off_c(i),
        ) == p) by {
            if flows_into(dg, r, c, i) && dg.pos(r + off_r(i), c + off_c(i)) == p {
                lemma_inv_code_props(i);
                let nr = r + off_r(i);
                let nc = c + off_c(i);
                assert(dg.at(nr, nc) == inv_code(i));
                assert(dg.in_bounds(nr, nc));
                dg.lemma_pos_injective(nr, nc, pr, pc);
                assert(dg.at(pr, pc) == inv_code(i));
            }
        }
        lemma_settled_insert_miss(dg, acc, done, p, r, c, 8);
    }
    assert forall|r: int, c: int|
        settled_cnt(dg, done.insert(p), r, c, 8) == #[trigger] settled_cnt(
            dg,
            done,
            r,
            c,
            8,
        ) by {
        assert(settled_sum(dg, acc, done.insert(p), r, c, 8) == settled_sum(dg, acc, done, r, c, 8));
    }
}

/// Settling a cell that routes into a downstream target delivers its flow
/// to that target alone: at the target the settled sum grows by the settled
/// cell's flow and the settled count by one; nothing changes anywhere else.
pub(crate) proof fn lemma_insert_flow(
    dem: Grid,
    dg: Grid,
    acc: Grid,
    done: Set<int>,
    pr: int,
    pc: int,
)
    requires
        dem.wf(),
        dg.wf(),
        points_downhill(dem, dg),
        dem.in_bounds(pr, pc),
        0 <= dg.at(pr, pc) < 8,
        !done.contains(dg.pos(pr, pc)),
    ensures
        forall|r: int, c: int|
            !(r == pr + off_r(dg.at(pr, pc) as int) && c == pc + off_c(dg.at(pr, pc) as int))
                ==> settled_sum(dg, acc, done.insert(dg.pos(pr, pc)), r, c, 8)
                == #[trigger] settled_sum(dg, acc, done, r, c, 8),
        forall|r: int, c: int|
            !(r == pr + off_r(dg.at(pr, pc) as int) && c == pc + off_c(dg.at(pr, pc) as int))
                ==> settled_cnt(dg, done.insert(dg.pos(pr, pc)), r, c, 8) == #[trigger] settled_cnt(
                dg,
                done,
                r,
                c,
                8,
            ),
        settled_sum(
            dg,
            acc,
            done.insert(dg.pos(pr, pc)),
            pr + off_r(dg.at(pr, pc) as int),
            pc + off_c(dg.at(pr, pc) as int),
            8,
        ) == settled_sum(
            dg,
            acc,
            done,
            pr + off_r(dg.at(pr, pc) as int),
            pc + off_c(dg.at(pr, pc) as int),
            8,
        ) + acc.at(pr, pc),
        settled_cnt(
            dg,
            done.insert(dg.pos(pr, pc)),
            pr + off_r(dg.at(pr, pc) as int),
            pc + off_c(dg.at(pr, pc) as int),
            8,
        ) == settled_cnt(
            dg,
            done,
            pr + off_r(dg.at(pr, pc) as int),
            pc + off_c(dg.at(pr, pc) as int),
            8,
        ) + 1,
{
    let p = dg.pos(pr, pc);
    let d = dg.at(pr, pc) as int;
    let tr = pr + off_r(d);
    let tc = pc + off_c(d);
    let istar = inv_code(d);
    lemma_inv_code_props(d);
    assert(dem.is_valid(pr, pc) || dg.at(pr, pc) == -1);
    assert(dem.is_valid(tr, tc));
    assert(tr + off_r(istar) == pr && tc + off_c(istar) == pc);
    assert(flows_into(dg, tr, tc, istar));
    assert forall|r: int, c: int, i: int|
        0 <= i < 8 && !(r == tr && c == tc && i == istar) implies !(#[trigger] flows_into(
        dg,
        r,
        c,
        i,
    ) && dg.pos(r + off_r(i), c + off_c(i)) == p) by {
        if flows_into(dg, r, c, i) && dg.pos(r + off_r(i), c + off_c(i)) == p {
            lemma_inv_code_props(i);
            let nr = r + off_r(i);
            let nc = c + off_c(i);
            assert(dg.at(nr, nc) == inv_code(i));
            assert(dg.in_bounds(nr, nc));
            dg.lemma_pos_injective(nr, nc, pr, pc);
            assert(nr == pr && nc == pc);
            assert(inv_code(i) == d);
            assert(i == istar);
            assert(r == pr - off_r(i) && c == pc - off_c(i));
            assert(r == tr && c == tc);
        }
    }
    assert forall|r: int, c: int|
        !(r == tr && c == tc) implies settled_sum(dg, acc, done.insert(p), r, c, 8)
        == #[trigger] settled_sum(dg, acc, done, r, c, 8) && settled_cnt(
        dg,
        done.insert(p),
        r,
        c,
        8,
    ) == settled_cnt(dg, done, r, c, 8) by {
        lemma_settled_insert_miss(dg, acc, done, p, r, c, 8);
    }
    assert forall|r: int, c: int|
        !(r == tr && c == tc) implies settled_cnt(dg, done.insert(p), r, c, 8)
        == #[trigger] settled_cnt(dg, done, r, c, 8) by {
        assert(settled_sum(dg, acc, done.insert(p), r, c, 8) == settled_sum(dg, acc, done, r, c, 8));
    }
    lemma_settled_insert_hit(dg, acc, done, p, tr, tc, istar, 8);
}

/// When every still-unsettled valid cell still has an unsettled upstream
/// neighbour, no valid cell is left: otherwise the unsettled valid cell of
/// maximal elevation would have an unsettled upstream neighbour lying
/// strictly higher. Downhill routing admits no such chain.
pub(crate) proof fn lemma_traversal_complete(dem: Grid, dg: Grid, done: Set<int>)
    requires
        dem.wf(),
        dg.wf(),
        points_downhill(dem, dg),
        forall|r: int, c: int|
            dem.is_valid(r, c) && !done.contains(#[trigger] dg.pos(r, c)) ==> settled_cnt(
                dg,
                done,
                r,
                c,
                8,
            ) < inflow_upto(dg, r, c, 8),
    ensures
        forall|r: int, c: int| dem.is_valid(r, c) ==> done.contains(#[trigger] dg.pos(r, c)),
{
    let nn = dem.rows * dem.cols;
    let range = vstd::set_lib::set_int_range(0, nn);
    let unp = range.difference(done).filter(|q: int| dem.data@[q] != dem.nodata);
    assert forall|r: int, c: int| dem.is_valid(r, c) implies done.contains(
        #[trigger] dg.pos(r, c),
    ) by {
        if !done.contains(dg.pos(r, c)) {
            dg.lemma_pos_in_range(r, c);
            dem.lemma_pos_in_range(r, c);
            assert(dem.data@[dg.pos(r, c)] == dem.at(r, c));
            assert(unp.contains(dg.pos(r, c)));
            vstd::set_lib::lemma_int_range(0, nn);
            assert(unp.subset_of(range));
            vstd::set_lib::lemma_len_subset(unp, range);
            if unp.len() == 0 {
                unp.lemma_len0_is_empty();
            }
            lemma_max_position(dem.data@, unp);
            let m = choose|m: int|
                #[trigger] unp.contains(m) && forall|q: int|
                    unp.contains(q) ==> dem.data@[q] <= dem.data@[m];
            let cols = dem.cols as int;
            vstd::arithmetic::div_mod::lemma_fundamental_div_mod(m, cols);
            vstd::arithmetic::div_mod::lemma_mod_bound(m, cols);
            vstd::arithmetic::div_mod::lemma_div_pos_is_pos(m, cols);
            let mr = m / cols;
            let mc = m % cols;
            assert(mr < dem.rows) by (nonlinear_arith)
                requires
                    m == cols * mr + mc,
                    0 <= mc < cols,
                    0 <= m < dem.rows * cols,
                    0 <= mr,
            ;
            assert(cols * mr == mr * cols) by (nonlinear_arith);
            assert(dg.pos(mr, mc) == m);
            dem.lemma_pos_in_range(mr, mc);
            assert(dem.at(mr, mc) == dem.data@[m]);
            assert(dem.is_valid(mr, mc));
            assert(!done.contains(m));
            lemma_settled_cnt_range(dg, done, mr, mc, 8);
            let i = choose|i: int|
                0 <= i < 8 && #[trigger] flows_into(dg, mr, mc, i) && !done.contains(
                    dg.pos(mr + off_r(i), mc + off_c(i)),
                );
            lemma_inv_code_props(i);
            let ur = mr + off_r(i);
            let uc = mc + off_c(i);
            assert(dg.at(ur, uc) == inv_code(i));
            assert(dg.in_bounds(ur, uc));
            assert(dem.is_valid(ur, uc));
            assert(ur + off_r(inv_code(i)) == mr && uc + off_c(inv_code(i)) == mc);
            assert(dem.at(mr, mc) < dem.at(ur, uc));
            dg.lemma_pos_in_range(ur, uc);
            dem.lemma_pos_in_range(ur, uc);
            assert(dem.data@[dg.pos(ur, uc)] == dem.at(ur, uc));
            assert(unp.contains(dg.pos(ur, uc)));
            assert(dem.data@[dg.pos(ur, uc)] <= dem.data@[m]);
            assert(false);
        }
    }
}

/// `acc` is the flow accumulation of `dem` routed along the direction grid
/// `dg`: every valid cell holds one unit of its own plus everything its
/// upstream neighbours accumulated, every cell without data holds the
/// untouched seed value 1, and no cell exceeds the number of grid cells.
pub open spec fn accumulation_of(dem: Grid, dg: Grid, acc: Grid) -> bool {
    &&& acc.wf()
    &&& acc.rows == dem.rows
    &&& acc.cols == dem.cols
    &&& acc.nodata == dem.nodata
    &&& forall|r: int, c: int|
        dem.is_valid(r, c) ==> #[trigger] acc.at(r, c) as int == 1 + upstream_sum(dg, acc, r, c, 8)
    &&& forall|r: int, c: int|
        dem.in_bounds(r, c) && !dem.is_valid(r, c) ==> #[trigger] acc.at(r, c) == 1
    &&& forall|r: int, c: int|
        dem.in_bounds(r, c) ==> 1 <= #[trigger] acc.at(r, c) <= dem.rows * dem.cols
}
/// The state carried across the propagation loop, stack bookkeeping aside:
/// the readiness counters mirror how many upstream neighbours are still
/// unsettled, every cell holds one unit plus what its settled senders
/// delivered, the total flow still held by unsettled cells never exceeds the
/// cell count, and settled cells only ever follow settled senders.
pub(crate) open spec fn traversal_state(
    dem: Grid,
    dg: Grid,
    inflow: Grid,
    acc: Grid,
    done: Set<int>,
) -> bool {
    let nn = dem.rows * dem.cols;
    &&& dem.wf()
    &&& dg.wf()
    &&& points_downhill(dem, dg)
    &&& inflow.wf()
    &&& inflow.rows == dem.rows
    &&& inflow.cols == dem.cols
    &&& acc.wf()
    &&& acc.rows == dem.rows
    &&& acc.cols == dem.cols
    &&& acc.nodata == dem.nodata
    &&& acc.data@.len() == nn
    &&& done.finite()
    &&& done.subset_of(vstd::set_lib::set_int_range(0, nn))
    &&& forall|r2: int, c2: int|
        #![trigger inflow.at(r2, c2)]
        dem.in_bounds(r2, c2) ==> {
            &&& (!dem.is_valid(r2, c2) ==> inflow.at(r2, c2) == -1)
            &&& (dem.is_valid(r2, c2) && done.contains(dg.pos(r2, c2)) ==> inflow.at(r2, c2) == -1)
            &&& (dem.is_valid(r2, c2) && !done.contains(dg.pos(r2, c2)) ==> inflow.at(r2, c2) as int
                == inflow_upto(dg, r2, c2, 8) - settled_cnt(dg, done, r2, c2, 8))
        }
    &&& forall|r2: int, c2: int|
        #![trigger acc.at(r2, c2)]
        dem.in_bounds(r2, c2) ==> acc.at(r2, c2) as int == 1 + settled_sum(dg, acc, done, r2, c2, 8)
    &&& unsettled_total(acc.data@, done, nn) <= nn
    &&& forall|k: int| 0 <= k < nn ==> 1 <= #[trigger] acc.data@[k] <= nn
    &&& forall|r2: int, c2: int|
        #![trigger done.contains(dg.pos(r2, c2))]
        dem.in_bounds(r2, c2) && done.contains(dg.pos(r2, c2)) ==> forall|i: int|
            0 <= i < 8 && #[trigger] flows_into(dg, r2, c2, i) ==> done.contains(
                dg.pos(r2 + off_r(i), c2 + off_c(i)),
            )
}

/// Settling a ready pit cell: its counter is retired and nothing else moves.
pub(crate) proof fn lemma_step_pit(
    dem: Grid,
    dg: Grid,
    inflow_a: Grid,
    inflow_b: Grid,
    acc: Grid,
    done_a: Set<int>,
    cri: int,
    cqi: int,
)
    requires
        traversal_state(dem, dg, inflow_a, acc, done_a),
        dem.is_valid(cri, cqi),
        !done_a.contains(dg.pos(cri, cqi)),
        inflow_a.at(cri, cqi) == 0,
        dg.at(cri, cqi) == -1,
        inflow_b.wf(),
        inflow_b.rows == inflow_a.rows,
        inflow_b.cols == inflow_a.cols,
        inflow_b.at(cri, cqi) == -1,
        forall|r2: int, c2: int|
            !(r2 == cri && c2 == cqi) ==> #[trigger] inflow_b.at(r2, c2) == inflow_a.at(r2, c2),
    ensures
        traversal_state(dem, dg, inflow_b, acc, done_a.insert(dg.pos(cri, cqi))),
        done_a.insert(dg.pos(cri, cqi)).len() == done_a.len() + 1,
        done_a.insert(dg.pos(cri, cqi)).len() <= dem.rows * dem.cols,
{
    let nn = dem.rows * dem.cols;
    let p = dg.pos(cri, cqi);
    let done_b = done_a.insert(p);
    dg.lemma_pos_in_range(cri, cqi);
    vstd::set_lib::lemma_int_range(0, nn);
    vstd::set_lib::lemma_len_subset(done_b, vstd::set_lib::set_int_range(0, nn));
    lemma_insert_pit(dem, dg, acc, done_a, cri, cqi);
    lemma_unsettled_insert(acc.data@, done_a, nn, p);
    lemma_settled_cnt_range(dg, done_a, cri, cqi, 8);
    assert(settled_cnt(dg, done_a, cri, cqi, 8) == inflow_upto(dg, cri, cqi, 8));
    assert forall|r2: int, c2: int|
        #![trigger inflow_b.at(r2, c2)]
        dem.in_bounds(r2, c2) implies {
        &&& (!dem.is_valid(r2, c2) ==> inflow_b.at(r2, c2) == -1)
        &&& (dem.is_valid(r2, c2) && done_b.contains(dg.pos(r2, c2)) ==> inflow_b.at(r2, c2) == -1)
        &&& (dem.is_valid(r2, c2) && !done_b.contains(dg.pos(r2, c2)) ==> inflow_b.at(r2, c2) as int
            == inflow_upto(dg, r2, c2, 8) - settled_cnt(dg, done_b, r2, c2, 8))
    } by {
        if !(r2 == cri && c2 == cqi) {
            if dg.pos(r2, c2) == p {
                dg.lemma_pos_injective(r2, c2, cri, cqi);
            }
        }
    }
    assert forall|r2: int, c2: int|
        #![trigger acc.at(r2, c2)]
        dem.in_bounds(r2, c2) implies acc.at(r2, c2) as int == 1 + settled_sum(
        dg,
        acc,
        done_b,
        r2,
        c2,
        8,
    ) by {
        assert(settled_sum(dg, acc, done_b, r2, c2, 8) == settled_sum(dg, acc, done_a, r2, c2, 8));
    }
    assert forall|r2: int, c2: int|
        #![trigger done_b.contains(dg.pos(r2, c2))]
        dem.in_bounds(r2, c2) && done_b.contains(dg.pos(r2, c2)) implies forall|i: int|
        0 <= i < 8 && #[trigger] flows_into(dg, r2, c2, i) ==> done_b.contains(
            dg.pos(r2 + off_r(i), c2 + off_c(i)),
        ) by {
        if dg.pos(r2, c2) == p {
            dg.lemma_pos_injective(r2, c2, cri, cqi);
        } else {
            assert(done_a.contains(dg.pos(r2, c2)));
        }
    }
}

/// Settling a ready flowing cell: its flow moves to its downstream target,
/// whose readiness counter drops by one; everything else stands.
pub(crate) proof fn lemma_step_flow(
    dem: Grid,
    dg: Grid,
    inflow_a: Grid,
    inflow_b: Grid,
    acc_a: Grid,
    acc_b: Grid,
    done_a: Set<int>,
    cri: int,
    cqi: int,
)
    requires
        traversal_state(dem, dg, inflow_a, acc_a, done_a),
        dem.is_valid(cri, cqi),
        !done_a.contains(dg.pos(cri, cqi)),
        inflow_a.at(cri, cqi) == 0,
        0 <= dg.at(cri, cqi) < 8,
        inflow_b.wf(),
        inflow_b.rows == inflow_a.rows,
        inflow_b.cols == inflow_a.cols,
        inflow_b.at(cri, cqi) == -1,
        ({
            let d = dg.at(cri, cqi) as int;
            let tri = cri + off_r(d);
            let tqi = cqi + off_c(d);
            &&& inflow_b.at(tri, tqi) as int == inflow_a.at(tri, tqi) - 1
            &&& forall|r2: int, c2: int|
                !(r2 == cri && c2 == cqi) && !(r2 == tri && c2 == tqi)
                    ==> #[trigger] inflow_b.at(r2, c2) == inflow_a.at(r2, c2)
            &&& acc_b.wf()
            &&& acc_b.rows == acc_a.rows
            &&& acc_b.cols == acc_a.cols
            &&& acc_b.nodata == acc_a.nodata
            &&& acc_b.data@ == acc_a.data@.update(
                dg.pos(tri, tqi),
                (acc_a.at(tri, tqi) + acc_a.at(cri, cqi)) as i64,
            )
            &&& acc_a.at(tri, tqi) + acc_a.at(cri, cqi) <= dem.rows * dem.cols
        }),
    ensures
        traversal_state(
            dem,
            dg,
            inflow_b,
            acc_b,
            done_a.insert(dg.pos(cri, cqi)),
        ),
        done_a.insert(dg.pos(cri, cqi)).len() == done_a.len() + 1,
        done_a.insert(dg.pos(cri, cqi)).len() <= dem.rows * dem.cols,
{
    let nn = dem.rows * dem.cols;
    let p = dg.pos(cri, cqi);
    let done_b = done_a.insert(p);
    let d = dg.at(cri, cqi) as int;
    let tri = cri + off_r(d);
    let tqi = cqi + off_c(d);
    let pt = dg.pos(tri, tqi);
    let istar = inv_code(d);
    lemma_inv_code_props(d);
    dg.lemma_pos_in_range(cri, cqi);
    assert(dem.is_valid(tri, tqi));
    dg.lemma_pos_in_range(tri, tqi);
    acc_a.lemma_pos_in_range(cri, cqi);
    acc_a.lemma_pos_in_range(tri, tqi);
    assert(!(off_r(d) == 0 && off_c(d) == 0));
    if pt == p {
        dg.lemma_pos_injective(tri, tqi, cri, cqi);
    }
    assert(flows_into(dg, tri, tqi, istar));
    if done_a.contains(pt) {
        assert(done_a.contains(dg.pos(tri + off_r(istar), tqi + off_c(istar))));
        assert(false);
    }
    vstd::set_lib::lemma_int_range(0, nn);
    vstd::set_lib::lemma_len_subset(done_b, vstd::set_lib::set_int_range(0, nn));
    assert(nn < 0x4000_0000_0000_0000) by (nonlinear_arith)
        requires
            nn == dem.rows * dem.cols,
            dem.rows <= 0x7fff_ffff,
            dem.cols <= 0x7fff_ffff,
    ;
    assert(acc_a.at(tri, tqi) == acc_a.data@[pt] && acc_a.at(cri, cqi) == acc_a.data@[p]);
    assert(0 <= acc_a.at(tri, tqi) + acc_a.at(cri, cqi) <= i64::MAX);
    assert(acc_b.at(cri, cqi) == acc_a.at(cri, cqi));
    assert(acc_b.at(tri, tqi) == acc_a.at(tri, tqi) + acc_a.at(cri, cqi));
    let fa = acc_a.at(cri, cqi) as int;
    assert(acc_a.data@[p] == fa && acc_b.data@[p] == fa);
    // every settled sum survives the accumulation write at the target
    assert forall|r2: int, c2: int|
        settled_sum(dg, acc_b, done_a, r2, c2, 8) == #[trigger] settled_sum(
        dg,
        acc_a,
        done_a,
        r2,
        c2,
        8,
    ) by {
        lemma_settled_sum_acc_update(dg, acc_a, acc_b, done_a, pt, r2, c2, 8);
    }
    lemma_insert_flow(dem, dg, acc_b, done_a, cri, cqi);
    lemma_unsettled_update(acc_a.data@, done_a, nn, pt, (acc_a.at(tri, tqi) + fa) as i64);
    lemma_unsettled_insert(acc_b.data@, done_a, nn, p);
    lemma_settled_cnt_range(dg, done_a, cri, cqi, 8);
    assert(settled_cnt(dg, done_a, cri, cqi, 8) == inflow_upto(dg, cri, cqi, 8));
    assert forall|r2: int, c2: int|
        #![trigger inflow_b.at(r2, c2)]
        dem.in_bounds(r2, c2) implies {
        &&& (!dem.is_valid(r2, c2) ==> inflow_b.at(r2, c2) == -1)
        &&& (dem.is_valid(r2, c2) && done_b.contains(dg.pos(r2, c2)) ==> inflow_b.at(r2, c2) == -1)
        &&& (dem.is_valid(r2, c2) && !done_b.contains(dg.pos(r2, c2)) ==> inflow_b.at(r2, c2) as int
            == inflow_upto(dg, r2, c2, 8) - settled_cnt(dg, done_b, r2, c2, 8))
    } by {
        if r2 == tri && c2 == tqi {
            assert(settled_cnt(dg, done_b, tri, tqi, 8) == settled_cnt(dg, done_a, tri, tqi, 8)
                + 1);
        } else if !(r2 == cri && c2 == cqi) {
            if dg.pos(r2, c2) == p {
                dg.lemma_pos_injective(r2, c2, cri, cqi);
            }
            assert(settled_cnt(dg, done_b, r2, c2, 8) == settled_cnt(dg, done_a, r2, c2, 8));
        }
    }
    assert forall|r2: int, c2: int|
        #![trigger acc_b.at(r2, c2)]
        dem.in_bounds(r2, c2) implies acc_b.at(r2, c2) as int == 1 + settled_sum(
        dg,
        acc_b,
        done_b,
        r2,
        c2,
        8,
    ) by {
        if r2 == tri && c2 == tqi {
            assert(acc_b.at(tri, tqi) as int == acc_a.at(tri, tqi) + fa);
            assert(acc_a.at(tri, tqi) as int == 1 + settled_sum(dg, acc_a, done_a, tri, tqi, 8));
            assert(settled_sum(dg, acc_b, done_a, tri, tqi, 8) == settled_sum(
                dg,
                acc_a,
                done_a,
                tri,
                tqi,
                8,
            ));
            assert(acc_b.at(cri, cqi) == fa);
            assert(settled_sum(dg, acc_b, done_b, tri, tqi, 8) == settled_sum(
                dg,
                acc_b,
                done_a,
                tri,
                tqi,
                8,
            ) + acc_b.at(cri, cqi));
        } else {
            acc_a.lemma_pos_in_range(r2, c2);
            if dg.pos(r2, c2) == pt {
                dg.lemma_pos_injective(r2, c2, tri, tqi);
            }
            assert(acc_b.at(r2, c2) == acc_a.at(r2, c2));
            assert(acc_a.at(r2, c2) as int == 1 + settled_sum(dg, acc_a, done_a, r2, c2, 8));
            assert(settled_sum(dg, acc_b, done_a, r2, c2, 8) == settled_sum(
                dg,
                acc_a,
                done_a,
                r2,
                c2,
                8,
            ));
            assert(settled_sum(dg, acc_b, done_b, r2, c2, 8) == settled_sum(
                dg,
                acc_b,
                done_a,
                r2,
                c2,
                8,
            ));
        }
    }
    assert forall|k: int| 0 <= k < nn implies 1 <= #[trigger] acc_b.data@[k] <= nn by {
        if k == pt {
            assert(acc_b.data@[k] == acc_a.at(tri, tqi) + fa);
        } else {
            assert(acc_b.data@[k] == acc_a.data@[k]);
        }
    }
    assert forall|r2: int, c2: int|
        #![trigger done_b.contains(dg.pos(r2, c2))]
        dem.in_bounds(r2, c2) && done_b.contains(dg.pos(r2, c2)) implies forall|i: int|
        0 <= i < 8 && #[trigger] flows_into(dg, r2, c2, i) ==> done_b.contains(
            dg.pos(r2 + off_r(i), c2 + off_c(i)),
        ) by {
        if dg.pos(r2, c2) == p {
            dg.lemma_pos_injective(r2, c2, cri, cqi);
        } else {
            assert(done_a.contains(dg.pos(r2, c2)));
        }
    }
}

/// Topological flow accumulation along `dg` (Kahn-style, stack driven).
/// Fails exactly when the grids disagree in shape. The direction grid must
/// route strictly downhill, as the resolver guarantees.
pub fn accumulate(dem: &Grid, dg: &Grid) -> (res: Result<Grid, GridError>)
    requires
        dem.wf(),
        dg.wf(),
        dem.same_shape(dg) ==> points_downhill(*dem, *dg),
    ensures
        res.is_ok() <==> dem.same_shape(dg),
        res matches Ok(acc) ==> accumulation_of(*dem, *dg, acc),
        res matches Err(e) ==> e == GridError::DimensionMismatch,
{
    let mut inflow = match inflow_counts(dem, dg) {
        Ok(g) => g,
        Err(e) => {
            return Err(e);
        },
    };
    let rows: usize = dem.num_rows();
    let cols: usize = dem.num_cols();
    let ghost nn: int = dem.rows * dem.cols;
    let n: usize = dem.data.len();
    proof {
        assert(nn < 0x4000_0000_0000_0000) by (nonlinear_arith)
            requires
                nn == dem.rows * dem.cols,
                dem.rows <= 0x7fff_ffff,
                dem.cols <= 0x7fff_ffff,
        ;
    }
    let mut acc = Grid::new(rows, cols, dem.nodata_value(), 1);
    let mut stack: Vec<(i64, i64)> = Vec::new();
    let mut r: usize = 0;
    while r < rows
        invariant
            dem.wf(),
            inflow.wf(),
            inflow.rows == dem.rows,
            inflow.cols == dem.cols,
            rows == dem.rows,
            cols == dem.cols,
            r <= rows,
            forall|r2: int, c2: int|
                dem.in_bounds(r2, c2) ==> #[trigger] inflow.at(r2, c2) == if dem.is_valid(r2, c2) {
                    inflow_upto(*dg, r2, c2, 8)
                } else {
                    -1
                },
            forall|k1: int, k2: int|
                0 <= k1 < k2 < stack@.len() ==> #[trigger] stack@[k1] != #[trigger] stack@[k2],
            forall|k: int|
                0 <= k < stack@.len() ==> {
                    let q = #[trigger] stack@[k];
                    &&& dem.is_valid(q.0 as int, q.1 as int)
                    &&& inflow.at(q.0 as int, q.1 as int) == 0
                    &&& 0 <= q.0 < r
                },
            forall|r2: int, c2: int|
                0 <= r2 < r && 0 <= c2 < cols && dem.is_valid(r2, c2) && inflow.at(r2, c2) == 0
                    ==> exists|k: int|
                    0 <= k < stack@.len() && (#[trigger] stack@[k]).0 == r2 && stack@[k].1 == c2,
        decreases rows - r,
    {
        let ri: i64 = r as i64;
        let mut c: usize = 0;
        while c < cols
            invariant
                dem.wf(),
                inflow.wf(),
                inflow.rows == dem.rows,
                inflow.cols == dem.cols,
                rows == dem.rows,
                cols == dem.cols,
                r < rows,
                ri == r,
                c <= cols,
                forall|r2: int, c2: int|
                    dem.in_bounds(r2, c2) ==> #[trigger] inflow.at(r2, c2) == if dem.is_valid(
                        r2,
                        c2,
                    ) {
                        inflow_upto(*dg, r2, c2, 8)
                    } else {
                        -1
                    },
                forall|k1: int, k2: int|
                    0 <= k1 < k2 < stack@.len() ==> #[trigger] stack@[k1] != #[trigger] stack@[k2],
                forall|k: int|
                    0 <= k < stack@.len() ==> {
                        let q = #[trigger] stack@[k];
                        &&& dem.is_valid(q.0 as int, q.1 as int)
                        &&& inflow.at(q.0 as int, q.1 as int) == 0
                        &&& (q.0 < r || (q.0 == r && q.1 < c))
                    },
                forall|r2: int, c2: int|
                    (0 <= r2 < r && 0 <= c2 < cols || r2 == r && 0 <= c2 < c) && dem.is_valid(
                        r2,
                        c2,
                    ) && inflow.at(r2, c2) == 0 ==> exists|k: int|
                        0 <= k < stack@.len() && (#[trigger] stack@[k]).0 == r2 && stack@[k].1
                            == c2,
            decreases cols - c,
        {
            let ci: i64 = c as i64;
            let ghost stack0 = stack@;
            if inflow.get(ri, ci) == 0 {
                stack.push((ri, ci));
            }
            proof {
                assert forall|k: int| 0 <= k < stack0.len() implies stack@[k] == stack0[k] by {}
                assert forall|r2: int, c2: int|
                    (0 <= r2 < r && 0 <= c2 < cols || r2 == r && 0 <= c2 < c + 1) && dem.is_valid(
                        r2,
                        c2,
                    ) && inflow.at(r2, c2) == 0 implies exists|k: int|
                    0 <= k < stack@.len() && (#[trigger] stack@[k]).0 == r2 && stack@[k].1
                        == c2 by {
                    if r2 == r && c2 == c {
                        assert(stack@[stack@.len() - 1].0 == r2 && stack@[stack@.len() - 1].1
                            == c2);
                    } else {
                        let k0 = choose|k: int|
                            0 <= k < stack0.len() && (#[trigger] stack0[k]).0 == r2 && stack0[k].1
                                == c2;
                        assert(stack@[k0].0 == r2 && stack@[k0].1 == c2);
                    }
                }
            }
            c = c + 1;
        }
        r = r + 1;
    }
    let ghost mut done: Set<int> = Set::empty();
    proof {
        assert forall|r2: int, c2: int|
            #![trigger inflow.at(r2, c2)]
            dem.in_bounds(r2, c2) implies {
            &&& (!dem.is_valid(r2, c2) ==> inflow.at(r2, c2) == -1)
            &&& (dem.is_valid(r2, c2) && done.contains(dg.pos(r2, c2)) ==> inflow.at(r2, c2) == -1)
            &&& (dem.is_valid(r2, c2) && !done.contains(dg.pos(r2, c2)) ==> inflow.at(r2, c2) as int
                == inflow_upto(*dg, r2, c2, 8) - settled_cnt(*dg, done, r2, c2, 8))
        } by {
            lemma_settled_empty(*dg, acc, r2, c2, 8);
        }
        assert forall|r2: int, c2: int|
            #![trigger acc.at(r2, c2)]
            dem.in_bounds(r2, c2) implies acc.at(r2, c2) as int == 1 + settled_sum(
            *dg,
            acc,
            done,
            r2,
            c2,
            8,
        ) by {
            lemma_settled_empty(*dg, acc, r2, c2, 8);
        }
        lemma_unsettled_all_ones(acc.data@, nn);
        assert(traversal_state(*dem, *dg, inflow, acc, done));
    }
    while stack.len() > 0
        invariant
            traversal_state(*dem, *dg, inflow, acc, done),
            dem.same_shape(dg),
            nn == dem.rows * dem.cols,
            nn < 0x4000_0000_0000_0000,
            done.len() <= nn,
            forall|k1: int, k2: int|
                0 <= k1 < k2 < stack@.len() ==> #[trigger] stack@[k1] != #[trigger] stack@[k2],
            forall|k: int|
                0 <= k < stack@.len() ==> {
                    let q = #[trigger] stack@[k];
                    &&& dem.is_valid(q.0 as int, q.1 as int)
                    &&& inflow.at(q.0 as int, q.1 as int) == 0
                    &&& !done.contains(dg.pos(q.0 as int, q.1 as int))
                },
            forall|r2: int, c2: int|
                dem.is_valid(r2, c2) && inflow.at(r2, c2) == 0 && !done.contains(dg.pos(r2, c2))
                    ==> exists|k: int|
                    0 <= k < stack@.len() && (#[trigger] stack@[k]).0 == r2 && stack@[k].1 == c2,
        decreases nn - done.len(),
    {
        let ghost stack0 = stack@;
        let ghost done0 = done;
        let ghost inflow0 = inflow;
        let cell = stack.pop().unwrap();
        let cr: i64 = cell.0;
        let cq: i64 = cell.1;
        let ghost cri: int = cr as int;
        let ghost cqi: int = cq as int;
        let ghost p: int = dg.pos(cri, cqi);
        proof {
            assert(stack0[stack0.len() - 1] == cell);
            assert(dem.is_valid(cri, cqi));
            assert(!done0.contains(p));
            assert(inflow0.at(cri, cqi) == 0);
            dg.lemma_pos_in_range(cri, cqi);
            acc.lemma_pos_in_range(cri, cqi);
        }
        let fa: i64 = acc.get(cr, cq);
        inflow.set(cr, cq, -1);
        let d: i64 = dg.get(cr, cq);
        if d >= 0 {
            let (dr, dc) = crate::direction::offset_of(d as usize);
            let tr: i64 = cr + dr;
            let tq: i64 = cq + dc;
            let ghost tri: int = tr as int;
            let ghost tqi: int = tq as int;
            let ghost pt: int = dg.pos(tri, tqi);
            proof {
                lemma_inv_code_props(d as int);
                assert(dem.is_valid(tri, tqi));
                dg.lemma_pos_in_range(tri, tqi);
                acc.lemma_pos_in_range(tri, tqi);
                assert(!(off_r(d as int) == 0 && off_c(d as int) == 0));
                if pt == p {
                    dg.lemma_pos_injective(tri, tqi, cri, cqi);
                }
                assert(flows_into(*dg, tri, tqi, inv_code(d as int)));
                if done0.contains(pt) {
                    assert(done0.contains(
                        dg.pos(
                            tri + off_r(inv_code(d as int)),
                            tqi + off_c(inv_code(d as int)),
                        ),
                    ));
                    assert(false);
                }
            }
            let cur: i64 = acc.get(tr, tq);
            proof {
                lemma_unsettled_pair(acc.data@, done0, nn, pt, p);
                assert(cur == acc.data@[pt]);
                assert(fa == acc.data@[p]);
                assert(cur + fa <= nn);
            }
            let ghost acc0 = acc;
            acc.set(tr, tq, cur + fa);
            let v: i64 = inflow.get(tr, tq);
            proof {
                // the target still waits for this sender, so its counter is positive
                lemma_settled_cnt_range(*dg, done0, tri, tqi, 8);
                if settled_cnt(*dg, done0, tri, tqi, 8) == inflow_upto(*dg, tri, tqi, 8) {
                    assert(done0.contains(
                        dg.pos(
                            tri + off_r(inv_code(d as int)),
                            tqi + off_c(inv_code(d as int)),
                        ),
                    ));
                    assert(false);
                }
                assert(v >= 1);
            }
            inflow.set(tr, tq, v - 1);
            if v - 1 == 0 {
                stack.push((tr, tq));
            }
            proof {
                done = done0.insert(p);
                lemma_step_flow(*dem, *dg, inflow0, inflow, acc0, acc, done0, cri, cqi);
                assert forall|k: int| 0 <= k < stack0.len() - 1 implies stack@[k] == stack0[k] by {}
                assert(acc.at(cri, cqi) == fa);
                // the target was not on the stack: its counter was still positive
                assert forall|k: int|
                    0 <= k < stack0.len() - 1 implies stack0[k] != (tr, tq) by {
                    if stack0[k] == (tr, tq) {
                        assert(inflow0.at(tri, tqi) == 0);
                    }
                }
                assert forall|k1: int, k2: int|
                    0 <= k1 < k2 < stack@.len() implies #[trigger] stack@[k1]
                    != #[trigger] stack@[k2] by {
                    if k2 == stack@.len() - 1 && stack@.len() > stack0.len() - 1 {
                        assert(stack@[k1] == stack0[k1]);
                    }
                }
                assert forall|k: int|
                    0 <= k < stack@.len() implies {
                    let q = #[trigger] stack@[k];
                    &&& dem.is_valid(q.0 as int, q.1 as int)
                    &&& inflow.at(q.0 as int, q.1 as int) == 0
                    &&& !done.contains(dg.pos(q.0 as int, q.1 as int))
                } by {
                    if k < stack0.len() - 1 {
                        let q = stack0[k];
                        assert(q != cell);
                        if dg.pos(q.0 as int, q.1 as int) == p {
                            dg.lemma_pos_injective(q.0 as int, q.1 as int, cri, cqi);
                        }
                        if q.0 as int == tri && q.1 as int == tqi {
                            assert(inflow0.at(tri, tqi) == 0);
                            assert(false);
                        }
                    }
                }
                assert forall|r2: int, c2: int|
                    dem.is_valid(r2, c2) && inflow.at(r2, c2) == 0 && !done.contains(
                        dg.pos(r2, c2),
                    ) implies exists|k: int|
                    0 <= k < stack@.len() && (#[trigger] stack@[k]).0 == r2 && stack@[k].1
                        == c2 by {
                    if r2 == tri && c2 == tqi {
                        assert(stack@[stack@.len() - 1].0 == r2 && stack@[stack@.len() - 1].1
                            == c2);
                    } else if r2 == cri && c2 == cqi {
                        assert(done.contains(dg.pos(r2, c2)));
                    } else {
                        if dg.pos(r2, c2) == p {
                            dg.lemma_pos_injective(r2, c2, cri, cqi);
                        }
                        assert(inflow0.at(r2, c2) == 0);
                        let k0 = choose|k: int|
                            0 <= k < stack0.len() && (#[trigger] stack0[k]).0 == r2 && stack0[k].1
                                == c2;
                        assert(stack0[k0] != cell);
                        assert(k0 < stack0.len() - 1);
                        assert(stack@[k0].0 == r2 && stack@[k0].1 == c2);
                    }
                }
            }
        } else {
            proof {
                done = done0.insert(p);
                lemma_step_pit(*dem, *dg, inflow0, inflow, acc, done0, cri, cqi);
                assert forall|k: int| 0 <= k < stack0.len() - 1 implies stack@[k] == stack0[k] by {}
                assert forall|k: int|
                    0 <= k < stack@.len() implies {
                    let q = #[trigger] stack@[k];
                    &&& dem.is_valid(q.0 as int, q.1 as int)
                    &&& inflow.at(q.0 as int, q.1 as int) == 0
                    &&& !done.contains(dg.pos(q.0 as int, q.1 as int))
                } by {
                    let q = stack0[k];
                    assert(q != cell);
                    if dg.pos(q.0 as int, q.1 as int) == p {
                        dg.lemma_pos_injective(q.0 as int, q.1 as int, cri, cqi);
                    }
                }
                assert forall|r2: int, c2: int|
                    dem.is_valid(r2, c2) && inflow.at(r2, c2) == 0 && !done.contains(
                        dg.pos(r2, c2),
                    ) implies exists|k: int|
                    0 <= k < stack@.len() && (#[trigger] stack@[k]).0 == r2 && stack@[k].1
                        == c2 by {
                    if r2 == cri && c2 == cqi {
                        assert(done.contains(dg.pos(r2, c2)));
                    } else {
                        if dg.pos(r2, c2) == p {
                            dg.lemma_pos_injective(r2, c2, cri, cqi);
                        }
                        assert(inflow0.at(r2, c2) == 0);
                        let k0 = choose|k: int|
                            0 <= k < stack0.len() && (#[trigger] stack0[k]).0 == r2 && stack0[k].1
                                == c2;
                        assert(stack0[k0] != cell);
                        assert(k0 < stack0.len() - 1);
                        assert(stack@[k0].0 == r2 && stack@[k0].1 == c2);
                    }
                }
            }
        }
    }
    proof {
        assert forall|r2: int, c2: int|
            dem.is_valid(r2, c2) && !done.contains(#[trigger] dg.pos(r2, c2)) implies settled_cnt(
            *dg,
            done,
            r2,
            c2,
            8,
        ) < inflow_upto(*dg, r2, c2, 8) by {
            lemma_settled_cnt_range(*dg, done, r2, c2, 8);
            assert(inflow.at(r2, c2) != 0);
        }
        lemma_traversal_complete(*dem, *dg, done);
        assert forall|r2: int, c2: int| dem.is_valid(r2, c2) implies #[trigger] acc.at(
            r2,
            c2,
        ) as int == 1 + upstream_sum(*dg, acc, r2, c2, 8) by {
            assert forall|i: int|
                0 <= i < 8 && flows_into(*dg, r2, c2, i) implies done.contains(
                #[trigger] dg.pos(r2 + off_r(i), c2 + off_c(i)),
            ) by {
                lemma_inv_code_props(i);
                let ur = r2 + off_r(i);
                let uc = c2 + off_c(i);
                assert(dg.at(ur, uc) == inv_code(i));
                assert(dg.in_bounds(ur, uc));
                assert(dem.is_valid(ur, uc));
            }
            lemma_settled_sum_complete(*dg, acc, done, r2, c2, 8);
        }
        assert forall|r2: int, c2: int|
            dem.in_bounds(r2, c2) && !dem.is_valid(r2, c2) implies #[trigger] acc.at(r2, c2)
            == 1 by {
            assert forall|i: int| 0 <= i < 8 implies !#[trigger] flows_into(*dg, r2, c2, i) by {
                if flows_into(*dg, r2, c2, i) {
                    lemma_inv_code_props(i);
                    let ur = r2 + off_r(i);
                    let uc = c2 + off_c(i);
                    assert(dg.at(ur, uc) == inv_code(i));
                    assert(dg.in_bounds(ur, uc));
                    assert(dem.is_valid(ur, uc));
                    assert(ur + off_r(inv_code(i)) == r2 && uc + off_c(inv_code(i)) == c2);
                    assert(dem.is_valid(r2, c2));
                }
            }
            lemma_no_inflow_zero(*dg, acc, done, r2, c2, 8);
        }
        assert forall|r2: int, c2: int| dem.in_bounds(r2, c2) implies 1 <= #[trigger] acc.at(
            r2,
            c2,
        ) <= nn by {
            acc.lemma_pos_in_range(r2, c2);
        }
    }
    Ok(acc)
}

/// Accumulation law: every valid cell carries at least its own unit of
/// flow, and no less than the total flow of the upstream neighbours that
/// route into it.
pub proof fn lemma_accumulation_dominates_inflow(
    dem: Grid,
    dg: Grid,
    acc: Grid,
    r: int,
    c: int,
)
    requires
        accumulation_of(dem, dg, acc),
        dem.is_valid(r, c),
    ensures
        acc.at(r, c) >= 1,
        acc.at(r, c) as int >= upstream_sum(dg, acc, r, c, 8),
{
}

/// The unit in which accumulated flow is reported.
#[derive(Clone, Copy, Debug, PartialEq, Eq, Structural)]
pub enum OutType {
    /// Number of inflowing cells, the cell itself included.
    Cells,
    /// Upslope area: cell count times the cell area.
    CatchmentArea,
    /// Catchment area divided by the mean cell size (the constant flow
    /// width), reported as an exact rational.
    SpecificContributingArea,
}

/// Numerator of the converted value for one cell count; with
/// [`converted_denominator`] it forms the exact rational result.
pub open spec fn converted_value(count: int, sx: int, sy: int, t: OutType) -> int {
    match t {
        OutType::Cells => count,
        OutType::CatchmentArea => count * sx * sy,
        OutType::SpecificContributingArea => 2 * count * sx * sy,
    }
}

/// Denominator of the converted value: one except for the specific
/// contributing area, where the mean cell size (sx + sy) / 2 divides the
/// catchment area.
pub open spec fn converted_denominator(sx: int, sy: int, t: OutType) -> int {
    match t {
        OutType::SpecificContributingArea => sx + sy,
        _ => 1,
    }
}

/// Unit-conversion law: run on the same counts, the three output modes
/// agree exactly. The catchment area is the cell count times the cell
/// area sx * sy, and the specific contributing area is the catchment area
/// divided by the mean cell size (sx + sy) / 2: as exact rationals,
/// sca = 2 * ca / (sx + sy), i.e. its numerator is twice the catchment
/// area over the denominator sx + sy.
pub proof fn lemma_conversion_consistency(count: int, sx: int, sy: int)
    ensures
        converted_denominator(sx, sy, OutType::Cells) == 1,
        converted_denominator(sx, sy, OutType::CatchmentArea) == 1,
        converted_denominator(sx, sy, OutType::SpecificContributingArea) == sx + sy,
        converted_value(count, sx, sy, OutType::CatchmentArea) == converted_value(
            count,
            sx,
            sy,
            OutType::Cells,
        ) * (sx * sy),
        converted_value(count, sx, sy, OutType::SpecificContributingArea) == 2 * converted_value(
            count,
            sx,
            sy,
            OutType::CatchmentArea,
        ),
{
    assert(count * sx * sy == count * (sx * sy)) by (nonlinear_arith);
    assert(2 * count * sx * sy == 2 * (count * sx * sy)) by (nonlinear_arith);
}

/// Applies the unit conversion to an accumulation grid of cell counts,
/// passing nodata through. The result pairs the grid of numerators with
/// the common denominator; for counts and catchment area the denominator
/// is one and the numerators are the values themselves.
pub fn convert_accumulation(
    dem: &Grid,
    counts: &Grid,
    out_type: OutType,
    sx: i64,
    sy: i64,
) -> (res: (Grid, i64))
    requires
        dem.wf(),
        counts.wf(),
        counts.rows == dem.rows,
        counts.cols == dem.cols,
        1 <= sx <= crate::direction::SIZE_LIMIT,
        1 <= sy <= crate::direction::SIZE_LIMIT,
        forall|r: int, c: int|
            dem.is_valid(r, c) ==> 1 <= #[trigger] counts.at(r, c) <= dem.rows * dem.cols,
        2 * (dem.rows * dem.cols) * sx * sy <= i64::MAX,
    ensures
        res.0.wf(),
        res.0.rows == dem.rows,
        res.0.cols == dem.cols,
        res.0.nodata == dem.nodata,
        res.1 == converted_denominator(sx as int, sy as int, out_type),
        res.1 >= 1,
        forall|r: int, c: int|
            dem.is_valid(r, c) ==> #[trigger] res.0.at(r, c) == converted_value(
                counts.at(r, c) as int,
                sx as int,
                sy as int,
                out_type,
            ),
        forall|r: int, c: int|
            dem.in_bounds(r, c) && !dem.is_valid(r, c) ==> #[trigger] res.0.at(r, c)
                == dem.nodata,
{
    let rows: usize = dem.num_rows();
    let cols: usize = dem.num_cols();
    let n: usize = dem.data.len();
    let nd: i64 = dem.nodata_value();
    let den: i64 = match out_type {
        OutType::SpecificContributingArea => sx + sy,
        _ => 1,
    };
    let mut out = Grid::new(rows, cols, nd, nd);
    let mut r: usize = 0;
    while r < rows
        invariant
            dem.wf(),
            counts.wf(),
            counts.rows == dem.rows,
            counts.cols == dem.cols,
            1 <= sx <= crate::direction::SIZE_LIMIT,
            1 <= sy <= crate::direction::SIZE_LIMIT,
            forall|a: int, b: int|
                dem.is_valid(a, b) ==> 1 <= #[trigger] counts.at(a, b) <= dem.rows * dem.cols,
            2 * (dem.rows * dem.cols) * sx * sy <= i64::MAX,
            rows == dem.rows,
            cols == dem.cols,
            nd == dem.nodata,
            r <= rows,
            out.wf(),
            out.rows == dem.rows,
            out.cols == dem.cols,
            out.nodata == dem.nodata,
            forall|a: int, b: int|
                dem.in_bounds(a, b) && !dem.is_valid(a, b) ==> #[trigger] out.at(a, b)
                    == dem.nodata,
            forall|a: int, b: int|
                0 <= a < r && 0 <= b < cols && dem.is_valid(a, b) ==> #[trigger] out.at(a, b)
                    == converted_value(counts.at(a, b) as int, sx as int, sy as int, out_type),
        decreases rows - r,
    {
        let ri: i64 = r as i64;
        let mut c: usize = 0;
        while c < cols
            invariant
                dem.wf(),
                counts.wf(),
                counts.rows == dem.rows,
                counts.cols == dem.cols,
                1 <= sx <= crate::direction::SIZE_LIMIT,
                1 <= sy <= crate::direction::SIZE_LIMIT,
                forall|a: int, b: int|
                    dem.is_valid(a, b) ==> 1 <= #[trigger] counts.at(a, b) <= dem.rows * dem.cols,
                2 * (dem.rows * dem.cols) * sx * sy <= i64::MAX,
                rows == dem.rows,
                cols == dem.cols,
                nd == dem.nodata,
                r < rows,
                ri == r,
                c <= cols,
                out.wf(),
                out.rows == dem.rows,
                out.cols == dem.cols,
                out.nodata == dem.nodata,
                forall|a: int, b: int|
                    dem.in_bounds(a, b) && !dem.is_valid(a, b) ==> #[trigger] out.at(a, b)
                        == dem.nodata,
                forall|a: int, b: int|
                    0 <= a < r && 0 <= b < cols && dem.is_valid(a, b) ==> #[trigger] out.at(a, b)
                        == converted_value(counts.at(a, b) as int, sx as int, sy as int, out_type),
                forall|b: int|
                    0 <= b < c && dem.is_valid(r as int, b) ==> #[trigger] out.at(r as int, b)
                        == converted_value(
                        counts.at(r as int, b) as int,
                        sx as int,
                        sy as int,
                        out_type,
                    ),
            decreases cols - c,
        {
            let ci: i64 = c as i64;
            let z: i64 = dem.get(ri, ci);
            if z != nd {
                let count: i64 = counts.get(ri, ci);
                proof {
                    assert(1 <= count <= dem.rows * dem.cols);
                    assert(0 < count * sx <= (dem.rows * dem.cols) * sx && 0 < count * sx * sy <= (
                    dem.rows * dem.cols) * sx * sy && 0 < 2 * (count * sx * sy) <= 2 * ((dem.rows
                        * dem.cols) * sx * sy) && 2 * ((dem.rows * dem.cols) * sx * sy) == 2 * (
                    dem.rows * dem.cols) * sx * sy && (dem.rows * dem.cols) * sx <= (dem.rows
                        * dem.cols) * sx * sy) by (nonlinear_arith)
                        requires
                            1 <= count <= dem.rows * dem.cols,
                            1 <= sx,
                            1 <= sy,
                    ;
                    assert(count * sx * sy * 2 == 2 * count * sx * sy) by (nonlinear_arith);
                }
                let v: i64 = match out_type {
                    OutType::Cells => count,
                    OutType::CatchmentArea => count * sx * sy,
                    OutType::SpecificContributingArea => count * sx * sy * 2,
                };
                out.set(ri, ci, v);
                proof {
                    assert(count == counts.at(ri as int, ci as int));
                    assert(out.at(ri as int, ci as int) == v);
                    if out_type == OutType::Cells {
                        assert(v as int == converted_value(count as int, sx as int, sy as int, out_type));
                    } else if out_type == OutType::CatchmentArea {
                        assert(v as int == converted_value(count as int, sx as int, sy as int, out_type));
                    } else {
                        assert(out_type == OutType::SpecificContributingArea);
                        assert(v as int == converted_value(count as int, sx as int, sy as int, out_type));
                    }
                    assert(out.at(ri as int, ci as int) == converted_value(
                        counts.at(ri as int, ci as int) as int,
                        sx as int,
                        sy as int,
                        out_type,
                    ));
                }
            }
            c = c + 1;
        }
        r = r + 1;
    }
    (out, den)
}

/// The full flow-accumulation pipeline: resolve directions, propagate flow
/// in dependency order, convert to the requested unit. Returns the
/// converted grid, the common denominator of its values, and whether an
/// interior pit was found (a warning that the terrain still holds
/// unresolved depressions; the result is computed all the same).
pub fn flow_accumulation(dem: &Grid, sx: i64, sy: i64, out_type: OutType) -> (res: (
    Grid,
    i64,
    bool,
))
    requires
        dem.wf(),
        crate::direction::elev_bounded(*dem),
        1 <= sx <= crate::direction::SIZE_LIMIT,
        1 <= sy <= crate::direction::SIZE_LIMIT,
        2 * (dem.rows * dem.cols) * sx * sy <= i64::MAX,
    ensures
        res.0.wf(),
        res.0.rows == dem.rows,
        res.0.cols == dem.cols,
        res.0.nodata == dem.nodata,
        res.1 == converted_denominator(sx as int, sy as int, out_type),
        res.2 == exists|r: int, c: int| crate::direction::is_interior_pit(*dem, r, c),
        exists|dg: Grid, acc: Grid|
            {
                &&& #[trigger] crate::direction::is_direction_grid(*dem, sx as int, sy as int, dg)
                &&& #[trigger] accumulation_of(*dem, dg, acc)
                &&& forall|r: int, c: int|
                    dem.is_valid(r, c) ==> #[trigger] res.0.at(r, c) == converted_value(
                        acc.at(r, c) as int,
                        sx as int,
                        sy as int,
                        out_type,
                    )
            },
        forall|r: int, c: int|
            dem.in_bounds(r, c) && !dem.is_valid(r, c) ==> #[trigger] res.0.at(r, c)
                == dem.nodata,
{
    let (dg, pit) = crate::direction::d8_directions(dem, sx, sy);
    proof {
        crate::direction::lemma_direction_grid_downhill(*dem, sx as int, sy as int, dg);
    }
    let acc = match accumulate(dem, &dg) {
        Ok(a) => a,
        Err(_) => {
            proof {
                assert(false);
            }
            Grid::new(0, 0, -1, -1)
        },
    };
    let (out, den) = convert_accumulation(dem, &acc, out_type, sx, sy);
    proof {
        assert(crate::direction::is_direction_grid(*dem, sx as int, sy as int, dg)
            && accumulation_of(*dem, dg, acc) && forall|r: int, c: int|
            dem.is_valid(r, c) ==> #[trigger] out.at(r, c) == converted_value(
                acc.at(r, c) as int,
                sx as int,
                sy as int,
                out_type,
            ));
    }
    (out, den, pit)
}

} // verus!
