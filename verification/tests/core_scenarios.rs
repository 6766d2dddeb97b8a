//! End-to-end checks of the flow-routing engine on small grids.

use flowgrid::accumulate::{accumulate, flow_accumulation, inflow_counts, OutType};
use flowgrid::direction::d8_directions;
use flowgrid::fill::{depth_in_sink, fill_depressions};
use flowgrid::grid::{Grid, GridError};

const ND: i64 = -32768;

/// 5x5 grid: nodata outer ring, 3x3 valid block, centre strictly lowest.
fn pit_grid() -> Grid {
    let nd = ND;
    let data = vec![
        nd, nd, nd, nd, nd,
        nd, 50, 60, 70, nd,
        nd, 55, 10, 65, nd,
        nd, 75, 58, 68, nd,
        nd, nd, nd, nd, nd,
    ];
    Grid::from_values(5, 5, nd, data)
}

/// rows x cols grid whose elevation drops by 10 with every row.
fn ramp_grid(rows: usize, cols: usize) -> Grid {
    let mut data: Vec<i64> = Vec::new();
    for r in 0..rows {
        for _ in 0..cols {
            data.push(1000 - 10 * r as i64);
        }
    }
    Grid::from_values(rows, cols, ND, data)
}

#[test]
fn pit_centre_is_interior_pit() {
    let dem = pit_grid();
    let (dirs, pit_found) = d8_directions(&dem, 1, 1);
    assert_eq!(dirs.get(2, 2), -1);
    assert!(pit_found);
    // nodata cells carry the pit/nodata code as well
    assert_eq!(dirs.get(0, 0), -1);
    // every valid ring cell routes into the centre
    assert_eq!(dirs.get(1, 1), 2);
    assert_eq!(dirs.get(1, 2), 3);
    assert_eq!(dirs.get(1, 3), 4);
    assert_eq!(dirs.get(2, 1), 1);
    assert_eq!(dirs.get(2, 3), 5);
    assert_eq!(dirs.get(3, 1), 0);
    assert_eq!(dirs.get(3, 2), 7);
    assert_eq!(dirs.get(3, 3), 6);
}

#[test]
fn pit_centre_depth_is_spill_minus_elevation() {
    let dem = pit_grid();
    // lowest neighbour of the centre is 50, so the flood raises 10 to 50
    let depth = depth_in_sink(&dem, true);
    assert_eq!(depth.get(2, 2), 40);
    // the ring cells are not in a sink: zero background
    assert_eq!(depth.get(1, 1), 0);
    assert_eq!(depth.get(3, 3), 0);
    // nodata passes through
    assert_eq!(depth.get(0, 0), ND);
}

#[test]
fn pit_centre_depth_nodata_background() {
    let dem = pit_grid();
    let depth = depth_in_sink(&dem, false);
    assert_eq!(depth.get(2, 2), 40);
    assert_eq!(depth.get(1, 1), ND);
    assert_eq!(depth.get(2, 1), ND);
}

#[test]
fn pit_centre_filled_surface() {
    let dem = pit_grid();
    let filled = fill_depressions(&dem);
    assert_eq!(filled.get(2, 2), 50);
    assert_eq!(filled.get(1, 1), 50);
    assert_eq!(filled.get(1, 2), 60);
    assert_eq!(filled.get(0, 0), ND);
}

#[test]
fn ramp_routes_straight_down() {
    let dem = ramp_grid(4, 3);
    let (dirs, pit_found) = d8_directions(&dem, 1, 1);
    // the bottom row drains off the edge: pits beside nodata, no warning
    assert!(!pit_found);
    for r in 0..3i64 {
        for c in 0..3i64 {
            assert_eq!(dirs.get(r, c), 3);
        }
    }
    for c in 0..3i64 {
        assert_eq!(dirs.get(3, c), -1);
    }
}

#[test]
fn ramp_inflow_counts() {
    let dem = ramp_grid(4, 3);
    let (dirs, _) = d8_directions(&dem, 1, 1);
    let inflow = inflow_counts(&dem, &dirs).unwrap();
    for c in 0..3i64 {
        assert_eq!(inflow.get(0, c), 0);
        assert_eq!(inflow.get(1, c), 1);
        assert_eq!(inflow.get(2, c), 1);
        assert_eq!(inflow.get(3, c), 1);
    }
}

#[test]
fn ramp_accumulation_counts_rows() {
    let dem = ramp_grid(4, 3);
    let (dirs, _) = d8_directions(&dem, 1, 1);
    let acc = accumulate(&dem, &dirs).unwrap();
    for r in 0..4i64 {
        for c in 0..3i64 {
            assert_eq!(acc.get(r, c), r + 1);
        }
    }
}

#[test]
fn accumulation_dominates_upstream_neighbours() {
    // the accumulation law on concrete values: each cell holds at least one
    // unit and at least the sum over the neighbours routing into it
    let dem = pit_grid();
    let (dirs, _) = d8_directions(&dem, 1, 1);
    let acc = accumulate(&dem, &dirs).unwrap();
    // the centre receives all eight ring cells
    assert_eq!(acc.get(2, 2), 9);
    for &(r, c) in &[(1, 1), (1, 2), (1, 3), (2, 1), (2, 3), (3, 1), (3, 2), (3, 3)] {
        assert_eq!(acc.get(r, c), 1);
    }
}

#[test]
fn conversion_modes_agree_exactly() {
    let dem = ramp_grid(4, 3);
    let (sx, sy) = (2i64, 4i64);
    let (cells, dc, _) = flow_accumulation(&dem, sx, sy, OutType::Cells);
    let (ca, dca, _) = flow_accumulation(&dem, sx, sy, OutType::CatchmentArea);
    let (sca, dsca, _) = flow_accumulation(&dem, sx, sy, OutType::SpecificContributingArea);
    assert_eq!(dc, 1);
    assert_eq!(dca, 1);
    assert_eq!(dsca, sx + sy);
    for r in 0..4i64 {
        for c in 0..3i64 {
            // catchment area = cells * (sx * sy), exactly
            assert_eq!(ca.get(r, c), cells.get(r, c) * sx * sy);
            // sca = catchment / ((sx + sy) / 2), exactly, as a rational:
            // numerator 2 * ca over denominator sx + sy
            assert_eq!(sca.get(r, c), 2 * ca.get(r, c));
            assert_eq!(sca.get(r, c) * (sx + sy), ca.get(r, c) * 2 * dsca);
        }
    }
}

#[test]
fn direction_resolution_is_deterministic() {
    let dem = pit_grid();
    let (d1, p1) = d8_directions(&dem, 3, 7);
    let (d2, p2) = d8_directions(&dem, 3, 7);
    assert_eq!(d1.data, d2.data);
    assert_eq!(p1, p2);
}

#[test]
fn dimension_mismatch_is_rejected() {
    let dem = ramp_grid(4, 3);
    let other = ramp_grid(3, 3);
    let (dirs, _) = d8_directions(&other, 1, 1);
    match inflow_counts(&dem, &dirs) {
        Err(e) => assert_eq!(e, GridError::DimensionMismatch),
        Ok(_) => panic!("shape mismatch accepted"),
    }
    assert!(accumulate(&dem, &dirs).is_err());
}

#[test]
fn all_nodata_grid_passes_through() {
    let dem = Grid::from_values(3, 3, ND, vec![ND; 9]);
    let (dirs, pit_found) = d8_directions(&dem, 1, 1);
    assert!(!pit_found);
    for r in 0..3i64 {
        for c in 0..3i64 {
            assert_eq!(dirs.get(r, c), -1);
        }
    }
    let depth = depth_in_sink(&dem, false);
    for r in 0..3i64 {
        for c in 0..3i64 {
            assert_eq!(depth.get(r, c), ND);
        }
    }
    let filled = fill_depressions(&dem);
    assert_eq!(filled.get(1, 1), ND);
}

#[test]
fn single_cell_grid() {
    let dem = Grid::from_values(1, 1, ND, vec![42]);
    let (dirs, pit_found) = d8_directions(&dem, 1, 1);
    assert_eq!(dirs.get(0, 0), -1);
    // its neighbours are the frame, so it is no interior pit
    assert!(!pit_found);
    let depth = depth_in_sink(&dem, true);
    assert_eq!(depth.get(0, 0), 0);
    let acc = flow_accumulation(&dem, 1, 1, OutType::Cells);
    assert_eq!(acc.0.get(0, 0), 1);
}

#[test]
fn empty_grid() {
    let dem = Grid::from_values(0, 0, ND, vec![]);
    let (dirs, pit_found) = d8_directions(&dem, 1, 1);
    assert_eq!(dirs.num_rows(), 0);
    assert!(!pit_found);
    let depth = depth_in_sink(&dem, true);
    assert_eq!(depth.num_cols(), 0);
}

#[test]
fn out_of_bounds_reads_give_nodata() {
    let dem = ramp_grid(2, 2);
    assert_eq!(dem.get(-1, 0), ND);
    assert_eq!(dem.get(0, -1), ND);
    assert_eq!(dem.get(2, 0), ND);
    assert_eq!(dem.get(0, 2), ND);
    assert_eq!(dem.get(1, 1), 990);
}

#[test]
fn tie_break_takes_first_direction_in_scan_order() {
    // two equally steep cardinal descents: east is scanned before south
    let nd = ND;
    let data = vec![
        nd, nd, nd,
        nd, 20, 10,
        nd, 10, 10,
    ];
    let dem = Grid::from_values(3, 3, nd, data);
    let (dirs, _) = d8_directions(&dem, 1, 1);
    // east (code 1) and south (code 3) drop equally; east comes first
    assert_eq!(dirs.get(1, 1), 1);
}

#[test]
fn filled_surface_is_monotone_on_ramp() {
    // a surface without depressions is returned unchanged
    let dem = ramp_grid(4, 3);
    let filled = fill_depressions(&dem);
    for r in 0..4i64 {
        for c in 0..3i64 {
            assert_eq!(filled.get(r, c), dem.get(r, c));
        }
    }
    let depth = depth_in_sink(&dem, true);
    for r in 0..4i64 {
        for c in 0..3i64 {
            assert_eq!(depth.get(r, c), 0);
        }
    }
}

#[test]
fn interior_nodata_hole_is_not_flooded() {
    // a nodata hole inside valid terrain stays nodata and its neighbours
    // drain toward it rather than being filled over it
    let nd = ND;
    let data = vec![
        90, 90, 90, 90, 90,
        90, 80, 80, 80, 90,
        90, 80, nd, 80, 90,
        90, 80, 80, 80, 90,
        90, 90, 90, 90, 90,
    ];
    let dem = Grid::from_values(5, 5, nd, data);
    let filled = fill_depressions(&dem);
    assert_eq!(filled.get(2, 2), nd);
    // the ring at 80 is enclosed by the 90 rim: it floods up to 90
    assert_eq!(filled.get(1, 1), 90);
    assert_eq!(filled.get(1, 2), 90);
    let depth = depth_in_sink(&dem, true);
    assert_eq!(depth.get(1, 2), 10);
    assert_eq!(depth.get(0, 0), 0);
    assert_eq!(depth.get(2, 2), nd);
}

#[test]
fn border_cells_are_never_raised() {
    // a sink pressed against the border still drains over the ring: ring
    // cells keep their elevation, only the interior is raised
    let nd = ND;
    let data = vec![
        30, 30, 30,
        30,  5, 30,
        30, 30, 30,
    ];
    let dem = Grid::from_values(3, 3, nd, data);
    let filled = fill_depressions(&dem);
    for r in 0..3i64 {
        for c in 0..3i64 {
            if r == 1 && c == 1 {
                assert_eq!(filled.get(r, c), 30);
            } else {
                assert_eq!(filled.get(r, c), dem.get(r, c));
            }
        }
    }
    let depth = depth_in_sink(&dem, true);
    assert_eq!(depth.get(1, 1), 25);
    assert_eq!(depth.get(0, 1), 0);
}

#[test]
fn flat_sink_floor_fills_to_the_rim() {
    // a two-cell flat sink floor: both cells rise to the lowest rim value
    let nd = ND;
    let data = vec![
        90, 90, 90, 90,
        90, 10, 10, 40,
        90, 90, 90, 90,
    ];
    let dem = Grid::from_values(3, 4, nd, data);
    let filled = fill_depressions(&dem);
    assert_eq!(filled.get(1, 1), 40);
    assert_eq!(filled.get(1, 2), 40);
    let depth = depth_in_sink(&dem, true);
    assert_eq!(depth.get(1, 1), 30);
    assert_eq!(depth.get(1, 2), 30);
    assert_eq!(depth.get(1, 3), 0);
}

#[test]
fn interior_hole_is_not_an_outlet() {
    // a pit pressed against a sealed nodata hole does not drain into the
    // hole: it fills over its rim toward the border like any other sink
    let nd = ND;
    let data = vec![
        100, 100, 100, 100, 100,
        100,  80,  80,  80, 100,
        100,  10,  nd,  80, 100,
        100,  80,  80,  80, 100,
        100, 100, 100, 100, 100,
    ];
    let dem = Grid::from_values(5, 5, nd, data);
    let filled = fill_depressions(&dem);
    assert_eq!(filled.get(2, 1), 100);
    assert_eq!(filled.get(1, 2), 100);
    assert_eq!(filled.get(2, 2), nd);
    let depth = depth_in_sink(&dem, true);
    assert_eq!(depth.get(2, 1), 90);
    assert_eq!(depth.get(1, 1), 20);
    assert_eq!(depth.get(0, 0), 0);
}
