//! Grid-based terrain hydrology: D8 single-flow-direction routing, topological
//! flow accumulation, and priority-flood depression filling over digital
//! elevation models.
//!
//! Elevations are held as plain signed integers (a fixed-point encoding chosen
//! by the caller), with a reserved nodata sentinel marking cells outside the
//! valid-data mask. All routing decisions are exact integer comparisons, so
//! results are reproducible bit for bit.

pub mod accumulate;
pub mod direction;
pub mod fill;
pub mod grid;
pub mod tools;
