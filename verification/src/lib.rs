//! Verified core of the LED sign design system: grid logic of the distance
//! field, contour topology, placement bookkeeping, alert scanning, power chain
//! splitting, catalog selection and import dispatch.
//!
//! Coordinates, areas, distances and illuminance are floating-point values in
//! the application; they reach this library as the decisions made on them
//! (masks, closeness relations) or as order keys, integers ordered as the
//! values are.

pub mod catalog;
pub mod electrical;
pub mod foreign;
pub mod geometry;
pub mod import;
pub mod lighting;
pub mod pipeline;
pub mod placement;
pub mod text;
pub mod topology;

pub use catalog::{default_catalog_path, module_for_depth, module_index_or_first, position_by_id, CatalogError, Color};
pub use electrical::{chain_ranges, cost_currency, ChainRange};
pub use geometry::{
    indices_of_set, is_boundary, local_maxima_cells, sample_index, select_safe_points,
    zero_distance_cells, GeometryError,
};
pub use import::{default_layers, format_for_extension, import_format, import_format_for_extension, ImportError, ImportFormat, ImportedLayer};
pub use lighting::{alert_scan, AlertCell, AlertKind, CellClass};
pub use pipeline::{require_shape_groups, resolve_module, CoreError};
pub use placement::{
    best_gap_cell, merge_placements, order_by_id, prune_overcrowding, runs_automatic, MergedEntry,
    Origin, PlacementError, PlacementMode,
};
pub use text::{str_equal, str_less};
pub use topology::{group_rings, point_in_shape, topology_order, RingGroup, RingKind};
