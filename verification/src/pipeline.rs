//! Decisions of the design pipeline: which module a project uses, and the
//! errors the pipeline reports.
use vstd::prelude::*;
use crate::catalog::{CatalogError, position_by_id, module_for_depth, spec_module_for_depth, first_index_with};
use crate::geometry::GeometryError;
use crate::import::ImportError;
use crate::placement::PlacementError;

verus! {

/// Errors of the design pipeline.
#[derive(Debug)]
pub enum CoreError {
    Catalog(CatalogError),
    Import(ImportError),
    Placement(PlacementError),
    Geometry(GeometryError),
    Other(String),
}

impl From<CatalogError> for CoreError {
    fn from(e: CatalogError) -> (res: Self) {
        CoreError::Catalog(e)
    }
}

impl vstd::std_specs::convert::FromSpecImpl<CatalogError> for CoreError {
    open spec fn obeys_from_spec() -> bool {
        true
    }

    open spec fn from_spec(v: CatalogError) -> Self {
        CoreError::Catalog(v)
    }
}

impl From<ImportError> for CoreError {
    fn from(e: ImportError) -> (res: Self) {
        CoreError::Import(e)
    }
}

impl vstd::std_specs::convert::FromSpecImpl<ImportError> for CoreError {
    open spec fn obeys_from_spec() -> bool {
        true
    }

    open spec fn from_spec(v: ImportError) -> Self {
        CoreError::Import(v)
    }
}

impl From<PlacementError> for CoreError {
    fn from(e: PlacementError) -> (res: Self) {
        CoreError::Placement(e)
    }
}

impl vstd::std_specs::convert::FromSpecImpl<PlacementError> for CoreError {
    open spec fn obeys_from_spec() -> bool {
        true
    }

    open spec fn from_spec(v: PlacementError) -> Self {
        CoreError::Placement(v)
    }
}

impl From<GeometryError> for CoreError {
    fn from(e: GeometryError) -> (res: Self) {
        CoreError::Geometry(e)
    }
}

impl vstd::std_specs::convert::FromSpecImpl<GeometryError> for CoreError {
    open spec fn obeys_from_spec() -> bool {
        true
    }

    open spec fn from_spec(v: GeometryError) -> Self {
        CoreError::Geometry(v)
    }
}

/// Chooses the module of a project. A requested identifier must name a
/// catalog module; without one, the module comes from the catalog's depth
/// rules (`fits[i]` says that the sign depth is at most rule `i`'s maximum).
/// Returns the index of the module in `module_ids`.
pub fn resolve_module(
    requested: &Option<String>,
    module_ids: &Vec<String>,
    fits: &Vec<bool>,
    rule_ids: &Vec<String>,
) -> (res: Result<usize, CoreError>)
    requires
        fits.len() == rule_ids.len(),
    ensures
        requested matches Some(id) ==> match first_index_with(module_ids@, id@, module_ids.len() as int) {
            Some(i) => res == Ok::<usize, CoreError>(i),
            None => res matches Err(CoreError::Other(m)) && m@ == "module not found: "@ + id@,
        },
        requested is None ==> match spec_module_for_depth(fits@, rule_ids@, module_ids@) {
            Some(i) => res == Ok::<usize, CoreError>(i),
            None => res matches Err(CoreError::Other(m)) && m@ == "no module for depth"@,
        },
{
    match requested {
        Some(id) => match position_by_id(module_ids, id.as_str()) {
            Some(i) => Ok(i),
            None => Err(CoreError::Other(String::from_str("module not found: ").concat(id.as_str()))),
        },
        None => match module_for_depth(fits, rule_ids, module_ids) {
            Some(i) => Ok(i),
            None => Err(CoreError::Other(String::from_str("no module for depth"))),
        },
    }
}

/// The pipeline needs at least one shape group after topology.
pub fn require_shape_groups(group_count: usize) -> (res: Result<(), CoreError>)
    ensures
        group_count > 0 ==> res == Ok::<(), CoreError>(()),
        group_count == 0 ==> (res matches Err(CoreError::Other(m)) && m@
            == "no shape groups after topology"@),
{
    if group_count == 0 {
        Err(CoreError::Other(String::from_str("no shape groups after topology")))
    } else {
        Ok(())
    }
}

} // verus!
