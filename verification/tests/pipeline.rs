use leds::{require_shape_groups, resolve_module, CatalogError, CoreError, GeometryError, ImportError, PlacementError};

fn ids(v: &[&str]) -> Vec<String> {
    v.iter().map(|s| s.to_string()).collect()
}

fn other(r: Result<usize, CoreError>) -> String {
    match r {
        Err(CoreError::Other(m)) => m,
        other => panic!("unexpected {:?}", other),
    }
}

#[test]
fn resolves_requested_module() {
    let modules = ids(&["a", "b"]);
    assert_eq!(resolve_module(&Some("b".to_string()), &modules, &vec![], &vec![]).unwrap(), 1);
    assert_eq!(other(resolve_module(&Some("z".to_string()), &modules, &vec![true], &ids(&["a"]))), "module not found: z");
}

#[test]
fn resolves_module_by_depth() {
    let modules = ids(&["a", "b"]);
    assert_eq!(resolve_module(&None, &modules, &vec![false, true], &ids(&["a", "b"])).unwrap(), 1);
    assert_eq!(other(resolve_module(&None, &modules, &vec![false], &ids(&["a"]))), "no module for depth");
}

#[test]
fn empty_topology_is_an_error() {
    assert!(require_shape_groups(2).is_ok());
    match require_shape_groups(0) {
        Err(CoreError::Other(m)) => assert_eq!(m, "no shape groups after topology"),
        other => panic!("unexpected {:?}", other),
    }
}

#[test]
fn errors_convert_into_core_errors() {
    let e: CoreError = GeometryError::InvalidRing("r".to_string()).into();
    assert!(matches!(e, CoreError::Geometry(GeometryError::InvalidRing(_))));
    let e: CoreError = PlacementError::NoSafeZone.into();
    assert!(matches!(e, CoreError::Placement(PlacementError::NoSafeZone)));
    let e: CoreError = ImportError::Svg("bad".to_string()).into();
    assert!(matches!(e, CoreError::Import(ImportError::Svg(_))));
    let e: CoreError = CatalogError::NotFound("m".to_string()).into();
    assert!(matches!(e, CoreError::Catalog(CatalogError::NotFound(_))));
}
