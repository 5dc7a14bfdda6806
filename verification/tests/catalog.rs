use leds::{default_catalog_path, module_for_depth, position_by_id, CatalogError, Color};

fn ids(v: &[&str]) -> Vec<String> {
    v.iter().map(|s| s.to_string()).collect()
}

const DOT: &str = "elf.sol-plus-dot.1smd-2835.warm";
const WHITE: &str = "elf.sol-plus.2smd-2835.white";
const COLD: &str = "elf.sol-plus.3smd-2835.cold";

/// Depth rules of the bundled catalog: up to 70 mm the DOT module, up to
/// 130 mm the 2SMD module, deeper the 3SMD module.
fn rules() -> (Vec<f64>, Vec<String>) {
    (vec![70.0, 130.0, f64::MAX], ids(&[DOT, WHITE, COLD]))
}

fn pick(depth: f64) -> Option<String> {
    let modules = ids(&[WHITE, COLD, DOT]);
    let (max, rule_ids) = rules();
    let fits: Vec<bool> = max.iter().map(|&m| depth <= m).collect();
    module_for_depth(&fits, &rule_ids, &modules).map(|i| modules[i].clone())
}

#[test]
fn picks_module_by_depth() {
    assert_eq!(pick(55.0).unwrap(), "elf.sol-plus-dot.1smd-2835.warm");
    assert_eq!(pick(100.0).unwrap(), "elf.sol-plus.2smd-2835.white");
    assert_eq!(pick(150.0).unwrap(), "elf.sol-plus.3smd-2835.cold");
}

#[test]
fn depth_rule_boundaries() {
    assert_eq!(pick(70.0).unwrap(), DOT);
    assert_eq!(pick(70.5).unwrap(), WHITE);
    let modules = ids(&[WHITE]);
    // the rule names a module the catalog lacks
    assert_eq!(module_for_depth(&vec![true], &ids(&[DOT]), &modules), None);
    // no rule fits
    assert_eq!(module_for_depth(&vec![false, false], &ids(&[DOT, WHITE]), &modules), None);
}

#[test]
fn finds_module_by_id() {
    let modules = ids(&["a", "b", "a"]);
    assert_eq!(position_by_id(&modules, "a"), Some(0));
    assert_eq!(position_by_id(&modules, "b"), Some(1));
    assert_eq!(position_by_id(&modules, "c"), None);
}

#[test]
fn catalog_path_falls_back() {
    assert_eq!(default_catalog_path(None), "catalog");
    assert_eq!(default_catalog_path(Some("/opt/leds/catalog".to_string())), "/opt/leds/catalog");
}

#[test]
fn catalog_types() {
    let c = Color { name: "warm".to_string() };
    assert_eq!(c.name, "warm");
    let e = CatalogError::NotFound("x".to_string());
    assert!(matches!(e, CatalogError::NotFound(s) if s == "x"));
}

#[test]
fn lighting_module_falls_back_to_first() {
    let modules = ids(&["a", "b"]);
    assert_eq!(leds::module_index_or_first(&modules, "b"), 1);
    assert_eq!(leds::module_index_or_first(&modules, "zz"), 0);
}
