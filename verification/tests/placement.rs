use leds::{
    best_gap_cell, merge_placements, order_by_id, prune_overcrowding, runs_automatic, MergedEntry, Origin,
    PlacementError, PlacementMode, GeometryError,
};

fn ids(v: &[&str]) -> Vec<String> {
    v.iter().map(|s| s.to_string()).collect()
}

#[test]
fn orders_by_identifier_stably() {
    assert_eq!(order_by_id(&ids(&["b", "a", "ab", "a", ""])), vec![4, 1, 3, 2, 0]);
}

#[test]
fn prune_keeps_fixed_and_drops_close_modules() {
    // modules 0..3; 1 is close to 0, 2 is close to 1, 3 is fixed and close to 0
    let ids = ids(&["m0", "m1", "m2", "m3"]);
    let fixed = vec![false, false, false, true];
    let mut close = vec![vec![false; 4]; 4];
    for (a, b) in [(0, 1), (1, 2), (0, 3)] {
        close[a][b] = true;
        close[b][a] = true;
    }
    // m1 is dropped (close to m0), so m2 survives; m3 is fixed
    assert_eq!(prune_overcrowding(&ids, &fixed, &close), vec![0, 2, 3]);
}

#[test]
fn prune_follows_identifier_order() {
    let ids = ids(&["z", "a"]);
    let close = vec![vec![false, true], vec![true, false]];
    // "a" comes first and is kept; "z" is close to it
    assert_eq!(prune_overcrowding(&ids, &vec![false, false], &close), vec![1]);
}

#[test]
fn best_gap_prefers_first_greatest() {
    assert_eq!(best_gap_cell(&vec![true, true, false, true], &vec![3, 7, 9, 7]), Some(1));
    assert_eq!(best_gap_cell(&vec![false, false], &vec![1, 2]), None);
}

#[test]
fn automatic_modes() {
    assert!(runs_automatic(PlacementMode::Auto));
    assert!(runs_automatic(PlacementMode::SemiAuto));
    assert!(!runs_automatic(PlacementMode::Expert));
}

#[test]
fn merge_pins_existing_and_appends_missing() {
    let generated = ids(&["g0", "g1"]);
    let existing = ids(&["g1", "u1", "u2", "u1"]);
    let fixed = vec![true, true, false, true];
    let merged = merge_placements(PlacementMode::SemiAuto, &generated, &existing, &fixed);
    assert_eq!(
        merged,
        vec![
            MergedEntry { origin: Origin::Generated(0), pinned_by: None },
            MergedEntry { origin: Origin::Generated(1), pinned_by: Some(0) },
            MergedEntry { origin: Origin::Existing(1), pinned_by: Some(3) },
        ]
    );
}

#[test]
fn merge_in_expert_mode_starts_from_existing() {
    let existing = ids(&["a", "b"]);
    let merged = merge_placements(PlacementMode::Expert, &ids(&["x"]), &existing, &vec![false, true]);
    assert_eq!(
        merged,
        vec![
            MergedEntry { origin: Origin::Existing(0), pinned_by: None },
            MergedEntry { origin: Origin::Existing(1), pinned_by: Some(1) },
        ]
    );
}

#[test]
fn placement_error_from_geometry() {
    let e: PlacementError = GeometryError::EmptyContour.into();
    assert!(matches!(e, PlacementError::Geometry(GeometryError::EmptyContour)));
}

#[test]
fn fixed_modules_survive_merge_and_prune() {
    // generated modules g0, g1; the user fixed u1 right next to g0
    let generated = ids(&["g0", "g1"]);
    let existing = ids(&["u1"]);
    let merged = merge_placements(PlacementMode::SemiAuto, &generated, &existing, &vec![true]);
    let entry_ids: Vec<String> = merged
        .iter()
        .map(|m| match m.origin {
            Origin::Generated(k) => generated[k].clone(),
            Origin::Existing(e) => existing[e].clone(),
        })
        .collect();
    let flags: Vec<bool> = merged.iter().map(|m| m.pinned_by.is_some()).collect();
    assert_eq!(entry_ids, ids(&["g0", "g1", "u1"]));
    // everything is close to everything
    let close = vec![vec![true; 3]; 3];
    let kept = prune_overcrowding(&entry_ids, &flags, &close);
    assert_eq!(kept, vec![0, 2]);
    assert_eq!(entry_ids[kept[1]], "u1");
}
