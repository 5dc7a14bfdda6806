use leds::{
    indices_of_set, is_boundary, local_maxima_cells, sample_index, select_safe_points, zero_distance_cells,
    GeometryError,
};

fn mask(rows: &[&str]) -> Vec<bool> {
    rows.iter().flat_map(|r| r.chars().map(|c| c == '#')).collect()
}

#[test]
fn boundary_cells_of_a_block() {
    let inside = mask(&["....", ".##.", ".##.", "...."]);
    assert!(!is_boundary(0, 4, 4, &inside));
    assert!(is_boundary(5, 4, 4, &inside));
    let full = mask(&["###", "###", "###"]);
    assert!(!is_boundary(4, 3, 3, &full));
    assert!(is_boundary(0, 3, 3, &full));
    assert!(is_boundary(5, 3, 3, &full));
}

#[test]
fn zero_distance_cells_mark_outside_and_boundary() {
    let inside = mask(&["#####", "#####", "#####", "#####"]);
    let zero = zero_distance_cells(&inside, 5, 4);
    let expect = mask(&["#####", "#...#", "#...#", "#####"]);
    assert_eq!(zero, expect);
    let ring = mask(&[".....", ".###.", ".###.", ".###.", "....."]);
    let zero = zero_distance_cells(&ring, 5, 5);
    assert_eq!(zero, mask(&["#####", "#####", "##.##", "#####", "#####"]));
}

#[test]
fn sample_index_inside_and_outside() {
    assert_eq!(sample_index(1, 2, 5, 4), Some(11));
    assert_eq!(sample_index(-1, 0, 5, 4), None);
    assert_eq!(sample_index(4, 0, 5, 4), None);
    assert_eq!(sample_index(3, 3, 5, 4), None);
    assert_eq!(sample_index(0, 0, 0, 0), None);
}

#[test]
fn local_maxima_of_a_peak() {
    let keys = vec![
        0, 0, 0, 0, 0,
        0, 1, 2, 1, 0,
        0, 2, 5, 2, 0,
        0, 1, 2, 1, 0,
        0, 0, 0, 0, 0,
    ];
    assert_eq!(local_maxima_cells(&keys, 5, 5, 3), vec![(2, 2)]);
    assert_eq!(local_maxima_cells(&keys, 5, 5, 6), Vec::<(usize, usize)>::new());
    // a plateau: every cell of equal height is a maximum
    let flat = vec![4; 16];
    assert_eq!(local_maxima_cells(&flat, 4, 4, 0), vec![(1, 1), (2, 1), (1, 2), (2, 2)]);
    assert!(local_maxima_cells(&vec![], 0, 0, 0).is_empty());
}

#[test]
fn safe_points_primary_fallback_and_collapse() {
    assert!(matches!(select_safe_points(2, &vec![], &vec![]), Err(GeometryError::EmptyContour)));
    let r = select_safe_points(4, &vec![true, true, false, true], &vec![false; 4]).unwrap();
    assert_eq!(r, vec![0, 1, 3]);
    let r = select_safe_points(4, &vec![true, false, false, true], &vec![true, true, true, false]).unwrap();
    assert_eq!(r, vec![0, 1, 2]);
    match select_safe_points(4, &vec![true, false, false, false], &vec![false, true, false, true]) {
        Err(GeometryError::OffsetCollapsed(m)) => assert_eq!(m, "safe zone empty after holes"),
        other => panic!("unexpected {:?}", other),
    }
    assert_eq!(indices_of_set(&vec![false, true, true]), vec![1, 2]);
}
