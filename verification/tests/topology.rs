use geo::{Contains, LineString, Point, Polygon};
use leds::{group_rings, point_in_shape, topology_order};

fn rect(x: f64, y: f64, w: f64, h: f64) -> Vec<(f64, f64)> {
    vec![(x, y), (x + w, y), (x + w, y + h), (x, y + h)]
}

fn area(points: &[(f64, f64)]) -> f64 {
    let n = points.len();
    let mut a = 0.0;
    for i in 0..n {
        let j = (i + 1) % n;
        a += points[i].0 * points[j].1 - points[j].0 * points[i].1;
    }
    (a * 0.5).abs()
}

fn area_key(a: f64) -> i64 {
    if a == 0.0 {
        0
    } else {
        a.to_bits() as i64
    }
}

fn polygon(points: &[(f64, f64)]) -> Polygon<f64> {
    Polygon::new(LineString::from(points.to_vec()), vec![])
}

fn containment(rings: &[Vec<(f64, f64)>]) -> Vec<Vec<bool>> {
    rings
        .iter()
        .map(|a| {
            rings
                .iter()
                .map(|b| {
                    a.len() >= 3 && b.len() >= 3 && polygon(a).contains(&Point::new(b[0].0, b[0].1))
                })
                .collect()
        })
        .collect()
}

#[test]
fn detects_hole_inside_outer() {
    let rings = vec![rect(0.0, 0.0, 200.0, 200.0), rect(60.0, 60.0, 80.0, 80.0)];
    let keys: Vec<i64> = rings.iter().map(|r| area_key(area(r))).collect();
    let counts: Vec<usize> = rings.iter().map(|r| r.len()).collect();
    let order = topology_order(&keys);
    let groups = group_rings(&order, &counts, &containment(&rings));
    assert_eq!(groups.len(), 1);
    assert_eq!(groups[0].holes.len(), 1);
    let outer = polygon(&rings[groups[0].outer]);
    let hole_counts: Vec<usize> = groups[0].holes.iter().map(|&h| rings[h].len()).collect();
    let test = |x: f64, y: f64| {
        let pt = Point::new(x, y);
        let in_holes: Vec<bool> = groups[0].holes.iter().map(|&h| polygon(&rings[h]).contains(&pt)).collect();
        point_in_shape(rings[groups[0].outer].len(), outer.contains(&pt), &hole_counts, &in_holes)
    };
    assert!(!test(100.0, 100.0));
    assert!(test(20.0, 20.0));
}

#[test]
fn orders_rings_by_decreasing_area_stably() {
    assert_eq!(topology_order(&vec![5, 9, 5, 1, 9]), vec![1, 4, 0, 2, 3]);
    assert_eq!(topology_order(&vec![]), Vec::<usize>::new());
}

#[test]
fn smaller_ring_given_first_still_becomes_hole() {
    // the hole is listed before its outer ring
    let rings = vec![rect(60.0, 60.0, 80.0, 80.0), rect(0.0, 0.0, 200.0, 200.0)];
    let keys: Vec<i64> = rings.iter().map(|r| area_key(area(r))).collect();
    let counts: Vec<usize> = rings.iter().map(|r| r.len()).collect();
    let order = topology_order(&keys);
    assert_eq!(order, vec![1, 0]);
    let groups = group_rings(&order, &counts, &containment(&rings));
    assert_eq!(groups.len(), 1);
    assert_eq!(groups[0].outer, 1);
    assert_eq!(groups[0].holes, vec![0]);
}

#[test]
fn separate_shapes_and_degenerate_rings() {
    // two disjoint squares, a degenerate two-point ring, and an island in a hole
    let rings = vec![
        rect(0.0, 0.0, 100.0, 100.0),
        rect(300.0, 0.0, 50.0, 50.0),
        vec![(10.0, 10.0), (20.0, 20.0)],
        rect(10.0, 10.0, 50.0, 50.0),
        rect(20.0, 20.0, 10.0, 10.0),
    ];
    let keys: Vec<i64> = rings.iter().map(|r| if r.len() >= 3 { area_key(area(r)) } else { 0 }).collect();
    let counts: Vec<usize> = rings.iter().map(|r| r.len()).collect();
    let order = topology_order(&keys);
    assert_eq!(order, vec![0, 1, 3, 4, 2]);
    let groups = group_rings(&order, &counts, &containment(&rings));
    assert_eq!(groups.len(), 3);
    assert_eq!(groups[0].outer, 0);
    assert!(!groups[0].island);
    assert_eq!(groups[0].holes, vec![3]);
    assert_eq!(groups[1].outer, 1);
    assert!(!groups[1].island);
    assert!(groups[1].holes.is_empty());
    // the small square lies in the hole, so it is an island of its own
    assert_eq!(groups[2].outer, 4);
    assert!(groups[2].island);
    assert!(groups[2].holes.is_empty());
}

#[test]
fn nested_rings_alternate_between_shape_and_hole() {
    let rings = vec![
        rect(0.0, 0.0, 300.0, 300.0),
        rect(50.0, 50.0, 200.0, 200.0),
        rect(100.0, 100.0, 100.0, 100.0),
    ];
    let keys: Vec<i64> = rings.iter().map(|r| area_key(area(r))).collect();
    let counts: Vec<usize> = rings.iter().map(|r| r.len()).collect();
    let order = topology_order(&keys);
    let groups = group_rings(&order, &counts, &containment(&rings));
    assert_eq!(groups.len(), 2);
    assert_eq!(groups[0].outer, 0);
    assert!(!groups[0].island);
    assert_eq!(groups[0].holes, vec![1]);
    assert_eq!(groups[1].outer, 2);
    assert!(groups[1].island);
    assert!(groups[1].holes.is_empty());
}

#[test]
fn hole_inside_an_island_belongs_to_the_island() {
    let rings = vec![
        rect(150.0, 150.0, 20.0, 20.0),
        rect(0.0, 0.0, 300.0, 300.0),
        rect(100.0, 100.0, 100.0, 100.0),
        rect(50.0, 50.0, 200.0, 200.0),
    ];
    let keys: Vec<i64> = rings.iter().map(|r| area_key(area(r))).collect();
    let counts: Vec<usize> = rings.iter().map(|r| r.len()).collect();
    let order = topology_order(&keys);
    assert_eq!(order, vec![1, 3, 2, 0]);
    let groups = group_rings(&order, &counts, &containment(&rings));
    assert_eq!(groups.len(), 2);
    assert_eq!(groups[0].outer, 1);
    assert_eq!(groups[0].holes, vec![3]);
    assert_eq!(groups[1].outer, 2);
    assert!(groups[1].island);
    assert_eq!(groups[1].holes, vec![0]);
}

#[test]
fn point_in_shape_needs_polygon_outer() {
    assert!(!point_in_shape(2, true, &vec![], &vec![]));
    assert!(point_in_shape(4, true, &vec![2], &vec![true]));
    assert!(!point_in_shape(4, true, &vec![4, 3], &vec![false, true]));
    assert!(!point_in_shape(4, false, &vec![], &vec![]));
}
