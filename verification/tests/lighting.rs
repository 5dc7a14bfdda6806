use leds::{alert_scan, AlertCell, AlertKind, CellClass};

fn grid(w: usize, h: usize, marks: &[(usize, usize, AlertKind)]) -> Vec<CellClass> {
    let mut g = vec![CellClass::InRange; w * h];
    for &(x, y, k) in marks {
        g[y * w + x] = CellClass::Alert(k);
    }
    g
}

#[test]
fn scans_every_second_cell() {
    let classes = grid(
        5,
        3,
        &[(0, 0, AlertKind::Underlit), (1, 0, AlertKind::Overlit), (4, 2, AlertKind::Overlit), (2, 1, AlertKind::Underlit)],
    );
    let alerts = alert_scan(&classes, 5, 3, 25);
    assert_eq!(
        alerts,
        vec![
            AlertCell { x: 0, y: 0, kind: AlertKind::Underlit },
            AlertCell { x: 4, y: 2, kind: AlertKind::Overlit },
        ]
    );
}

#[test]
fn stops_at_the_alert_limit() {
    let classes = vec![CellClass::Alert(AlertKind::Underlit); 36];
    let alerts = alert_scan(&classes, 6, 6, 4);
    assert_eq!(alerts.len(), 4);
    assert_eq!((alerts[3].x, alerts[3].y), (0, 2));
    assert_eq!(alert_scan(&classes, 6, 6, 25).len(), 9);
}

#[test]
fn zero_limit_reports_only_the_first_lit_cell() {
    let classes = grid(4, 4, &[(2, 0, AlertKind::Overlit)]);
    assert!(alert_scan(&classes, 4, 4, 0).is_empty());
    let classes = grid(4, 4, &[(0, 0, AlertKind::Overlit), (2, 0, AlertKind::Overlit)]);
    assert_eq!(alert_scan(&classes, 4, 4, 0), vec![AlertCell { x: 0, y: 0, kind: AlertKind::Overlit }]);
    // dark cells are passed over before the limit is tested
    let mut classes = grid(4, 4, &[(2, 0, AlertKind::Underlit), (0, 2, AlertKind::Overlit)]);
    classes[0] = CellClass::Dark;
    assert_eq!(alert_scan(&classes, 4, 4, 0), vec![AlertCell { x: 2, y: 0, kind: AlertKind::Underlit }]);
    let all_dark = vec![CellClass::Dark; 16];
    assert!(alert_scan(&all_dark, 4, 4, 0).is_empty());
}

#[test]
fn dark_cells_raise_no_alert() {
    let mut classes = grid(3, 3, &[(0, 0, AlertKind::Underlit), (2, 2, AlertKind::Overlit)]);
    classes[0] = CellClass::Dark;
    assert_eq!(alert_scan(&classes, 3, 3, 10), vec![AlertCell { x: 2, y: 2, kind: AlertKind::Overlit }]);
}
