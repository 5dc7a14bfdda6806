//! Alert scanning over the simulated illuminance grid.
//!
//! Each grid cell has been classified as dark, lit within the accepted band,
//! or underlit or overlit (by its ratio to the mean illuminance); the scan
//! reports alerts at every second row and column, row by row, passes over
//! dark cells, and stops at the first lit cell at which the alert limit is
//! reached.
use vstd::prelude::*;

verus! {

/// Kind of a lighting alert.
#[derive(Clone, Copy, PartialEq, Eq, Debug)]
pub enum AlertKind {
    /// Illuminance below the lower ratio of the mean.
    Underlit,
    /// Illuminance above the upper ratio of the mean.
    Overlit,
}

/// Light class of a grid cell.
#[derive(Clone, Copy, PartialEq, Eq, Debug)]
pub enum CellClass {
    /// No light reaches the cell; the scan passes over it.
    Dark,
    /// Lit within the accepted band around the mean.
    InRange,
    /// Lit outside the band.
    Alert(AlertKind),
}

/// An alert at grid cell `(x, y)`.
#[derive(Clone, Copy, PartialEq, Eq, Debug)]
pub struct AlertCell {
    pub x: usize,
    pub y: usize,
    pub kind: AlertKind,
}

/// The alert reported at cell `(x, y)`, if the scan visits the cell (even
/// column and even row) and the cell is lit outside the band.
pub open spec fn alert_at(classes: Seq<CellClass>, w: int, x: int, y: int) -> Seq<AlertCell> {
    if x % 2 == 0 && y % 2 == 0 {
        match classes[y * w + x] {
            CellClass::Alert(k) => seq![AlertCell { x: x as usize, y: y as usize, kind: k }],
            _ => seq![],
        }
    } else {
        seq![]
    }
}

/// Alerts of row `y` in the columns before `xe`, left to right.
pub open spec fn row_alerts(classes: Seq<CellClass>, w: int, y: int, xe: int) -> Seq<AlertCell>
    decreases xe,
{
    if xe <= 0 {
        seq![]
    } else {
        row_alerts(classes, w, y, xe - 1) + alert_at(classes, w, xe - 1, y)
    }
}

/// Alerts of the rows before `ye`, in scan order.
pub open spec fn grid_alerts(classes: Seq<CellClass>, w: int, ye: int) -> Seq<AlertCell>
    decreases ye,
{
    if ye <= 0 {
        seq![]
    } else {
        grid_alerts(classes, w, ye - 1) + row_alerts(classes, w, ye - 1, w)
    }
}

/// `a` is a prefix of `b`.
pub open spec fn is_prefix<A>(a: Seq<A>, b: Seq<A>) -> bool {
    a.len() <= b.len() && a =~= b.subrange(0, a.len() as int)
}

proof fn lemma_prefix_trans<A>(a: Seq<A>, b: Seq<A>, c: Seq<A>)
    requires
        is_prefix(a, b),
        is_prefix(b, c),
    ensures
        is_prefix(a, c),
{
    assert forall|i: int| 0 <= i < a.len() implies a[i] == c[i] by {
        assert(a[i] == b[i]);
        assert(b[i] == c[i]);
    }
}

proof fn lemma_prefix_append<A>(a: Seq<A>, b: Seq<A>)
    ensures
        is_prefix(a, a + b),
{
    assert(a =~= (a + b).subrange(0, a.len() as int));
}

proof fn lemma_prefix_extend<A>(p: Seq<A>, a: Seq<A>, b: Seq<A>)
    requires
        is_prefix(a, b),
    ensures
        is_prefix(p + a, p + b),
{
    assert((p + a) =~= (p + b).subrange(0, (p + a).len() as int));
}

proof fn lemma_row_prefix(classes: Seq<CellClass>, w: int, y: int, a: int, b: int)
    requires
        a <= b,
    ensures
        is_prefix(row_alerts(classes, w, y, a), row_alerts(classes, w, y, b)),
    decreases b - a,
{
    if a == b {
        assert(row_alerts(classes, w, y, a) =~= row_alerts(classes, w, y, b).subrange(
            0,
            row_alerts(classes, w, y, a).len() as int,
        ));
    } else {
        lemma_row_prefix(classes, w, y, a, b - 1);
        if b > 0 {
            lemma_prefix_append(row_alerts(classes, w, y, b - 1), alert_at(classes, w, b - 1, y));
            lemma_prefix_trans(
                row_alerts(classes, w, y, a),
                row_alerts(classes, w, y, b - 1),
                row_alerts(classes, w, y, b),
            );
        }
    }
}

proof fn lemma_grid_prefix(classes: Seq<CellClass>, w: int, a: int, b: int)
    requires
        a <= b,
    ensures
        is_prefix(grid_alerts(classes, w, a), grid_alerts(classes, w, b)),
    decreases b - a,
{
    if a == b {
        assert(grid_alerts(classes, w, a) =~= grid_alerts(classes, w, b).subrange(
            0,
            grid_alerts(classes, w, a).len() as int,
        ));
    } else {
        lemma_grid_prefix(classes, w, a, b - 1);
        if b > 0 {
            lemma_prefix_append(grid_alerts(classes, w, b - 1), row_alerts(classes, w, b - 1, w));
            lemma_prefix_trans(
                grid_alerts(classes, w, a),
                grid_alerts(classes, w, b - 1),
                grid_alerts(classes, w, b),
            );
        }
    }
}

proof fn lemma_odd_row_empty(classes: Seq<CellClass>, w: int, y: int, xe: int)
    requires
        y % 2 == 1,
    ensures
        row_alerts(classes, w, y, xe) =~= seq![],
    decreases xe,
{
    if xe > 0 {
        lemma_odd_row_empty(classes, w, y, xe - 1);
    }
}

/// An alert names a cell of the `w` by `h` grid that the scan visits and that
/// is classified with the alert's kind.
pub open spec fn alert_valid(classes: Seq<CellClass>, w: int, h: int, c: AlertCell) -> bool {
    &&& c.x < w
    &&& c.y < h
    &&& c.x % 2 == 0
    &&& c.y % 2 == 0
    &&& classes[c.y * w + c.x] == CellClass::Alert(c.kind)
}

/// The scan visits cell `(x, y)` and finds it lit.
pub open spec fn lit(classes: Seq<CellClass>, w: int, x: int, y: int) -> bool {
    x % 2 == 0 && y % 2 == 0 && classes[y * w + x] != CellClass::Dark
}

/// `(x, y)` is the first lit cell of the `w` by `h` grid in scan order.
pub open spec fn first_lit(classes: Seq<CellClass>, w: int, h: int, x: int, y: int) -> bool {
    &&& 0 <= x < w
    &&& 0 <= y < h
    &&& lit(classes, w, x, y)
    &&& forall|x2: int, y2: int|
        0 <= x2 < w && 0 <= y2 < h && (y2 < y || (y2 == y && x2 < x)) ==> !#[trigger] lit(classes, w, x2, y2)
}

proof fn lemma_row_alerts_valid(classes: Seq<CellClass>, w: int, h: int, y: int, xe: int)
    requires
        0 <= y < h,
        xe <= w,
        w <= usize::MAX,
        h <= usize::MAX,
    ensures
        forall|i: int|
            0 <= i < row_alerts(classes, w, y, xe).len() ==> alert_valid(classes, w, h, #[trigger] row_alerts(classes, w, y, xe)[i]),
    decreases xe,
{
    if xe > 0 {
        lemma_row_alerts_valid(classes, w, h, y, xe - 1);
        let prev = row_alerts(classes, w, y, xe - 1);
        let cur = row_alerts(classes, w, y, xe);
        assert forall|i: int| 0 <= i < cur.len() implies alert_valid(classes, w, h, #[trigger] cur[i]) by {
            if i >= prev.len() {
                assert(cur[i] == alert_at(classes, w, xe - 1, y)[i - prev.len()]);
            } else {
                assert(cur[i] == prev[i]);
            }
        }
    }
}

proof fn lemma_grid_alerts_valid(classes: Seq<CellClass>, w: int, h: int, ye: int)
    requires
        ye <= h,
        0 <= w <= usize::MAX,
        h <= usize::MAX,
    ensures
        forall|i: int|
            0 <= i < grid_alerts(classes, w, ye).len() ==> alert_valid(classes, w, h, #[trigger] grid_alerts(classes, w, ye)[i]),
    decreases ye,
{
    if ye > 0 {
        lemma_grid_alerts_valid(classes, w, h, ye - 1);
        lemma_row_alerts_valid(classes, w, h, ye - 1, w);
        let prev = grid_alerts(classes, w, ye - 1);
        let row = row_alerts(classes, w, ye - 1, w);
        let cur = grid_alerts(classes, w, ye);
        assert forall|i: int| 0 <= i < cur.len() implies alert_valid(classes, w, h, #[trigger] cur[i]) by {
            if i >= prev.len() {
                assert(cur[i] == row[i - prev.len()]);
            } else {
                assert(cur[i] == prev[i]);
            }
        }
    }
}

/// Scans a `w` by `h` grid of cell classes for alerts: every second row and
/// every second column, starting at the top left, row by row. Dark cells are
/// passed over; after every other visited cell the scan stops if the number
/// of alerts has reached `max_alerts`. With a limit of zero it thus reports
/// the alert of the first lit cell, if that cell has one.
pub fn alert_scan(classes: &Vec<CellClass>, w: usize, h: usize, max_alerts: usize) -> (alerts:
    Vec<AlertCell>)
    requires
        w * h <= classes.len(),
    ensures
        max_alerts > 0 ==> alerts@ == grid_alerts(classes@, w as int, h as int).take(
            if max_alerts < grid_alerts(classes@, w as int, h as int).len() {
                max_alerts as int
            } else {
                grid_alerts(classes@, w as int, h as int).len() as int
            },
        ),
        max_alerts == 0 ==> ((exists|x: int, y: int|
            first_lit(classes@, w as int, h as int, x, y) && alerts@ == alert_at(classes@, w as int, x, y))
            || ((forall|x: int, y: int| 0 <= x < w && 0 <= y < h ==> !#[trigger] lit(classes@, w as int, x, y))
            && alerts@ == Seq::<AlertCell>::empty())),
        max_alerts > 0 ==> alerts.len() <= max_alerts,
        forall|a: int| 0 <= a < alerts.len() ==> alert_valid(classes@, w as int, h as int, #[trigger] alerts[a]),
{
    proof {
        lemma_grid_alerts_valid(classes@, w as int, h as int, h as int);
    }
    let ghost all = grid_alerts(classes@, w as int, h as int);
    let mut alerts: Vec<AlertCell> = Vec::new();
    let rows = h / 2 + h % 2;
    let cols = w / 2 + w % 2;
    let mut r: usize = 0;
    while r < rows
        invariant
            w * h <= classes.len(),
            all == grid_alerts(classes@, w as int, h as int),
            rows == h / 2 + h % 2,
            cols == w / 2 + w % 2,
            r <= rows,
            alerts@ == grid_alerts(classes@, w as int, 2 * r),
            max_alerts > 0 ==> alerts.len() < max_alerts,
            max_alerts == 0 ==> alerts.len() == 0 && forall|x2: int, y2: int|
                0 <= x2 < w && 0 <= y2 < h && y2 < 2 * r ==> !#[trigger] lit(classes@, w as int, x2, y2),
        decreases rows - r,
    {
        let y = 2 * r;
        let ghost row_start = alerts@;
        let mut c: usize = 0;
        while c < cols
            invariant
                w * h <= classes.len(),
                all == grid_alerts(classes@, w as int, h as int),
                rows == h / 2 + h % 2,
                cols == w / 2 + w % 2,
                r < rows,
                y == 2 * r,
                c <= cols,
                row_start == grid_alerts(classes@, w as int, y as int),
                alerts@ == row_start + row_alerts(classes@, w as int, y as int, 2 * c),
                max_alerts > 0 ==> alerts.len() < max_alerts,
                max_alerts == 0 ==> alerts.len() == 0 && forall|x2: int, y2: int|
                    0 <= x2 < w && 0 <= y2 < h && (y2 < y || (y2 == y && x2 < 2 * c)) ==> !#[trigger] lit(
                        classes@,
                        w as int,
                        x2,
                        y2,
                    ),
            decreases cols - c,
        {
            let x = 2 * c;
            proof {
                assert(y < h && x < w);
                vstd::arithmetic::mul::lemma_mul_inequality((y + 1) as int, h as int, w as int);
                vstd::arithmetic::mul::lemma_mul_is_distributive_add_other_way(w as int, y as int, 1);
                vstd::arithmetic::mul::lemma_mul_is_commutative(w as int, h as int);
                vstd::arithmetic::mul::lemma_mul_is_commutative(w as int, y as int);
            }
            let cell = y * w + x;
            let class = classes[cell];
            let is_lit = match class {
                CellClass::Dark => false,
                _ => true,
            };
            match class {
                CellClass::Alert(k) => {
                    alerts.push(AlertCell { x, y, kind: k });
                },
                _ => {},
            }
            proof {
                assert(row_alerts(classes@, w as int, y as int, x + 1) == row_alerts(
                    classes@,
                    w as int,
                    y as int,
                    x as int,
                ) + alert_at(classes@, w as int, x as int, y as int));
                assert(alerts@ =~= row_start + row_alerts(classes@, w as int, y as int, x + 1));
                assert(row_alerts(classes@, w as int, y as int, x + 2) =~= row_alerts(
                    classes@,
                    w as int,
                    y as int,
                    x + 1,
                ));
            }
            if is_lit && alerts.len() >= max_alerts {
                proof {
                    if max_alerts == 0 {
                        assert(alerts@ =~= alert_at(classes@, w as int, x as int, y as int));
                        assert(first_lit(classes@, w as int, h as int, x as int, y as int));
                    } else {
                        lemma_row_prefix(classes@, w as int, y as int, x + 1, w as int);
                        lemma_prefix_extend(
                            row_start,
                            row_alerts(classes@, w as int, y as int, x + 1),
                            row_alerts(classes@, w as int, y as int, w as int),
                        );
                        assert(grid_alerts(classes@, w as int, y + 1) == row_start + row_alerts(
                            classes@,
                            w as int,
                            y as int,
                            w as int,
                        ));
                        lemma_grid_prefix(classes@, w as int, y + 1, h as int);
                        lemma_prefix_trans(
                            alerts@,
                            grid_alerts(classes@, w as int, y + 1),
                            all,
                        );
                        assert(alerts.len() == max_alerts);
                        assert(alerts@ =~= all.take(max_alerts as int));
                        assert forall|a: int| 0 <= a < alerts.len() implies alert_valid(
                            classes@,
                            w as int,
                            h as int,
                            #[trigger] alerts@[a],
                        ) by {
                            lemma_grid_alerts_valid(classes@, w as int, h as int, h as int);
                            assert(alerts@[a] == all[a]);
                        }
                    }
                }
                return alerts;
            }
            proof {
                if max_alerts == 0 {
                    assert(!lit(classes@, w as int, x as int, y as int));
                    assert(!lit(classes@, w as int, x + 1, y as int));
                }
            }
            c += 1;
        }
        proof {
            if max_alerts == 0 {
                assert(!lit(classes@, w as int, 0, y + 1));
            }
            if w % 2 == 1 {
                assert(row_alerts(classes@, w as int, y as int, w + 1) == row_alerts(
                    classes@,
                    w as int,
                    y as int,
                    w as int,
                ) + alert_at(classes@, w as int, w as int, y as int));
                assert(row_alerts(classes@, w as int, y as int, w + 1) =~= row_alerts(
                    classes@,
                    w as int,
                    y as int,
                    w as int,
                ));
            }
            assert(alerts@ == grid_alerts(classes@, w as int, y + 1));
            lemma_odd_row_empty(classes@, w as int, y + 1, w as int);
            assert(grid_alerts(classes@, w as int, y + 2) =~= grid_alerts(classes@, w as int, y + 1));
        }
        r += 1;
    }
    proof {
        if h % 2 == 1 {
            lemma_odd_row_empty(classes@, w as int, h as int, w as int);
            assert(grid_alerts(classes@, w as int, h + 1) =~= grid_alerts(classes@, w as int, h as int));
        }
        assert(alerts@ == all);
        assert(all.take(all.len() as int) =~= all);
    }
    alerts
}

} // verus!
