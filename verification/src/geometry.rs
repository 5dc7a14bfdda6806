//! Raster grid logic of the distance field.
use vstd::prelude::*;

verus! {

/// Column of a row-major cell index in a grid `w` cells wide.
pub open spec fn cell_x(i: int, w: int) -> int {
    i % w
}

/// Row of a row-major cell index in a grid `w` cells wide.
pub open spec fn cell_y(i: int, w: int) -> int {
    i / w
}

/// The cell lies in the first or last row or column of a `w` by `h` grid.
pub open spec fn on_grid_edge(i: int, w: int, h: int) -> bool {
    cell_x(i, w) == 0 || cell_y(i, w) == 0 || cell_x(i, w) + 1 == w || cell_y(i, w) + 1 == h
}

/// An inside cell is a boundary cell when it lies on the grid edge or one of
/// its four direct neighbours is outside.
pub open spec fn spec_is_boundary(i: int, w: int, h: int, inside: Seq<bool>) -> bool {
    inside[i] && (on_grid_edge(i, w, h) || !inside[i - 1] || !inside[i + 1] || !inside[i - w]
        || !inside[i + w])
}

/// The inputs on which the boundary test reads only cells that exist.
pub open spec fn boundary_query_ok(i: int, w: int, h: int, inside: Seq<bool>) -> bool {
    &&& 0 <= i < inside.len()
    &&& inside[i] ==> w > 0
    &&& (inside[i] && !on_grid_edge(i, w, h)) ==> i + w < inside.len()
}

proof fn lemma_cell_decompose(i: int, w: int)
    requires
        0 <= i,
        0 < w,
    ensures
        i == cell_y(i, w) * w + cell_x(i, w),
        0 <= cell_x(i, w) < w,
        0 <= cell_y(i, w),
        cell_y(i, w) >= 1 ==> i - w >= 0,
{
    vstd::arithmetic::div_mod::lemma_fundamental_div_mod(i, w);
    vstd::arithmetic::div_mod::lemma_mod_bound(i, w);
    vstd::arithmetic::div_mod::lemma_div_pos_is_pos(i, w);
    vstd::arithmetic::mul::lemma_mul_is_commutative(w, i / w);
    if cell_y(i, w) >= 1 {
        vstd::arithmetic::mul::lemma_mul_inequality(1, i / w, w);
    }
}

/// Whether cell `i` of a row-major `w` by `h` mask is an inside cell that
/// touches the grid edge or an outside cell.
pub fn is_boundary(i: usize, w: usize, h: usize, inside: &[bool]) -> (res: bool)
    requires
        boundary_query_ok(i as int, w as int, h as int, inside@),
    ensures
        res == spec_is_boundary(i as int, w as int, h as int, inside@),
{
    if !inside[i] {
        return false;
    }
    let x = i % w;
    let y = i / w;
    proof {
        lemma_cell_decompose(i as int, w as int);
    }
    if x == 0 || y == 0 || x + 1 == w || y + 1 == h {
        return true;
    }
    !inside[i - 1] || !inside[i + 1] || !inside[i - w] || !inside[i + w]
}

} // verus!

verus! {

proof fn lemma_row_below_fits(i: int, w: int, h: int)
    requires
        0 <= i < w * h,
        0 < w,
        cell_y(i, w) + 1 != h,
    ensures
        i + w < w * h,
{
    lemma_cell_decompose(i, w);
    let y = cell_y(i, w);
    let x = cell_x(i, w);
    if y >= h {
        vstd::arithmetic::mul::lemma_mul_inequality(h, y, w);
        vstd::arithmetic::mul::lemma_mul_is_commutative(w, h);
    }
    vstd::arithmetic::mul::lemma_mul_inequality(y + 2, h, w);
    vstd::arithmetic::mul::lemma_mul_is_distributive_add_other_way(w, y, 2);
    vstd::arithmetic::mul::lemma_mul_is_commutative(w, h);
}

/// Cells whose distance starts at zero in the distance transform: every
/// outside cell and every boundary cell of the `w` by `h` mask; the other
/// inside cells start at infinity.
pub fn zero_distance_cells(inside: &[bool], w: usize, h: usize) -> (zero: Vec<bool>)
    requires
        inside@.len() == w * h,
    ensures
        zero.len() == inside@.len(),
        forall|i: int|
            0 <= i < inside@.len() ==> #[trigger] zero[i] == (!inside@[i] || spec_is_boundary(
                i,
                w as int,
                h as int,
                inside@,
            )),
{
    let n = inside.len();
    let mut zero: Vec<bool> = Vec::new();
    let mut i: usize = 0;
    while i < n
        invariant
            n == inside@.len(),
            n == w * h,
            i <= n,
            zero.len() == i,
            forall|j: int|
                0 <= j < i ==> #[trigger] zero[j] == (!inside@[j] || spec_is_boundary(
                    j,
                    w as int,
                    h as int,
                    inside@,
                )),
        decreases n - i,
    {
        proof {
            if w == 0 {
                assert(w * h == 0);
            }
            if inside@[i as int] && w > 0 && !on_grid_edge(i as int, w as int, h as int) {
                lemma_row_below_fits(i as int, w as int, h as int);
            }
        }
        let b = !inside[i] || is_boundary(i, w, h, inside);
        zero.push(b);
        i += 1;
    }
    zero
}

/// The boundary test looks at the cell itself and its four direct neighbours
/// only: an inside cell off the grid edge is a boundary cell exactly when its
/// left, right, upper or lower neighbour is outside, whatever its diagonal
/// neighbours are; an inside cell on the grid edge is always one, an outside
/// cell never.
pub proof fn lemma_boundary_by_four_neighbours(i: int, w: int, h: int, inside: Seq<bool>, other: Seq<bool>)
    requires
        0 <= i < inside.len(),
        0 < w,
        other.len() == inside.len(),
    ensures
        !inside[i] ==> !spec_is_boundary(i, w, h, inside),
        inside[i] && (i % w == 0 || i / w == 0 || i % w == w - 1 || i / w == h - 1) ==> spec_is_boundary(
            i,
            w,
            h,
            inside,
        ),
        inside[i] && !(i % w == 0 || i / w == 0 || i % w == w - 1 || i / w == h - 1) ==> (spec_is_boundary(
            i,
            w,
            h,
            inside,
        ) <==> (!inside[i - 1] || !inside[i + 1] || !inside[i - w] || !inside[i + w])),
        inside[i] == other[i] && inside[i - 1] == other[i - 1] && inside[i + 1] == other[i + 1]
            && inside[i - w] == other[i - w] && inside[i + w] == other[i + w] ==> spec_is_boundary(
            i,
            w,
            h,
            inside,
        ) == spec_is_boundary(i, w, h, other),
{
}

/// Index of the grid cell that a sample falls in. `ix` and `iy` are the cell
/// coordinates of the sample (rounded down); samples outside the grid, or in
/// its last row or column, have no cell.
pub fn sample_index(ix: isize, iy: isize, w: usize, h: usize) -> (cell: Option<usize>)
    requires
        w * h <= usize::MAX,
    ensures
        cell == (if 0 <= ix < w - 1 && 0 <= iy < h - 1 {
            Some((iy * w + ix) as usize)
        } else {
            None::<usize>
        }),
{
    if ix < 0 || iy < 0 {
        return None;
    }
    let ux = ix as usize;
    let uy = iy as usize;
    if ux >= w.saturating_sub(1) || uy >= h.saturating_sub(1) {
        return None;
    }
    proof {
        vstd::arithmetic::mul::lemma_mul_inequality((uy + 1) as int, h as int, w as int);
        vstd::arithmetic::mul::lemma_mul_is_distributive_add_other_way(w as int, uy as int, 1);
        vstd::arithmetic::mul::lemma_mul_is_commutative(w as int, h as int);
        vstd::arithmetic::mul::lemma_mul_is_commutative(w as int, uy as int);
    }
    Some(uy * w + ux)
}

/// The cell `(x, y)` lies away from the border of a `w` by `h` grid.
pub open spec fn interior_cell(x: int, y: int, w: int, h: int) -> bool {
    1 <= x < w - 1 && 1 <= y < h - 1
}

/// None of the eight cells around cell `c` of a grid `w` cells wide holds a
/// greater key.
pub open spec fn no_greater_neighbour(keys: Seq<i64>, w: int, c: int) -> bool {
    &&& keys[c - w - 1] <= keys[c]
    &&& keys[c - w] <= keys[c]
    &&& keys[c - w + 1] <= keys[c]
    &&& keys[c - 1] <= keys[c]
    &&& keys[c + 1] <= keys[c]
    &&& keys[c + w - 1] <= keys[c]
    &&& keys[c + w] <= keys[c]
    &&& keys[c + w + 1] <= keys[c]
}

/// Cell `(x, y)` is a local maximum: an interior cell whose key reaches the
/// threshold and is not exceeded by any of its eight neighbours.
pub open spec fn is_local_max(keys: Seq<i64>, w: int, h: int, threshold: i64, x: int, y: int) -> bool {
    &&& interior_cell(x, y, w, h)
    &&& keys[y * w + x] >= threshold
    &&& no_greater_neighbour(keys, w, y * w + x)
}

/// Local maxima of row `y` among the columns before `xe`, left to right.
pub open spec fn row_maxima(keys: Seq<i64>, w: int, h: int, threshold: i64, y: int, xe: int) -> Seq<
    (usize, usize),
>
    decreases xe,
{
    if xe <= 1 {
        seq![]
    } else {
        let prev = row_maxima(keys, w, h, threshold, y, xe - 1);
        if is_local_max(keys, w, h, threshold, xe - 1, y) {
            prev.push(((xe - 1) as usize, y as usize))
        } else {
            prev
        }
    }
}

/// Local maxima of the rows before `ye`, in row-major order.
pub open spec fn grid_maxima(keys: Seq<i64>, w: int, h: int, threshold: i64, ye: int) -> Seq<
    (usize, usize),
>
    decreases ye,
{
    if ye <= 1 {
        seq![]
    } else {
        grid_maxima(keys, w, h, threshold, ye - 1) + row_maxima(keys, w, h, threshold, ye - 1, w - 1)
    }
}

proof fn lemma_row_maxima_exact(keys: Seq<i64>, w: int, h: int, threshold: i64, y: int, xe: int)
    requires
        w <= usize::MAX,
        h <= usize::MAX,
    ensures
        forall|i: int|
            0 <= i < row_maxima(keys, w, h, threshold, y, xe).len() ==> {
                let c = #[trigger] row_maxima(keys, w, h, threshold, y, xe)[i];
                is_local_max(keys, w, h, threshold, c.0 as int, c.1 as int) && c.1 == y
            },
        forall|x: int|
            x < xe && #[trigger] is_local_max(keys, w, h, threshold, x, y) ==> row_maxima(
                keys,
                w,
                h,
                threshold,
                y,
                xe,
            ).contains((x as usize, y as usize)),
    decreases xe,
{
    if xe > 1 {
        lemma_row_maxima_exact(keys, w, h, threshold, y, xe - 1);
        let prev = row_maxima(keys, w, h, threshold, y, xe - 1);
        let cur = row_maxima(keys, w, h, threshold, y, xe);
        assert forall|i: int| 0 <= i < cur.len() implies {
            let c = #[trigger] cur[i];
            is_local_max(keys, w, h, threshold, c.0 as int, c.1 as int) && c.1 == y
        } by {
            if i < prev.len() {
                assert(cur[i] == prev[i]);
            }
        }
        assert forall|x: int| x < xe && #[trigger] is_local_max(keys, w, h, threshold, x, y) implies cur.contains(
            (x as usize, y as usize),
        ) by {
            if x < xe - 1 {
                let i = choose|i: int| 0 <= i < prev.len() && prev[i] == (x as usize, y as usize);
                assert(cur[i] == prev[i]);
            } else {
                assert(cur[prev.len() as int] == (x as usize, y as usize));
            }
        }
    }
}

proof fn lemma_grid_maxima_exact(keys: Seq<i64>, w: int, h: int, threshold: i64, ye: int)
    requires
        w <= usize::MAX,
        h <= usize::MAX,
    ensures
        forall|i: int|
            0 <= i < grid_maxima(keys, w, h, threshold, ye).len() ==> {
                let c = #[trigger] grid_maxima(keys, w, h, threshold, ye)[i];
                is_local_max(keys, w, h, threshold, c.0 as int, c.1 as int)
            },
        forall|x: int, y: int|
            y < ye && #[trigger] is_local_max(keys, w, h, threshold, x, y) ==> grid_maxima(
                keys,
                w,
                h,
                threshold,
                ye,
            ).contains((x as usize, y as usize)),
    decreases ye,
{
    if ye > 1 {
        lemma_grid_maxima_exact(keys, w, h, threshold, ye - 1);
        lemma_row_maxima_exact(keys, w, h, threshold, ye - 1, w - 1);
        let prev = grid_maxima(keys, w, h, threshold, ye - 1);
        let row = row_maxima(keys, w, h, threshold, ye - 1, w - 1);
        let cur = grid_maxima(keys, w, h, threshold, ye);
        assert(cur == prev + row);
        assert forall|i: int| 0 <= i < cur.len() implies {
            let c = #[trigger] cur[i];
            is_local_max(keys, w, h, threshold, c.0 as int, c.1 as int)
        } by {
            if i < prev.len() {
                assert(cur[i] == prev[i]);
            } else {
                assert(cur[i] == row[i - prev.len()]);
            }
        }
        assert forall|x: int, y: int| y < ye && #[trigger] is_local_max(keys, w, h, threshold, x, y) implies cur.contains(
            (x as usize, y as usize),
        ) by {
            if y < ye - 1 {
                let i = choose|i: int| 0 <= i < prev.len() && prev[i] == (x as usize, y as usize);
                assert(cur[i] == prev[i]);
            } else {
                assert(row.contains((x as usize, y as usize)));
                let i = choose|i: int| 0 <= i < row.len() && row[i] == (x as usize, y as usize);
                assert(cur[prev.len() + i] == row[i]);
            }
        }
    }
}

/// A reported cell lies off the border, reaches the threshold, and no cell of
/// the three by three block around it holds a greater key (diagonals
/// included); every such cell is reported.
pub proof fn lemma_maxima_dominate_their_block(keys: Seq<i64>, w: int, h: int, threshold: i64)
    requires
        0 <= w <= usize::MAX,
        0 <= h <= usize::MAX,
    ensures
        forall|k: int|
            0 <= k < grid_maxima(keys, w, h, threshold, h - 1).len() ==> {
                let c = #[trigger] grid_maxima(keys, w, h, threshold, h - 1)[k];
                let x = c.0 as int;
                let y = c.1 as int;
                &&& 1 <= x < w - 1
                &&& 1 <= y < h - 1
                &&& keys[y * w + x] >= threshold
                &&& forall|dx: int, dy: int|
                    -1 <= dx <= 1 && -1 <= dy <= 1 ==> #[trigger] keys[(y + dy) * w + (x + dx)]
                        <= keys[y * w + x]
            },
        forall|x: int, y: int|
            1 <= x < w - 1 && 1 <= y < h - 1 && #[trigger] keys[y * w + x] >= threshold && (forall|
                dx: int,
                dy: int,
            |
                -1 <= dx <= 1 && -1 <= dy <= 1 ==> #[trigger] keys[(y + dy) * w + (x + dx)] <= keys[y
                    * w + x]) ==> grid_maxima(keys, w, h, threshold, h - 1).contains(
                (x as usize, y as usize),
            ),
{
    lemma_grid_maxima_exact(keys, w, h, threshold, h - 1);
    let g = grid_maxima(keys, w, h, threshold, h - 1);
    assert forall|k: int| 0 <= k < g.len() implies {
        let c = #[trigger] g[k];
        let x = c.0 as int;
        let y = c.1 as int;
        &&& 1 <= x < w - 1
        &&& 1 <= y < h - 1
        &&& keys[y * w + x] >= threshold
        &&& forall|dx: int, dy: int|
            -1 <= dx <= 1 && -1 <= dy <= 1 ==> #[trigger] keys[(y + dy) * w + (x + dx)] <= keys[y * w
                + x]
    } by {
        let c = g[k];
        let x = c.0 as int;
        let y = c.1 as int;
        assert(is_local_max(keys, w, h, threshold, x, y));
        assert forall|dx: int, dy: int| -1 <= dx <= 1 && -1 <= dy <= 1 implies #[trigger] keys[(y + dy)
            * w + (x + dx)] <= keys[y * w + x] by {
            lemma_block_index(x, y, w, dx, dy);
        }
    }
    assert forall|x: int, y: int|
        1 <= x < w - 1 && 1 <= y < h - 1 && #[trigger] keys[y * w + x] >= threshold && (forall|
            dx: int,
            dy: int,
        | -1 <= dx <= 1 && -1 <= dy <= 1 ==> #[trigger] keys[(y + dy) * w + (x + dx)] <= keys[y * w + x])
            implies g.contains((x as usize, y as usize)) by {
        lemma_block_index(x, y, w, -1, -1);
        lemma_block_index(x, y, w, 0, -1);
        lemma_block_index(x, y, w, 1, -1);
        lemma_block_index(x, y, w, -1, 0);
        lemma_block_index(x, y, w, 1, 0);
        lemma_block_index(x, y, w, -1, 1);
        lemma_block_index(x, y, w, 0, 1);
        lemma_block_index(x, y, w, 1, 1);
        assert(keys[(y - 1) * w + (x - 1)] <= keys[y * w + x]);
        assert(keys[(y - 1) * w + x] <= keys[y * w + x]);
        assert(keys[(y - 1) * w + (x + 1)] <= keys[y * w + x]);
        assert(keys[y * w + (x - 1)] <= keys[y * w + x]);
        assert(keys[y * w + (x + 1)] <= keys[y * w + x]);
        assert(keys[(y + 1) * w + (x - 1)] <= keys[y * w + x]);
        assert(keys[(y + 1) * w + x] <= keys[y * w + x]);
        assert(keys[(y + 1) * w + (x + 1)] <= keys[y * w + x]);
        assert(is_local_max(keys, w, h, threshold, x, y));
    }
}

proof fn lemma_block_index(x: int, y: int, w: int, dx: int, dy: int)
    requires
        -1 <= dy <= 1,
    ensures
        (y + dy) * w + (x + dx) == y * w + x + dy * w + dx,
        dy == -1 ==> (y + dy) * w + (x + dx) == y * w + x - w + dx,
        dy == 0 ==> (y + dy) * w + (x + dx) == y * w + x + dx,
        dy == 1 ==> (y + dy) * w + (x + dx) == y * w + x + w + dx,
{
    assert((y + dy) * w == y * w + dy * w) by (nonlinear_arith);
    if dy == -1 {
        assert(dy * w == -w) by (nonlinear_arith) requires dy == -1;
    } else if dy == 1 {
        assert(dy * w == w) by (nonlinear_arith) requires dy == 1;
    } else {
        assert(dy * w == 0) by (nonlinear_arith) requires dy == 0;
    }
}

/// Local maxima of a `w` by `h` grid of order keys (integers ordered as the
/// field values are), as `(column, row)` pairs in row-major order.
pub fn local_maxima_cells(keys: &Vec<i64>, w: usize, h: usize, threshold: i64) -> (cells: Vec<
    (usize, usize),
>)
    requires
        w >= 3 && h >= 3 ==> w * h <= keys.len(),
    ensures
        cells@ == grid_maxima(keys@, w as int, h as int, threshold, h - 1),
        forall|k: int|
            0 <= k < cells.len() ==> is_local_max(
                keys@,
                w as int,
                h as int,
                threshold,
                (#[trigger] cells[k]).0 as int,
                cells[k].1 as int,
            ),
        forall|x: int, y: int|
            #[trigger] is_local_max(keys@, w as int, h as int, threshold, x, y) ==> cells@.contains(
                (x as usize, y as usize),
            ),
{
    proof {
        lemma_grid_maxima_exact(keys@, w as int, h as int, threshold, h - 1);
    }
    let mut cells: Vec<(usize, usize)> = Vec::new();
    let ye: usize = if h >= 1 { h - 1 } else { 0 };
    let xe: usize = if w >= 1 { w - 1 } else { 0 };
    let mut y: usize = 1;
    while y < ye
        invariant
            w >= 3 && h >= 3 ==> w * h <= keys.len(),
            ye == (if h >= 1 { h - 1 } else { 0 }),
            xe == (if w >= 1 { w - 1 } else { 0 }),
            1 <= y,
            y <= ye || ye < 1,
            ye < 1 ==> y == 1,
            cells@ == grid_maxima(keys@, w as int, h as int, threshold, y as int),
        decreases ye - y,
    {
        let ghost start = cells@;
        let mut x: usize = 1;
        while x < xe
            invariant
                w >= 3 && h >= 3 ==> w * h <= keys.len(),
                ye == (if h >= 1 { h - 1 } else { 0 }),
                xe == (if w >= 1 { w - 1 } else { 0 }),
                1 <= y < ye,
                1 <= x,
                x <= xe || xe < 1,
                xe < 1 ==> x == 1,
                cells@ == start + row_maxima(keys@, w as int, h as int, threshold, y as int, x as int),
            decreases xe - x,
        {
            proof {
                vstd::arithmetic::mul::lemma_mul_inequality((y + 2) as int, h as int, w as int);
                vstd::arithmetic::mul::lemma_mul_is_distributive_add_other_way(w as int, y as int, 2);
                vstd::arithmetic::mul::lemma_mul_is_commutative(w as int, h as int);
                vstd::arithmetic::mul::lemma_mul_is_commutative(w as int, y as int);
                vstd::arithmetic::mul::lemma_mul_inequality(1, y as int, w as int);
            }
            let c = y * w + x;
            let v = keys[c];
            let is_max = v >= threshold && keys[c - w - 1] <= v && keys[c - w] <= v && keys[c - w
                + 1] <= v && keys[c - 1] <= v && keys[c + 1] <= v && keys[c + w - 1] <= v && keys[c
                + w] <= v && keys[c + w + 1] <= v;
            if is_max {
                cells.push((x, y));
            }
            proof {
                assert(cells@ == start + row_maxima(
                    keys@,
                    w as int,
                    h as int,
                    threshold,
                    y as int,
                    (x + 1) as int,
                ));
            }
            x += 1;
        }
        proof {
            if xe < 1 {
                assert(row_maxima(keys@, w as int, h as int, threshold, y as int, w - 1) =~= seq![]);
                assert(row_maxima(keys@, w as int, h as int, threshold, y as int, x as int) =~= seq![]);
            } else {
                assert(x == xe);
                assert(x as int == w - 1);
            }
            assert(cells@ =~= start + row_maxima(keys@, w as int, h as int, threshold, y as int, w - 1));
            assert(grid_maxima(keys@, w as int, h as int, threshold, (y + 1) as int) == grid_maxima(
                keys@,
                w as int,
                h as int,
                threshold,
                y as int,
            ) + row_maxima(keys@, w as int, h as int, threshold, y as int, w - 1));
        }
        y += 1;
    }
    proof {
        if ye < 1 {
            assert(grid_maxima(keys@, w as int, h as int, threshold, h - 1) =~= seq![]);
            assert(grid_maxima(keys@, w as int, h as int, threshold, y as int) =~= seq![]);
        } else {
            assert(y == ye);
        }
    }
    cells
}

} // verus!

verus! {

/// Errors of the geometry stage.
#[derive(Debug)]
pub enum GeometryError {
    /// A ring with fewer than three points.
    EmptyContour,
    /// An offset left too little of the shape.
    OffsetCollapsed(String),
    /// A ring that cannot be used.
    InvalidRing(String),
}

/// Indices `i < k` with `mask[i]` set, in increasing order.
pub open spec fn set_indices(mask: Seq<bool>, k: int) -> Seq<usize>
    decreases k,
{
    if k <= 0 {
        seq![]
    } else if mask[k - 1] {
        set_indices(mask, k - 1).push((k - 1) as usize)
    } else {
        set_indices(mask, k - 1)
    }
}

proof fn lemma_set_indices_bound(mask: Seq<bool>, k: int)
    requires
        k <= usize::MAX + 1,
    ensures
        forall|i: int| 0 <= i < set_indices(mask, k).len() ==> #[trigger] set_indices(mask, k)[i] < k,
    decreases k,
{
    if k > 0 {
        lemma_set_indices_bound(mask, k - 1);
        let prev = set_indices(mask, k - 1);
        let cur = set_indices(mask, k);
        assert forall|i: int| 0 <= i < cur.len() implies #[trigger] cur[i] < k by {
            if i < prev.len() {
                assert(cur[i] == prev[i]);
            }
        }
    }
}

/// Indices of the set entries of `mask`, in increasing order.
pub fn indices_of_set(mask: &Vec<bool>) -> (idx: Vec<usize>)
    ensures
        idx@ == set_indices(mask@, mask.len() as int),
{
    let mut idx: Vec<usize> = Vec::new();
    let mut i: usize = 0;
    while i < mask.len()
        invariant
            i <= mask.len(),
            idx@ == set_indices(mask@, i as int),
        decreases mask.len() - i,
    {
        if mask[i] {
            idx.push(i);
        }
        i += 1;
    }
    idx
}

/// Decides the safe zone from the inset outer ring. An outer ring of fewer
/// than three points is an empty contour. Otherwise the zone is made of the
/// inset points outside every expanded hole (`keep_primary`); when fewer than
/// three remain, of the inset points inside the shape and outside every
/// expanded hole (`keep_fallback`); when fewer than three remain again, the
/// zone has collapsed. Returns the indices of the kept inset points.
pub fn select_safe_points(outer_len: usize, keep_primary: &Vec<bool>, keep_fallback: &Vec<bool>) -> (res:
    Result<Vec<usize>, GeometryError>)
    requires
        outer_len >= 3 ==> keep_primary.len() == outer_len && keep_fallback.len() == outer_len,
    ensures
        outer_len < 3 ==> res matches Err(GeometryError::EmptyContour),
        outer_len >= 3 ==> ({
            let primary = set_indices(keep_primary@, outer_len as int);
            let fallback = set_indices(keep_fallback@, outer_len as int);
            if primary.len() >= 3 {
                res matches Ok(v) && v@ == primary
            } else if fallback.len() >= 3 {
                res matches Ok(v) && v@ == fallback
            } else {
                res matches Err(GeometryError::OffsetCollapsed(m)) && m@ == "safe zone empty after holes"@
            }
        }),
        res matches Ok(v) ==> v.len() >= 3 && forall|i: int| 0 <= i < v.len() ==> #[trigger] v[i] < outer_len,
{
    proof {
        lemma_set_indices_bound(keep_primary@, outer_len as int);
        lemma_set_indices_bound(keep_fallback@, outer_len as int);
    }
    if outer_len < 3 {
        return Err(GeometryError::EmptyContour);
    }
    let primary = indices_of_set(keep_primary);
    if primary.len() >= 3 {
        return Ok(primary);
    }
    let fallback = indices_of_set(keep_fallback);
    if fallback.len() >= 3 {
        return Ok(fallback);
    }
    Err(GeometryError::OffsetCollapsed(String::from_str("safe zone empty after holes")))
}

} // verus!
