//! Nesting of contour rings into shape groups by even-odd nesting.
//!
//! Rings are taken by decreasing area. A ring that no larger ring contains
//! starts a group as its outer ring; a ring whose nearest (smallest) container
//! starts a group is a hole of that group; a ring whose nearest container is a
//! hole starts a group of its own as an island. Areas enter as order keys
//! (integers ordered as the areas are) and containment enters as a relation
//! between rings.
use vstd::prelude::*;

verus! {

/// Ring `a` comes before ring `b`: larger area first, equal areas in input order.
pub open spec fn area_before(keys: Seq<i64>, a: int, b: int) -> bool {
    keys[a] > keys[b] || (keys[a] == keys[b] && a < b)
}

/// Orders ring indices by decreasing area key, keeping the input order of
/// rings whose keys are equal (a stable sort).
pub fn topology_order(area_keys: &Vec<i64>) -> (order: Vec<usize>)
    ensures
        order.len() == area_keys.len(),
        forall|p: int| 0 <= p < order.len() ==> order[p] < area_keys.len(),
        forall|r: usize| r < area_keys.len() ==> #[trigger] order@.contains(r),
        forall|p: int, q: int|
            0 <= p < q < order.len() ==> area_before(area_keys@, order[p] as int, order[q] as int),
{
    let n = area_keys.len();
    let mut order: Vec<usize> = Vec::new();
    for i in 0..n
        invariant
            n == area_keys.len(),
            order.len() == i,
            forall|p: int| 0 <= p < order.len() ==> order[p] < i,
            forall|r: usize| r < i ==> #[trigger] order@.contains(r),
            forall|p: int, q: int|
                0 <= p < q < order.len() ==> area_before(
                    area_keys@,
                    order[p] as int,
                    order[q] as int,
                ),
    {
        let mut pos: usize = 0;
        while pos < order.len() && area_keys[order[pos]] >= area_keys[i]
            invariant
                n == area_keys.len(),
                i < n,
                order.len() == i,
                pos <= order.len(),
                forall|p: int| 0 <= p < order.len() ==> order[p] < i,
                forall|q: int| 0 <= q < pos ==> area_keys[order[q] as int] >= area_keys[i as int],
            decreases order.len() - pos,
        {
            pos += 1;
        }
        let ghost old_order = order@;
        proof {
            assert forall|q: int| pos <= q < old_order.len() implies area_keys[old_order[q] as int]
                < area_keys[i as int] by {
                if q > pos {
                    assert(area_before(area_keys@, old_order[pos as int] as int, old_order[q] as int));
                }
            }
        }
        order.insert(pos, i);
        assert(order@ == old_order.insert(pos as int, i));
        assert forall|p: int, q: int| 0 <= p < q < order.len() implies area_before(
            area_keys@,
            order[p] as int,
            order[q] as int,
        ) by {
            if p < pos && q < pos {
                assert(order[p] == old_order[p] && order[q] == old_order[q]);
            } else if p < pos && q == pos {
            } else if p < pos && q > pos {
                assert(order[p] == old_order[p] && order[q] == old_order[q - 1]);
            } else if p == pos {
                assert(order[q] == old_order[q - 1]);
            } else {
                assert(order[p] == old_order[p - 1] && order[q] == old_order[q - 1]);
            }
        }
        assert forall|r: usize| r < i + 1 implies #[trigger] order@.contains(r) by {
            if r == i {
                assert(order[pos as int] == i);
            } else {
                assert(old_order.contains(r));
                let t = choose|t: int| 0 <= t < old_order.len() && old_order[t] == r;
                if t < pos {
                    assert(order[t] == r);
                } else {
                    assert(order[t + 1] == r);
                }
            }
        }
    }
    order
}

/// One shape group as ring indices: the ring that starts it, whether that ring
/// is an island (it lies in a hole of a larger shape), and its holes.
pub struct RingGroup {
    pub outer: usize,
    pub island: bool,
    pub holes: Vec<usize>,
}

/// The ring at sorted position `p` has enough points to form a polygon.
pub open spec fn eligible(order: Seq<usize>, point_counts: Seq<usize>, p: int) -> bool {
    point_counts[order[p] as int] >= 3
}

/// The polygon of the ring at sorted position `o` contains the first point of
/// the ring at sorted position `p`.
pub open spec fn claims(order: Seq<usize>, contains: Seq<Vec<bool>>, o: int, p: int) -> bool {
    contains[order[o] as int]@[order[p] as int]
}

/// The nearest container of the ring at position `j` among the positions
/// before `k`: the last of them, so the smallest ring, that forms a polygon
/// containing it.
pub open spec fn nearest_container(
    order: Seq<usize>,
    point_counts: Seq<usize>,
    contains: Seq<Vec<bool>>,
    j: int,
    k: int,
) -> Option<int>
    decreases k,
{
    if k <= 0 {
        None
    } else if eligible(order, point_counts, k - 1) && claims(order, contains, k - 1, j) {
        Some(k - 1)
    } else {
        nearest_container(order, point_counts, contains, j, k - 1)
    }
}

/// The ring at position `j` starts a shape group (it lies at an even nesting
/// depth): it forms a polygon, and no larger ring contains it or its nearest
/// container starts no group, so that container is a hole.
pub open spec fn starts_group(
    order: Seq<usize>,
    point_counts: Seq<usize>,
    contains: Seq<Vec<bool>>,
    j: int,
) -> bool
    decreases j,
{
    if !eligible(order, point_counts, j) {
        false
    } else {
        match nearest_container(order, point_counts, contains, j, j) {
            None => true,
            Some(i) => if 0 <= i < j {
                !starts_group(order, point_counts, contains, i)
            } else {
                false
            },
        }
    }
}

/// Sorted positions before `k` whose rings start a shape group.
pub open spec fn group_starts(
    order: Seq<usize>,
    point_counts: Seq<usize>,
    contains: Seq<Vec<bool>>,
    k: nat,
) -> Seq<int>
    decreases k,
{
    if k == 0 {
        seq![]
    } else {
        let prev = group_starts(order, point_counts, contains, (k - 1) as nat);
        if starts_group(order, point_counts, contains, k - 1) {
            prev.push(k - 1)
        } else {
            prev
        }
    }
}

/// The ring at position `j` is a hole of the group started at position `o`:
/// it forms a polygon and its nearest container is `o`, a ring that starts a
/// group.
pub open spec fn hole_of(
    order: Seq<usize>,
    point_counts: Seq<usize>,
    contains: Seq<Vec<bool>>,
    o: int,
    j: int,
) -> bool {
    &&& eligible(order, point_counts, j)
    &&& nearest_container(order, point_counts, contains, j, j) == Some(o)
    &&& starts_group(order, point_counts, contains, o)
}

/// Ring indices of the holes of the group started at position `o` among the
/// positions before `k`, in sorted order.
pub open spec fn holes_upto(
    order: Seq<usize>,
    point_counts: Seq<usize>,
    contains: Seq<Vec<bool>>,
    o: int,
    k: nat,
) -> Seq<usize>
    decreases k,
{
    if k == 0 {
        seq![]
    } else {
        let prev = holes_upto(order, point_counts, contains, o, (k - 1) as nat);
        if hole_of(order, point_counts, contains, o, k - 1) {
            prev.push(order[k - 1])
        } else {
            prev
        }
    }
}

/// Inputs of the grouping: every sorted entry names a ring, and the
/// containment relation is square over the rings.
pub open spec fn grouping_inputs_ok(
    order: Seq<usize>,
    point_counts: Seq<usize>,
    contains: Seq<Vec<bool>>,
) -> bool {
    &&& contains.len() == point_counts.len()
    &&& forall|a: int| 0 <= a < contains.len() ==> #[trigger] contains[a]@.len() == point_counts.len()
    &&& forall|p: int| 0 <= p < order.len() ==> #[trigger] order[p] < point_counts.len()
}

/// A position index read back as a position.
pub open spec fn as_position(found: Option<usize>) -> Option<int> {
    match found {
        Some(i) => Some(i as int),
        None => None,
    }
}

proof fn lemma_nearest_container_range(
    order: Seq<usize>,
    point_counts: Seq<usize>,
    contains: Seq<Vec<bool>>,
    j: int,
    k: int,
)
    ensures
        nearest_container(order, point_counts, contains, j, k) matches Some(i) ==> 0 <= i < k,
    decreases k,
{
    if k > 0 {
        lemma_nearest_container_range(order, point_counts, contains, j, k - 1);
    }
}

proof fn lemma_no_holes_before(
    order: Seq<usize>,
    point_counts: Seq<usize>,
    contains: Seq<Vec<bool>>,
    o: int,
    k: nat,
)
    requires
        k <= o + 1,
    ensures
        holes_upto(order, point_counts, contains, o, k) == Seq::<usize>::empty(),
    decreases k,
{
    if k > 0 {
        lemma_no_holes_before(order, point_counts, contains, o, (k - 1) as nat);
        lemma_nearest_container_range(order, point_counts, contains, k - 1, k - 1);
    }
}

/// Groups rings into shapes by even-odd nesting. `order` lists the ring
/// indices by decreasing area, `point_counts[r]` is the number of points of
/// ring `r` (rings with fewer than three points form no polygon and are left
/// out), and `contains[a][b]` says whether the polygon of ring `a` contains the
/// first point of ring `b`. A ring that no larger ring contains starts a group
/// as its outer ring; a ring whose nearest container starts a group is a hole
/// of that group; a ring whose nearest container is a hole starts a group of
/// its own as an island.
pub fn group_rings(order: &Vec<usize>, point_counts: &Vec<usize>, contains: &Vec<Vec<bool>>) -> (groups:
    Vec<RingGroup>)
    requires
        grouping_inputs_ok(order@, point_counts@, contains@),
    ensures
        groups.len() == group_starts(order@, point_counts@, contains@, order.len() as nat).len(),
        forall|g: int|
            0 <= g < groups.len() ==> {
                let o = group_starts(order@, point_counts@, contains@, order.len() as nat)[g];
                &&& #[trigger] groups[g].outer == order[o]
                &&& groups[g].island == nearest_container(order@, point_counts@, contains@, o, o) is Some
                &&& groups[g].holes@ == holes_upto(
                    order@,
                    point_counts@,
                    contains@,
                    o,
                    order.len() as nat,
                )
            },
{
    let n = order.len();
    let ghost s = order@;
    let ghost cnt = point_counts@;
    let ghost c = contains@;
    // first pass: the nearest container of every ring and whether it starts a group
    let mut nearest: Vec<Option<usize>> = Vec::new();
    let mut starts: Vec<bool> = Vec::new();
    let mut j: usize = 0;
    while j < n
        invariant
            n == order.len(),
            s == order@,
            cnt == point_counts@,
            c == contains@,
            grouping_inputs_ok(s, cnt, c),
            j <= n,
            nearest.len() == j,
            starts.len() == j,
            forall|q: int|
                0 <= q < j ==> as_position(#[trigger] nearest[q]) == nearest_container(s, cnt, c, q, q),
            forall|q: int| 0 <= q < j ==> #[trigger] starts[q] == starts_group(s, cnt, c, q),
        decreases n - j,
    {
        let rj = order[j];
        let mut found: Option<usize> = None;
        let mut i: usize = 0;
        while i < j
            invariant
                n == order.len(),
                s == order@,
                cnt == point_counts@,
                c == contains@,
                grouping_inputs_ok(s, cnt, c),
                j < n,
                rj == s[j as int],
                i <= j,
                as_position(found) == nearest_container(s, cnt, c, j as int, i as int),
                found matches Some(f) ==> f < i,
            decreases j - i,
        {
            let ri = order[i];
            if point_counts[ri] >= 3 && contains[ri][rj] {
                found = Some(i);
            }
            i += 1;
        }
        let start = if point_counts[rj] < 3 {
            false
        } else {
            match found {
                None => true,
                Some(f) => !starts[f],
            }
        };
        nearest.push(found);
        starts.push(start);
        j += 1;
    }
    // second pass: one group per starting ring, with the rings it directly contains
    let mut groups: Vec<RingGroup> = Vec::new();
    let mut o: usize = 0;
    while o < n
        invariant
            n == order.len(),
            s == order@,
            cnt == point_counts@,
            c == contains@,
            grouping_inputs_ok(s, cnt, c),
            o <= n,
            nearest.len() == n,
            starts.len() == n,
            forall|q: int|
                0 <= q < n ==> as_position(#[trigger] nearest[q]) == nearest_container(s, cnt, c, q, q),
            forall|q: int| 0 <= q < n ==> #[trigger] starts[q] == starts_group(s, cnt, c, q),
            groups.len() == group_starts(s, cnt, c, o as nat).len(),
            forall|g: int|
                0 <= g < groups.len() ==> {
                    let p = group_starts(s, cnt, c, o as nat)[g];
                    &&& #[trigger] groups[g].outer == s[p]
                    &&& groups[g].island == nearest_container(s, cnt, c, p, p) is Some
                    &&& groups[g].holes@ == holes_upto(s, cnt, c, p, n as nat)
                },
        decreases n - o,
    {
        let ghost prev = group_starts(s, cnt, c, o as nat);
        if starts[o] {
            let mut holes: Vec<usize> = Vec::new();
            proof {
                lemma_no_holes_before(s, cnt, c, o as int, (o + 1) as nat);
            }
            let mut j: usize = o + 1;
            while j < n
                invariant
                    n == order.len(),
                    s == order@,
                    cnt == point_counts@,
                    c == contains@,
                    grouping_inputs_ok(s, cnt, c),
                    o < j <= n,
                    nearest.len() == n,
                    forall|q: int|
                        0 <= q < n ==> as_position(#[trigger] nearest[q]) == nearest_container(
                            s,
                            cnt,
                            c,
                            q,
                            q,
                        ),
                    starts_group(s, cnt, c, o as int),
                    holes@ == holes_upto(s, cnt, c, o as int, j as nat),
                    prev == group_starts(s, cnt, c, o as nat),
                    groups.len() == prev.len(),
                    forall|g: int|
                        0 <= g < groups.len() ==> {
                            let p = prev[g];
                            &&& #[trigger] groups[g].outer == s[p]
                            &&& groups[g].island == nearest_container(s, cnt, c, p, p) is Some
                            &&& groups[g].holes@ == holes_upto(s, cnt, c, p, n as nat)
                        },
                decreases n - j,
            {
                let rj = order[j];
                let is_hole = point_counts[rj] >= 3 && match nearest[j] {
                    Some(f) => f == o,
                    None => false,
                };
                proof {
                    assert(as_position(nearest[j as int]) == nearest_container(s, cnt, c, j as int, j as int));
                }
                if is_hole {
                    holes.push(rj);
                }
                j += 1;
            }
            let island = match nearest[o] {
                Some(_) => true,
                None => false,
            };
            proof {
                assert(as_position(nearest[o as int]) == nearest_container(s, cnt, c, o as int, o as int));
            }
            let ghost old_groups = groups@;
            groups.push(RingGroup { outer: order[o], island, holes });
            proof {
                let nxt = group_starts(s, cnt, c, (o + 1) as nat);
                assert(nxt == prev.push(o as int));
                assert forall|g: int| 0 <= g < groups.len() implies {
                    let p = nxt[g];
                    &&& #[trigger] groups[g].outer == s[p]
                    &&& groups[g].island == nearest_container(s, cnt, c, p, p) is Some
                    &&& groups[g].holes@ == holes_upto(s, cnt, c, p, n as nat)
                } by {
                    if g < prev.len() {
                        assert(nxt[g] == prev[g]);
                        assert(groups[g] == old_groups[g]);
                    } else {
                        assert(nxt[g] == o);
                        assert(groups[g].outer == s[o as int]);
                        assert(groups[g].island == nearest_container(s, cnt, c, o as int, o as int) is Some);
                        assert(groups[g].holes@ == holes_upto(s, cnt, c, o as int, n as nat));
                    }
                }
            }
        } else {
            proof {
                let nxt = group_starts(s, cnt, c, (o + 1) as nat);
                assert(nxt == prev);
            }
        }
        o += 1;
    }
    groups
}

/// A point is inside a shape when the outer ring forms a polygon that contains
/// it and no hole that forms a polygon contains it. `in_outer` and `in_hole[k]`
/// are the containment tests against the outer polygon and the `k`-th hole.
pub fn point_in_shape(
    outer_point_count: usize,
    in_outer: bool,
    hole_point_counts: &Vec<usize>,
    in_hole: &Vec<bool>,
) -> (res: bool)
    requires
        hole_point_counts.len() == in_hole.len(),
    ensures
        res == (outer_point_count >= 3 && in_outer && forall|k: int|
            0 <= k < in_hole.len() ==> !(#[trigger] hole_point_counts[k] >= 3 && in_hole[k])),
{
    if outer_point_count < 3 {
        return false;
    }
    if !in_outer {
        return false;
    }
    let mut k: usize = 0;
    while k < in_hole.len()
        invariant
            hole_point_counts.len() == in_hole.len(),
            k <= in_hole.len(),
            forall|q: int| 0 <= q < k ==> !(#[trigger] hole_point_counts[q] >= 3 && in_hole[q]),
        decreases in_hole.len() - k,
    {
        if hole_point_counts[k] >= 3 && in_hole[k] {
            return false;
        }
        k += 1;
    }
    true
}

} // verus!

verus! {

/// Role of a contour ring in a shape.
#[derive(Clone, Copy, PartialEq, Eq, Debug, Structural)]
pub enum RingKind {
    Outer,
    Hole,
    Island,
}

} // verus!

verus! {

proof fn lemma_group_starts_contains(
    order: Seq<usize>,
    point_counts: Seq<usize>,
    contains: Seq<Vec<bool>>,
    k: nat,
)
    ensures
        forall|q: int|
            #[trigger] group_starts(order, point_counts, contains, k).contains(q) <==> (0 <= q < k
                && starts_group(order, point_counts, contains, q)),
    decreases k,
{
    if k > 0 {
        lemma_group_starts_contains(order, point_counts, contains, (k - 1) as nat);
        let prev = group_starts(order, point_counts, contains, (k - 1) as nat);
        let cur = group_starts(order, point_counts, contains, k);
        assert forall|q: int| #[trigger] cur.contains(q) <==> (0 <= q < k && starts_group(
            order,
            point_counts,
            contains,
            q,
        )) by {
            if starts_group(order, point_counts, contains, k - 1) {
                assert(cur == prev.push(k - 1));
                if prev.contains(q) {
                    let t = choose|t: int| 0 <= t < prev.len() && prev[t] == q;
                    assert(cur[t] == q);
                }
                if q == k - 1 {
                    assert(cur[prev.len() as int] == q);
                }
                if cur.contains(q) && q != k - 1 {
                    let t = choose|t: int| 0 <= t < cur.len() && cur[t] == q;
                    assert(prev[t] == q);
                }
            }
        }
    }
}

/// Every ring with enough points to form a polygon ends up in exactly one
/// shape group: either it starts a group (as an outer ring or an island) and
/// is the hole of no group, or it starts no group and is a hole of exactly one
/// group.
pub proof fn lemma_each_ring_in_one_group(
    order: Seq<usize>,
    point_counts: Seq<usize>,
    contains: Seq<Vec<bool>>,
    p: int,
)
    requires
        grouping_inputs_ok(order, point_counts, contains),
        0 <= p < order.len(),
        eligible(order, point_counts, p),
    ensures
        ({
            let starts = group_starts(order, point_counts, contains, order.len() as nat);
            ||| (starts.contains(p) && forall|o: int| !#[trigger] hole_of(order, point_counts, contains, o, p))
            ||| (!starts.contains(p) && (exists|o: int|
                starts.contains(o) && #[trigger] hole_of(order, point_counts, contains, o, p)) && forall|
                o1: int,
                o2: int,
            |
                #[trigger] hole_of(order, point_counts, contains, o1, p) && #[trigger] hole_of(
                    order,
                    point_counts,
                    contains,
                    o2,
                    p,
                ) ==> o1 == o2)
        }),
{
    let n = order.len() as nat;
    let starts = group_starts(order, point_counts, contains, n);
    lemma_group_starts_contains(order, point_counts, contains, n);
    lemma_nearest_container_range(order, point_counts, contains, p, p);
    assert(starts.contains(p) <==> starts_group(order, point_counts, contains, p));
    if starts_group(order, point_counts, contains, p) {
        assert forall|o: int| !#[trigger] hole_of(order, point_counts, contains, o, p) by {}
    } else {
        let i = nearest_container(order, point_counts, contains, p, p)->0;
        assert(starts_group(order, point_counts, contains, i));
        assert(hole_of(order, point_counts, contains, i, p));
        assert(starts.contains(i));
    }
}


/// Read directly from the inputs: the ring at sorted position `i` forms a
/// polygon, and that polygon contains the first point of the ring at sorted
/// position `j`.
pub open spec fn encloses(order: Seq<usize>, point_counts: Seq<usize>, contains: Seq<Vec<bool>>, i: int, j: int) -> bool {
    point_counts[order[i] as int] >= 3 && contains[order[i] as int]@[order[j] as int]
}

/// Read directly from the inputs: `i` is the nearest enclosing position of
/// `j`, the last position before `j` whose ring encloses it.
pub open spec fn directly_encloses(
    order: Seq<usize>,
    point_counts: Seq<usize>,
    contains: Seq<Vec<bool>>,
    i: int,
    j: int,
) -> bool {
    &&& 0 <= i < j
    &&& encloses(order, point_counts, contains, i, j)
    &&& forall|m: int| i < m < j ==> !#[trigger] encloses(order, point_counts, contains, m, j)
}

proof fn lemma_nearest_exact(order: Seq<usize>, point_counts: Seq<usize>, contains: Seq<Vec<bool>>, j: int, k: int)
    ensures
        nearest_container(order, point_counts, contains, j, k) matches Some(i) ==> 0 <= i < k && encloses(
            order,
            point_counts,
            contains,
            i,
            j,
        ) && forall|m: int| i < m < k ==> !#[trigger] encloses(order, point_counts, contains, m, j),
        nearest_container(order, point_counts, contains, j, k) is None ==> forall|m: int|
            0 <= m < k ==> !#[trigger] encloses(order, point_counts, contains, m, j),
    decreases k,
{
    if k > 0 {
        lemma_nearest_exact(order, point_counts, contains, j, k - 1);
    }
}

/// The nesting rule, read from the inputs. The nearest container of a ring is
/// the last larger ring that encloses it, none when no larger ring does (so
/// the group's island flag says exactly whether a larger ring encloses it).
/// A ring starts a group exactly when it forms a polygon and either no larger
/// ring encloses it or its nearest container starts no group.
pub proof fn lemma_nesting_rule(order: Seq<usize>, point_counts: Seq<usize>, contains: Seq<Vec<bool>>, j: int)
    requires
        0 <= j,
    ensures
        nearest_container(order, point_counts, contains, j, j) matches Some(i) ==> directly_encloses(
            order,
            point_counts,
            contains,
            i,
            j,
        ),
        nearest_container(order, point_counts, contains, j, j) is None <==> forall|m: int|
            0 <= m < j ==> !#[trigger] encloses(order, point_counts, contains, m, j),
        starts_group(order, point_counts, contains, j) <==> (point_counts[order[j] as int] >= 3 && ((
        forall|m: int| 0 <= m < j ==> !#[trigger] encloses(order, point_counts, contains, m, j))
            || exists|i: int|
            #[trigger] directly_encloses(order, point_counts, contains, i, j) && !starts_group(
                order,
                point_counts,
                contains,
                i,
            ))),
{
    lemma_nearest_exact(order, point_counts, contains, j, j);
    let nc = nearest_container(order, point_counts, contains, j, j);
    if let Some(i) = nc {
        assert(directly_encloses(order, point_counts, contains, i, j));
        assert(!(forall|m: int| 0 <= m < j ==> !#[trigger] encloses(order, point_counts, contains, m, j)));
        assert forall|i2: int| #[trigger] directly_encloses(order, point_counts, contains, i2, j) implies i2
            == i by {
            if i2 < i {
                assert(!encloses(order, point_counts, contains, i, j));
            } else if i < i2 {
                assert(!encloses(order, point_counts, contains, i2, j));
            }
        }
    } else {
        assert forall|i2: int| !#[trigger] directly_encloses(order, point_counts, contains, i2, j) by {}
    }
}

proof fn lemma_group_starts_shape(order: Seq<usize>, point_counts: Seq<usize>, contains: Seq<Vec<bool>>, k: nat)
    ensures
        forall|t: int|
            0 <= t < group_starts(order, point_counts, contains, k).len() ==> 0 <= #[trigger] group_starts(
                order,
                point_counts,
                contains,
                k,
            )[t] < k && starts_group(order, point_counts, contains, group_starts(order, point_counts, contains, k)[t]),
        forall|t1: int, t2: int|
            0 <= t1 < t2 < group_starts(order, point_counts, contains, k).len() ==> #[trigger] group_starts(
                order,
                point_counts,
                contains,
                k,
            )[t1] < #[trigger] group_starts(order, point_counts, contains, k)[t2],
    decreases k,
{
    if k > 0 {
        lemma_group_starts_shape(order, point_counts, contains, (k - 1) as nat);
        let prev = group_starts(order, point_counts, contains, (k - 1) as nat);
        let cur = group_starts(order, point_counts, contains, k);
        if starts_group(order, point_counts, contains, k - 1) {
            assert(cur == prev.push(k - 1));
            assert forall|t: int| 0 <= t < cur.len() implies 0 <= #[trigger] cur[t] < k && starts_group(
                order,
                point_counts,
                contains,
                cur[t],
            ) by {
                if t < prev.len() {
                    assert(cur[t] == prev[t]);
                }
            }
            assert forall|t1: int, t2: int| 0 <= t1 < t2 < cur.len() implies #[trigger] cur[t1] < #[trigger] cur[t2] by {
                assert(cur[t1] == prev[t1]);
                if t2 < prev.len() {
                    assert(cur[t2] == prev[t2]);
                }
            }
        }
    }
}

/// The groups are started, in sorted order, by exactly the rings that start a
/// group: each listed position starts one, positions increase, and no
/// starting position is left out.
pub proof fn lemma_groups_listed_in_order(order: Seq<usize>, point_counts: Seq<usize>, contains: Seq<Vec<bool>>)
    ensures
        ({
            let gs = group_starts(order, point_counts, contains, order.len() as nat);
            &&& forall|t: int|
                0 <= t < gs.len() ==> 0 <= #[trigger] gs[t] < order.len() && starts_group(
                    order,
                    point_counts,
                    contains,
                    gs[t],
                )
            &&& forall|t1: int, t2: int| 0 <= t1 < t2 < gs.len() ==> #[trigger] gs[t1] < #[trigger] gs[t2]
            &&& forall|p: int|
                0 <= p < order.len() && #[trigger] starts_group(order, point_counts, contains, p)
                    ==> gs.contains(p)
        }),
{
    lemma_group_starts_shape(order, point_counts, contains, order.len() as nat);
    lemma_group_starts_contains(order, point_counts, contains, order.len() as nat);
}

proof fn lemma_hole_positions(
    order: Seq<usize>,
    point_counts: Seq<usize>,
    contains: Seq<Vec<bool>>,
    o: int,
    k: nat,
) -> (ps: Seq<int>)
    ensures
        ps.len() == holes_upto(order, point_counts, contains, o, k).len(),
        forall|t: int|
            0 <= t < ps.len() ==> 0 <= #[trigger] ps[t] < k && hole_of(order, point_counts, contains, o, ps[t])
                && holes_upto(order, point_counts, contains, o, k)[t] == order[ps[t]],
        forall|t1: int, t2: int| 0 <= t1 < t2 < ps.len() ==> #[trigger] ps[t1] < #[trigger] ps[t2],
        forall|j: int| 0 <= j < k && #[trigger] hole_of(order, point_counts, contains, o, j) ==> ps.contains(j),
    decreases k,
{
    if k == 0 {
        seq![]
    } else {
        let prev = lemma_hole_positions(order, point_counts, contains, o, (k - 1) as nat);
        if hole_of(order, point_counts, contains, o, k - 1) {
            let ps = prev.push(k - 1);
            assert forall|t: int| 0 <= t < ps.len() implies 0 <= #[trigger] ps[t] < k && hole_of(
                order,
                point_counts,
                contains,
                o,
                ps[t],
            ) && holes_upto(order, point_counts, contains, o, k)[t] == order[ps[t]] by {
                if t < prev.len() {
                    assert(ps[t] == prev[t]);
                }
            }
            assert forall|t1: int, t2: int| 0 <= t1 < t2 < ps.len() implies #[trigger] ps[t1] < #[trigger] ps[t2] by {
                assert(ps[t1] == prev[t1]);
                if t2 < prev.len() {
                    assert(ps[t2] == prev[t2]);
                }
            }
            assert forall|j: int| 0 <= j < k && #[trigger] hole_of(order, point_counts, contains, o, j) implies ps.contains(j) by {
                if j < k - 1 {
                    let t = choose|t: int| 0 <= t < prev.len() && prev[t] == j;
                    assert(ps[t] == j);
                } else {
                    assert(ps[prev.len() as int] == j);
                }
            }
            ps
        } else {
            prev
        }
    }
}

/// The holes of a group, read from the inputs: for a ring at sorted position
/// `o` that starts a group, the hole list holds, in sorted order, exactly the
/// rings that form a polygon and whose nearest enclosing ring is `o`; every
/// such ring is in it, and no other ring. The result lists their positions.
pub proof fn lemma_holes_are_the_directly_enclosed(
    order: Seq<usize>,
    point_counts: Seq<usize>,
    contains: Seq<Vec<bool>>,
    o: int,
) -> (ps: Seq<int>)
    requires
        0 <= o < order.len(),
        starts_group(order, point_counts, contains, o),
    ensures
        ps.len() == holes_upto(order, point_counts, contains, o, order.len() as nat).len(),
        forall|t: int|
            0 <= t < ps.len() ==> holes_upto(order, point_counts, contains, o, order.len() as nat)[t]
                == order[#[trigger] ps[t]] && point_counts[order[ps[t]] as int] >= 3
                && directly_encloses(order, point_counts, contains, o, ps[t]),
        forall|t1: int, t2: int| 0 <= t1 < t2 < ps.len() ==> #[trigger] ps[t1] < #[trigger] ps[t2],
        forall|j: int|
            0 <= j < order.len() && point_counts[order[j] as int] >= 3 && #[trigger] directly_encloses(
                order,
                point_counts,
                contains,
                o,
                j,
            ) ==> ps.contains(j),
{
    let n = order.len() as nat;
    let ps = lemma_hole_positions(order, point_counts, contains, o, n);
    assert forall|t: int| 0 <= t < ps.len() implies holes_upto(order, point_counts, contains, o, n)[t]
        == order[#[trigger] ps[t]] && point_counts[order[ps[t]] as int] >= 3 && directly_encloses(
        order,
        point_counts,
        contains,
        o,
        ps[t],
    ) by {
        lemma_nesting_rule(order, point_counts, contains, ps[t]);
    }
    assert forall|j: int|
        0 <= j < order.len() && point_counts[order[j] as int] >= 3 && #[trigger] directly_encloses(
            order,
            point_counts,
            contains,
            o,
            j,
        ) implies ps.contains(j) by {
        lemma_nesting_rule(order, point_counts, contains, j);
        let nc = nearest_container(order, point_counts, contains, j, j);
        if let Some(i) = nc {
            if i < o {
                assert(!encloses(order, point_counts, contains, o, j));
            } else if o < i {
                assert(!encloses(order, point_counts, contains, i, j));
            }
        } else {
            assert(!encloses(order, point_counts, contains, o, j));
        }
        assert(hole_of(order, point_counts, contains, o, j));
    }
    ps
}

} // verus!
