//! Placement bookkeeping: pruning of overcrowded modules, merging of fixed
//! modules, choice of the next gap to fill, and the placement modes.
use vstd::prelude::*;
use crate::text::{seq_lt, str_less, lemma_seq_lt_trichotomy, lemma_seq_lt_transitive};

verus! {

/// Module `q` comes before module `p` when their identifiers are ordered:
/// identifiers compare lexicographically, equal identifiers keep input order.
pub open spec fn id_before(ids: Seq<String>, q: int, p: int) -> bool {
    seq_lt(ids[q]@, ids[p]@) || (ids[q]@ == ids[p]@ && q < p)
}

/// The identifier order is a strict total order on module indices.
pub proof fn lemma_id_before_order(ids: Seq<String>, a: int, b: int, c: int)
    ensures
        !id_before(ids, a, a),
        a != b ==> (id_before(ids, a, b) || id_before(ids, b, a)),
        !(id_before(ids, a, b) && id_before(ids, b, a)),
        (id_before(ids, a, b) && id_before(ids, b, c)) ==> id_before(ids, a, c),
{
    lemma_seq_lt_trichotomy(ids[a]@, ids[a]@);
    lemma_seq_lt_trichotomy(ids[a]@, ids[b]@);
    lemma_seq_lt_trichotomy(ids[b]@, ids[c]@);
    lemma_seq_lt_trichotomy(ids[a]@, ids[c]@);
    if id_before(ids, a, b) && id_before(ids, b, c) {
        if seq_lt(ids[a]@, ids[b]@) && seq_lt(ids[b]@, ids[c]@) {
            lemma_seq_lt_transitive(ids[a]@, ids[b]@, ids[c]@);
        }
    }
}

/// Orders module indices by identifier, keeping the input order of equal
/// identifiers (a stable sort).
pub fn order_by_id(ids: &Vec<String>) -> (order: Vec<usize>)
    ensures
        order.len() == ids.len(),
        forall|t: int| 0 <= t < order.len() ==> order[t] < ids.len(),
        forall|p: usize| p < ids.len() ==> #[trigger] order@.contains(p),
        forall|t: int, u: int|
            0 <= t < u < order.len() ==> id_before(ids@, order[t] as int, order[u] as int),
{
    let n = ids.len();
    let mut order: Vec<usize> = Vec::new();
    for i in 0..n
        invariant
            n == ids.len(),
            order.len() == i,
            forall|t: int| 0 <= t < order.len() ==> order[t] < i,
            forall|p: usize| p < i ==> #[trigger] order@.contains(p),
            forall|t: int, u: int|
                0 <= t < u < order.len() ==> id_before(ids@, order[t] as int, order[u] as int),
    {
        let mut pos: usize = 0;
        while pos < order.len() && !str_less(ids[i].as_str(), ids[order[pos]].as_str())
            invariant
                n == ids.len(),
                i < n,
                order.len() == i,
                pos <= order.len(),
                forall|t: int| 0 <= t < order.len() ==> order[t] < i,
                forall|t: int| 0 <= t < pos ==> id_before(ids@, order[t] as int, i as int),
            decreases order.len() - pos,
        {
            proof {
                lemma_seq_lt_trichotomy(ids@[i as int]@, ids@[order[pos as int] as int]@);
            }
            pos += 1;
        }
        let ghost old_order = order@;
        proof {
            if pos < old_order.len() {
                assert(id_before(ids@, i as int, old_order[pos as int] as int));
            }
            assert forall|u: int| pos <= u < old_order.len() implies id_before(
                ids@,
                i as int,
                old_order[u] as int,
            ) by {
                if u > pos {
                    lemma_id_before_order(ids@, i as int, old_order[pos as int] as int, old_order[u] as int);
                }
            }
        }
        order.insert(pos, i);
        assert(order@ == old_order.insert(pos as int, i));
        assert forall|t: int, u: int| 0 <= t < u < order.len() implies id_before(
            ids@,
            order[t] as int,
            order[u] as int,
        ) by {
            if t < pos && u < pos {
                assert(order[t] == old_order[t] && order[u] == old_order[u]);
            } else if t < pos && u == pos {
            } else if t < pos && u > pos {
                assert(order[t] == old_order[t] && order[u] == old_order[u - 1]);
            } else if t == pos {
                assert(order[u] == old_order[u - 1]);
            } else {
                assert(order[t] == old_order[t - 1] && order[u] == old_order[u - 1]);
            }
        }
        assert forall|p: usize| p < i + 1 implies #[trigger] order@.contains(p) by {
            if p == i {
                assert(order[pos as int] == i);
            } else {
                assert(old_order.contains(p));
                let t = choose|t: int| 0 <= t < old_order.len() && old_order[t] == p;
                if t < pos {
                    assert(order[t] == p);
                } else {
                    assert(order[t + 1] == p);
                }
            }
        }
    }
    order
}

/// Inputs of the pruning step: one identifier and one fixed flag per module
/// and a square closeness relation.
pub open spec fn prune_inputs_ok(ids: Seq<String>, fixed: Seq<bool>, close: Seq<Vec<bool>>) -> bool {
    &&& fixed.len() == ids.len()
    &&& close.len() == ids.len()
    &&& forall|a: int| 0 <= a < close.len() ==> #[trigger] close[a]@.len() == ids.len()
}

/// The modules that pruning keeps, in identifier order: every fixed module,
/// and every other module that is not close to a module kept before it.
pub open spec fn prune_result(ids: Seq<String>, fixed: Seq<bool>, close: Seq<Vec<bool>>, kept: Seq<usize>) -> bool {
    &&& forall|t: int| 0 <= t < kept.len() ==> kept[t] < ids.len()
    &&& forall|t: int, u: int| 0 <= t < u < kept.len() ==> id_before(ids, kept[t] as int, kept[u] as int)
    &&& forall|p: int| 0 <= p < ids.len() && #[trigger] fixed[p] ==> kept.contains(p as usize)
    &&& forall|p: int|
        0 <= p < ids.len() && !#[trigger] fixed[p] ==> (kept.contains(p as usize) <==> (forall|q: usize|
            kept.contains(q) && id_before(ids, q as int, p) ==> !close[q as int]@[p]))
}

/// Removes overcrowded modules. Modules are visited in identifier order; a
/// fixed module is always kept, any other module is kept unless it is close to
/// a module kept before it. `close[k][p]` says whether module `p` lies closer
/// to module `k` than the minimum distance. Returns the kept module indices in
/// identifier order.
pub fn prune_overcrowding(ids: &Vec<String>, fixed: &Vec<bool>, close: &Vec<Vec<bool>>) -> (kept:
    Vec<usize>)
    requires
        prune_inputs_ok(ids@, fixed@, close@),
    ensures
        prune_result(ids@, fixed@, close@, kept@),
        forall|t: int, u: int|
            0 <= t < u < kept.len() && !fixed[kept[u] as int] ==> !close[kept[t] as int][kept[u] as int],
{
    let order = order_by_id(ids);
    let n = order.len();
    let mut kept: Vec<usize> = Vec::new();
    let mut t: usize = 0;
    while t < n
        invariant
            t <= n,
            n == order.len(),
            n == ids.len(),
            prune_inputs_ok(ids@, fixed@, close@),
            forall|a: int| 0 <= a < order.len() ==> order[a] < ids.len(),
            forall|p: usize| p < ids.len() ==> #[trigger] order@.contains(p),
            forall|a: int, b: int|
                0 <= a < b < order.len() ==> id_before(ids@, order[a] as int, order[b] as int),
            forall|a: int| 0 <= a < kept.len() ==> exists|u: int| 0 <= u < t && order[u] == #[trigger] kept[a],
            forall|a: int| 0 <= a < kept.len() ==> kept[a] < ids.len(),
            forall|a: int, b: int|
                0 <= a < b < kept.len() ==> id_before(ids@, kept[a] as int, kept[b] as int),
            forall|u: int|
                0 <= u < t ==> (kept@.contains(#[trigger] order[u]) <==> (fixed[order[u] as int]
                    || forall|q: usize|
                    kept@.contains(q) && id_before(ids@, q as int, order[u] as int) ==> !close[q as int][order[u] as int])),
        decreases n - t,
    {
        let p = order[t];
        let mut keep = fixed[p];
        if !keep {
            let mut k: usize = 0;
            keep = true;
            while k < kept.len()
                invariant
                    prune_inputs_ok(ids@, fixed@, close@),
                    p < ids.len(),
                    k <= kept.len(),
                    forall|a: int| 0 <= a < kept.len() ==> kept[a] < ids.len(),
                    keep == forall|a: int| 0 <= a < k ==> !close[kept[a] as int][p as int],
                decreases kept.len() - k,
            {
                if close[kept[k]][p] {
                    keep = false;
                }
                k += 1;
            }
        }
        // every module kept so far comes before `p`
        proof {
            assert forall|a: int| 0 <= a < kept.len() implies id_before(
                ids@,
                kept[a] as int,
                p as int,
            ) by {
                let u = choose|u: int| 0 <= u < t && order[u] == kept[a];
                assert(id_before(ids@, order[u] as int, order[t as int] as int));
            }
            assert forall|u: int| 0 <= u < t implies order[u] != p by {
                lemma_id_before_order(ids@, order[u] as int, p as int, p as int);
                assert(id_before(ids@, order[u] as int, order[t as int] as int));
            }
        }
        let ghost before = kept@;
        if keep {
            kept.push(p);
        }
        proof {
            assert forall|u: int| 0 <= u < t + 1 implies (kept@.contains(#[trigger] order[u]) <==> (
            fixed[order[u] as int] || forall|q: usize|
                kept@.contains(q) && id_before(ids@, q as int, order[u] as int) ==> !close[q as int][order[u] as int])) by {
                let x = order[u];
                if u < t {
                    assert(x != p);
                    if keep {
                        assert(kept@ == before.push(p));
                        if kept@.contains(x) {
                            let a = choose|a: int| 0 <= a < kept.len() && kept@[a] == x;
                            assert(a < before.len());
                            assert(before[a] == x);
                        }
                        if before.contains(x) {
                            let a = choose|a: int| 0 <= a < before.len() && before[a] == x;
                            assert(kept@[a] == x);
                        }
                    }
                    assert(kept@.contains(x) == before.contains(x));
                    assert forall|q: usize| before.contains(q) implies kept@.contains(q) by {
                        let a = choose|a: int| 0 <= a < before.len() && before[a] == q;
                        assert(kept@[a] == q);
                    }
                    assert(before.contains(x) <==> (fixed[x as int] || forall|q: usize|
                        before.contains(q) && id_before(ids@, q as int, x as int) ==> !close[q as int][x as int]));
                    lemma_id_before_order(ids@, x as int, p as int, x as int);
                    assert(id_before(ids@, order[u] as int, order[t as int] as int));
                    assert forall|q: usize| kept@.contains(q) && id_before(ids@, q as int, x as int) implies before.contains(q) by {
                        if q == p {
                            assert(!id_before(ids@, p as int, x as int));
                        }
                    }
                } else {
                    if fixed[p as int] {
                        assert(kept@[kept.len() - 1] == p);
                    } else {
                        lemma_id_before_order(ids@, p as int, p as int, p as int);
                        if keep {
                            assert(kept@[kept.len() - 1] == p);
                            assert forall|q: usize| kept@.contains(q) && id_before(ids@, q as int, x as int) implies !close[q as int][x as int] by {
                                let a = choose|a: int| 0 <= a < kept.len() && kept@[a] == q;
                                if a < before.len() {
                                    assert(before[a] == q);
                                }
                            }
                        } else {
                            assert(kept@ == before);
                            assert(!before.contains(p)) by {
                                if before.contains(p) {
                                    let a = choose|a: int| 0 <= a < before.len() && before[a] == p;
                                    let u2 = choose|u2: int| 0 <= u2 < t && order[u2] == before[a];
                                }
                            }
                            let a = choose|a: int| 0 <= a < before.len() && close[before[a] as int][p as int];
                            assert(before.contains(before[a]));
                        }
                    }
                }
            }
            assert forall|a: int| 0 <= a < kept.len() implies exists|u: int| 0 <= u < t + 1 && order[u] == #[trigger] kept[a] by {
                if a < before.len() {
                    assert(kept[a] == before[a]);
                    let u = choose|u: int| 0 <= u < t && order[u] == before[a];
                } else {
                    assert(order[t as int] == kept[a]);
                }
            }
        }
        t += 1;
    }
    proof {
        assert forall|p: int| 0 <= p < ids.len() implies (#[trigger] fixed[p] ==> kept@.contains(p as usize)) && (!fixed[p] ==> (kept@.contains(p as usize) <==> (forall|
                q: usize,
            | kept@.contains(q) && id_before(ids@, q as int, p) ==> !close[q as int][p]))) by {
            assert(order@.contains(p as usize));
            let u = choose|u: int| 0 <= u < order.len() && order[u] == p;
            assert(kept@.contains(order[u]) <==> (fixed[order[u] as int] || forall|q: usize|
                kept@.contains(q) && id_before(ids@, q as int, order[u] as int) ==> !close[q as int][order[u] as int]));
        }
        assert forall|t: int, u: int|
            0 <= t < u < kept.len() && !fixed[kept[u] as int] implies !close[kept[t] as int][kept[u] as int] by {
            let p = kept[u] as int;
            assert(kept@.contains(kept[u]));
            assert(kept@.contains(kept[t]));
            assert(kept@.contains(p as usize) <==> (fixed[p] || forall|q: usize|
                kept@.contains(q) && id_before(ids@, q as int, p) ==> !close[q as int][p]));
        }
    }
    kept
}

} // verus!

verus! {

/// Chooses the next gap to fill: among the eligible cells (inside the shape
/// and the safe zone, far enough from every module, with enough clearance and
/// far from the nearest module), the one with the greatest distance key; on a
/// tie the first such cell in scan order.
pub fn best_gap_cell(eligible: &Vec<bool>, keys: &Vec<i64>) -> (best: Option<usize>)
    requires
        eligible.len() == keys.len(),
    ensures
        best is None <==> (forall|j: int| 0 <= j < eligible.len() ==> !#[trigger] eligible[j]),
        best matches Some(i) ==> {
            &&& i < eligible.len()
            &&& eligible[i as int]
            &&& forall|j: int| 0 <= j < eligible.len() && #[trigger] eligible[j] ==> keys[j] <= keys[i as int]
            &&& forall|j: int| 0 <= j < i && #[trigger] eligible[j] ==> keys[j] < keys[i as int]
        },
{
    let mut best: Option<usize> = None;
    let mut j: usize = 0;
    while j < eligible.len()
        invariant
            eligible.len() == keys.len(),
            j <= eligible.len(),
            best is None <==> (forall|q: int| 0 <= q < j ==> !#[trigger] eligible[q]),
            best matches Some(i) ==> {
                &&& i < j
                &&& eligible[i as int]
                &&& forall|q: int| 0 <= q < j && #[trigger] eligible[q] ==> keys[q] <= keys[i as int]
                &&& forall|q: int| 0 <= q < i && #[trigger] eligible[q] ==> keys[q] < keys[i as int]
            },
        decreases eligible.len() - j,
    {
        if eligible[j] {
            match best {
                None => {
                    best = Some(j);
                },
                Some(b) => {
                    if keys[j] > keys[b] {
                        best = Some(j);
                    }
                },
            }
        }
        j += 1;
    }
    best
}

/// How modules are placed.
#[derive(Clone, Copy, PartialEq, Eq, Debug, Structural)]
pub enum PlacementMode {
    /// Fully automatic placement.
    Auto,
    /// Automatic placement that keeps the modules the user fixed.
    SemiAuto,
    /// Only the user's own placements.
    Expert,
}

/// Automatic seeding and gap filling run in every mode but the expert one.
pub fn runs_automatic(mode: PlacementMode) -> (res: bool)
    ensures
        res == (mode != PlacementMode::Expert),
{
    mode != PlacementMode::Expert
}

/// Where an entry of the merged placement list comes from: a generated
/// placement or one of the user's existing placements.
#[derive(Clone, Copy, PartialEq, Eq, Debug)]
pub enum Origin {
    Generated(usize),
    Existing(usize),
}

/// An entry of the merged placement list. When `pinned_by` names an existing
/// fixed placement, the entry takes its position and angle and becomes fixed.
#[derive(Clone, Copy, PartialEq, Eq, Debug)]
pub struct MergedEntry {
    pub origin: Origin,
    pub pinned_by: Option<usize>,
}

/// Identifiers of the list the merge starts from: the user's placements in
/// expert mode, the generated ones otherwise.
pub open spec fn base_ids(mode: PlacementMode, generated: Seq<String>, existing: Seq<String>) -> Seq<String> {
    if mode == PlacementMode::Expert {
        existing
    } else {
        generated
    }
}

/// The last fixed existing placement before `k` whose identifier is `id`.
pub open spec fn last_fixed_with(existing: Seq<String>, fixed: Seq<bool>, id: Seq<char>, k: int) -> Option<usize>
    decreases k,
{
    if k <= 0 {
        None
    } else if fixed[k - 1] && existing[k - 1]@ == id {
        Some((k - 1) as usize)
    } else {
        last_fixed_with(existing, fixed, id, k - 1)
    }
}

/// No entry before `q` of `ids` has the identifier of entry `q`.
pub open spec fn first_with_id(ids: Seq<String>, q: int) -> bool {
    forall|r: int| 0 <= r < q ==> #[trigger] ids[r]@ != ids[q]@
}

/// The identifier occurs in `ids`.
pub open spec fn has_id(ids: Seq<String>, id: Seq<char>) -> bool {
    exists|r: int| 0 <= r < ids.len() && #[trigger] ids[r]@ == id
}

/// Fixed existing placements before `k` that are appended to the list: the
/// first fixed placement of each identifier that the base list lacks.
pub open spec fn appended(base: Seq<String>, existing: Seq<String>, fixed: Seq<bool>, k: int) -> Seq<usize>
    decreases k,
{
    if k <= 0 {
        seq![]
    } else {
        let prev = appended(base, existing, fixed, k - 1);
        if fixed[k - 1] && !has_id(base, existing[k - 1]@) && last_fixed_with(
            existing,
            fixed,
            existing[k - 1]@,
            k - 1,
        ) is None {
            prev.push((k - 1) as usize)
        } else {
            prev
        }
    }
}

/// The origin of entry `q` of the base list.
pub open spec fn base_origin(mode: PlacementMode, q: int) -> Origin {
    if mode == PlacementMode::Expert {
        Origin::Existing(q as usize)
    } else {
        Origin::Generated(q as usize)
    }
}

/// Inputs of the merge: one fixed flag per existing placement.
pub open spec fn merge_inputs_ok(existing: Seq<String>, fixed: Seq<bool>) -> bool {
    fixed.len() == existing.len()
}

proof fn lemma_last_fixed_bound(existing: Seq<String>, fixed: Seq<bool>, id: Seq<char>, k: int)
    requires
        k <= existing.len() <= usize::MAX,
    ensures
        last_fixed_with(existing, fixed, id, k) matches Some(e) ==> e < k && fixed[e as int] && existing[e as int]@ == id,
        last_fixed_with(existing, fixed, id, k) is None ==> forall|e: int|
            0 <= e < k ==> !(#[trigger] fixed[e] && existing[e]@ == id),
    decreases k,
{
    if k > 0 {
        lemma_last_fixed_bound(existing, fixed, id, k - 1);
    }
}

proof fn lemma_appended_shape(base: Seq<String>, existing: Seq<String>, fixed: Seq<bool>, k: int)
    requires
        k <= existing.len() <= usize::MAX,
    ensures
        forall|a: int| 0 <= a < appended(base, existing, fixed, k).len() ==> {
            let e = #[trigger] appended(base, existing, fixed, k)[a];
            &&& e < k
            &&& fixed[e as int]
            &&& !has_id(base, existing[e as int]@)
        },
        forall|a: int, b: int|
            0 <= a < b < appended(base, existing, fixed, k).len() ==> existing[#[trigger] appended(base, existing, fixed, k)[a] as int]@
                != existing[#[trigger] appended(base, existing, fixed, k)[b] as int]@,
        forall|e: int|
            0 <= e < k && #[trigger] fixed[e] && !has_id(base, existing[e]@) ==> exists|a: int|
                0 <= a < appended(base, existing, fixed, k).len() && existing[appended(base, existing, fixed, k)[a] as int]@ == existing[e]@,
    decreases k,
{
    if k > 0 {
        lemma_appended_shape(base, existing, fixed, k - 1);
        let prev = appended(base, existing, fixed, k - 1);
        let cur = appended(base, existing, fixed, k);
        lemma_last_fixed_bound(existing, fixed, existing[k - 1]@, k - 1);
        let cond = fixed[k - 1] && !has_id(base, existing[k - 1]@) && last_fixed_with(
            existing,
            fixed,
            existing[k - 1]@,
            k - 1,
        ) is None;
        assert(cur == (if cond { prev.push((k - 1) as usize) } else { prev }));
        if cond {
            assert(cur == prev.push((k - 1) as usize));
            assert(cur[prev.len() as int] == k - 1);
            assert forall|a: int, b: int| 0 <= a < b < cur.len() implies existing[#[trigger] cur[a] as int]@
                != existing[#[trigger] cur[b] as int]@ by {
                if b == prev.len() {
                    assert(cur[a] == prev[a]);
                    assert(fixed[prev[a] as int]);
                } else {
                    assert(cur[a] == prev[a] && cur[b] == prev[b]);
                }
            }
            assert forall|a: int| 0 <= a < cur.len() implies {
                let e = #[trigger] cur[a];
                &&& e < k
                &&& fixed[e as int]
                &&& !has_id(base, existing[e as int]@)
            } by {
                if a < prev.len() {
                    assert(cur[a] == prev[a]);
                }
            }
        }
        assert forall|e: int| 0 <= e < k && #[trigger] fixed[e] && !has_id(base, existing[e]@) implies exists|a: int|
            0 <= a < cur.len() && existing[cur[a] as int]@ == existing[e]@ by {
            if e < k - 1 {
                let a = choose|a: int| 0 <= a < prev.len() && existing[prev[a] as int]@ == existing[e]@;
                assert(cur[a] == prev[a]);
            } else if !cond {
                let e2 = last_fixed_with(existing, fixed, existing[k - 1]@, k - 1)->0;
                assert(fixed[e2 as int] && existing[e2 as int]@ == existing[e]@);
                let a = choose|a: int| 0 <= a < prev.len() && existing[prev[a] as int]@ == existing[e2 as int]@;
            } else {
                assert(cur[prev.len() as int] == e);
            }
        }
    }
}

} // verus!

verus! {

/// The merged entry list that the merge invariant describes after the first
/// `k` existing placements have been visited.
pub open spec fn merged_matches(
    list: Seq<MergedEntry>,
    list_ids: Seq<String>,
    mode: PlacementMode,
    base: Seq<String>,
    existing: Seq<String>,
    fixed: Seq<bool>,
    k: int,
) -> bool {
    let app = appended(base, existing, fixed, k);
    &&& list.len() == base.len() + app.len()
    &&& list_ids.len() == list.len()
    &&& forall|q: int| 0 <= q < base.len() ==> #[trigger] list_ids[q] == base[q]
    &&& forall|a: int| 0 <= a < app.len() ==> #[trigger] list_ids[base.len() + a] == existing[app[a] as int]
    &&& forall|q: int|
        0 <= q < base.len() ==> {
            &&& (#[trigger] list[q]).origin == base_origin(mode, q)
            &&& list[q].pinned_by == (if first_with_id(base, q) {
                last_fixed_with(existing, fixed, base[q]@, k)
            } else {
                None
            })
        }
    &&& forall|a: int|
        0 <= a < app.len() ==> {
            &&& (#[trigger] list[base.len() + a]).origin == Origin::Existing(app[a])
            &&& list[base.len() + a].pinned_by == last_fixed_with(existing, fixed, existing[app[a] as int]@, k)
        }
}

/// The merged list that `merge_placements` returns: the base list (with the
/// first entry of each identifier pinned by the last fixed existing placement
/// with that identifier), then the appended fixed placements (each pinned by
/// the last fixed placement with its identifier).
pub open spec fn merge_result(
    mode: PlacementMode,
    generated: Seq<String>,
    existing: Seq<String>,
    fixed: Seq<bool>,
    merged: Seq<MergedEntry>,
) -> bool {
    let base = base_ids(mode, generated, existing);
    let app = appended(base, existing, fixed, existing.len() as int);
    &&& merged.len() == base.len() + app.len()
    &&& forall|q: int|
        0 <= q < base.len() ==> {
            &&& (#[trigger] merged[q]).origin == base_origin(mode, q)
            &&& merged[q].pinned_by == (if first_with_id(base, q) {
                last_fixed_with(existing, fixed, base[q]@, existing.len() as int)
            } else {
                None
            })
        }
    &&& forall|a: int|
        0 <= a < app.len() ==> {
            &&& (#[trigger] merged[base.len() + a]).origin == Origin::Existing(app[a])
            &&& merged[base.len() + a].pinned_by == last_fixed_with(
                existing,
                fixed,
                existing[app[a] as int]@,
                existing.len() as int,
            )
        }
}

/// Merges the user's fixed placements into the placement list. The list
/// starts as the user's placements in expert mode and as the generated ones
/// otherwise; each fixed existing placement, in order, pins the first entry
/// with its identifier to its position (and marks it fixed), or is appended
/// when no entry has that identifier.
pub fn merge_placements(
    mode: PlacementMode,
    generated_ids: &Vec<String>,
    existing_ids: &Vec<String>,
    existing_fixed: &Vec<bool>,
) -> (merged: Vec<MergedEntry>)
    requires
        merge_inputs_ok(existing_ids@, existing_fixed@),
    ensures
        merge_result(mode, generated_ids@, existing_ids@, existing_fixed@, merged@),
{
    let ghost base = base_ids(mode, generated_ids@, existing_ids@);
    let ghost ex = existing_ids@;
    let ghost fx = existing_fixed@;
    let expert = mode == PlacementMode::Expert;
    let base_vec = if expert {
        existing_ids
    } else {
        generated_ids
    };
    let mut list: Vec<MergedEntry> = Vec::new();
    let mut list_ids: Vec<String> = Vec::new();
    let mut q: usize = 0;
    while q < base_vec.len()
        invariant
            base_vec@ == base,
            expert == (mode == PlacementMode::Expert),
            q <= base.len(),
            list.len() == q,
            list_ids.len() == q,
            forall|r: int| 0 <= r < q ==> #[trigger] list_ids[r] == base[r],
            forall|r: int|
                0 <= r < q ==> (#[trigger] list[r]).origin == base_origin(mode, r) && list[r].pinned_by
                    is None,
        decreases base.len() - q,
    {
        let origin = if expert {
            Origin::Existing(q)
        } else {
            Origin::Generated(q)
        };
        list.push(MergedEntry { origin, pinned_by: None });
        list_ids.push(base_vec[q].clone());
        q += 1;
    }
    assert(merged_matches(list@, list_ids@, mode, base, ex, fx, 0));
    let m = existing_ids.len();
    let mut e: usize = 0;
    while e < m
        invariant
            m == ex.len(),
            ex == existing_ids@,
            fx == existing_fixed@,
            merge_inputs_ok(ex, fx),
            e <= m,
            merged_matches(list@, list_ids@, mode, base, ex, fx, e as int),
        decreases m - e,
    {
        let ghost app = appended(base, ex, fx, e as int);
        proof {
            lemma_appended_shape(base, ex, fx, e as int);
            lemma_last_fixed_bound(ex, fx, ex[e as int]@, e as int);
        }
        if existing_fixed[e] {
            let mut p: usize = 0;
            let mut found = false;
            while p < list_ids.len() && !found
                invariant
                    e < existing_ids.len(),
                    p <= list_ids.len(),
                    found ==> p < list_ids.len() && list_ids[p as int]@ == existing_ids@[e as int]@,
                    forall|r: int| 0 <= r < p && !(found && r == p) ==> #[trigger] list_ids[r]@ != existing_ids@[e as int]@,
                decreases list_ids.len() - p + (if found { 0int } else { 1int }),
            {
                if list_ids[p] == existing_ids[e] {
                    found = true;
                } else {
                    p += 1;
                }
            }
            let ghost x = ex[e as int]@;
            if found {
                let entry = list[p];
                list[p] = MergedEntry { origin: entry.origin, pinned_by: Some(e) };
                proof {
                    assert(appended(base, ex, fx, e + 1) == app) by {
                        if p < base.len() {
                            assert(list_ids@[p as int] == base[p as int]);
                            assert(has_id(base, x));
                        } else {
                            let a = p - base.len();
                            assert(list_ids@[base.len() + a] == ex[app[a] as int]);
                            assert(last_fixed_with(ex, fx, ex[app[a] as int]@, e as int) is Some) by {
                                lemma_last_fixed_bound(ex, fx, x, e as int);
                            }
                        }
                    }
                    assert forall|q: int| 0 <= q < base.len() implies {
                        &&& (#[trigger] list@[q]).origin == base_origin(mode, q)
                        &&& list@[q].pinned_by == (if first_with_id(base, q) {
                            last_fixed_with(ex, fx, base[q]@, e + 1)
                        } else {
                            None
                        })
                    } by {
                        assert(list_ids@[q] == base[q]);
                        if q == p {
                            assert(first_with_id(base, q)) by {
                                assert forall|r: int| 0 <= r < q implies #[trigger] base[r]@ != base[q]@ by {
                                    assert(list_ids@[r] == base[r]);
                                }
                            }
                        } else if q > p && p < base.len() && base[q]@ == x {
                            assert(list_ids@[p as int] == base[p as int]);
                            assert(!first_with_id(base, q));
                        } else if q > p && p >= base.len() {
                        } else {
                        }
                    }
                    assert forall|a: int| 0 <= a < app.len() implies {
                        &&& (#[trigger] list@[base.len() + a]).origin == Origin::Existing(app[a])
                        &&& list@[base.len() + a].pinned_by == last_fixed_with(ex, fx, ex[app[a] as int]@, e + 1)
                    } by {
                        assert(list_ids@[base.len() + a] == ex[app[a] as int]);
                        if base.len() + a != p {
                            if p >= base.len() {
                                let b = p - base.len();
                                assert(list_ids@[base.len() + b] == ex[app[b] as int]);
                            } else {
                                assert(list_ids@[p as int] == base[p as int]);
                                assert(!has_id(base, ex[app[a] as int]@));
                            }
                        }
                    }
                    assert(merged_matches(list@, list_ids@, mode, base, ex, fx, e + 1));
                }
            } else {
                proof {
                    assert(!has_id(base, x)) by {
                        if has_id(base, x) {
                            let r = choose|r: int| 0 <= r < base.len() && #[trigger] base[r]@ == x;
                            assert(list_ids@[r] == base[r]);
                        }
                    }
                    assert(last_fixed_with(ex, fx, x, e as int) is None) by {
                        if last_fixed_with(ex, fx, x, e as int) is Some {
                            let e2 = last_fixed_with(ex, fx, x, e as int)->0;
                            assert(fx[e2 as int] && !has_id(base, ex[e2 as int]@));
                            let a = choose|a: int| 0 <= a < app.len() && ex[app[a] as int]@ == ex[e2 as int]@;
                            assert(list_ids@[base.len() + a] == ex[app[a] as int]);
                        }
                    }
                    assert(appended(base, ex, fx, e + 1) == app.push(e));
                }
                list.push(MergedEntry { origin: Origin::Existing(e), pinned_by: Some(e) });
                list_ids.push(existing_ids[e].clone());
                proof {
                    let app2 = app.push(e);
                    assert forall|a: int| 0 <= a < app2.len() implies #[trigger] list_ids@[base.len() + a] == ex[app2[a] as int] by {
                        if a < app.len() {
                            assert(list_ids@[base.len() + a] == ex[app[a] as int]);
                        }
                    }
                    assert forall|q: int| 0 <= q < base.len() implies {
                        &&& (#[trigger] list@[q]).origin == base_origin(mode, q)
                        &&& list@[q].pinned_by == (if first_with_id(base, q) {
                            last_fixed_with(ex, fx, base[q]@, e + 1)
                        } else {
                            None
                        })
                    } by {
                        assert(list_ids@[q] == base[q]);
                    }
                    assert forall|a: int| 0 <= a < app2.len() implies {
                        &&& (#[trigger] list@[base.len() + a]).origin == Origin::Existing(app2[a])
                        &&& list@[base.len() + a].pinned_by == last_fixed_with(ex, fx, ex[app2[a] as int]@, e + 1)
                    } by {
                        if a < app.len() {
                            assert(list_ids@[base.len() + a] == ex[app[a] as int]);
                        }
                    }
                    assert(merged_matches(list@, list_ids@, mode, base, ex, fx, e + 1));
                }
            }
        } else {
            proof {
                assert(appended(base, ex, fx, e + 1) == app);
                assert forall|q: int| 0 <= q < base.len() implies {
                    &&& (#[trigger] list@[q]).origin == base_origin(mode, q)
                    &&& list@[q].pinned_by == (if first_with_id(base, q) {
                        last_fixed_with(ex, fx, base[q]@, e + 1)
                    } else {
                        None
                    })
                } by {
                }
                assert forall|a: int| 0 <= a < app.len() implies {
                    &&& (#[trigger] list@[base.len() + a]).origin == Origin::Existing(app[a])
                    &&& list@[base.len() + a].pinned_by == last_fixed_with(ex, fx, ex[app[a] as int]@, e + 1)
                } by {
                }
            }
        }
        e += 1;
    }
    list
}

} // verus!

verus! {

/// Errors of module placement.
#[derive(Debug)]
pub enum PlacementError {
    /// The geometry stage failed.
    Geometry(crate::geometry::GeometryError),
    /// No safe zone is left for modules.
    NoSafeZone,
    /// No module has the requested identifier.
    ModuleNotFound(String),
}

impl From<crate::geometry::GeometryError> for PlacementError {
    fn from(e: crate::geometry::GeometryError) -> (res: Self) {
        PlacementError::Geometry(e)
    }
}

impl vstd::std_specs::convert::FromSpecImpl<crate::geometry::GeometryError> for PlacementError {
    open spec fn obeys_from_spec() -> bool {
        true
    }

    open spec fn from_spec(v: crate::geometry::GeometryError) -> Self {
        PlacementError::Geometry(v)
    }
}

} // verus!

verus! {

proof fn lemma_first_occurrence(ids: Seq<String>, id: Seq<char>, r: int) -> (q: int)
    requires
        0 <= r < ids.len(),
        ids[r]@ == id,
    ensures
        0 <= q <= r,
        ids[q]@ == id,
        first_with_id(ids, q),
    decreases r,
{
    if exists|r2: int| 0 <= r2 < r && #[trigger] ids[r2]@ == id {
        let r2 = choose|r2: int| 0 <= r2 < r && #[trigger] ids[r2]@ == id;
        lemma_first_occurrence(ids, id, r2)
    } else {
        r
    }
}

/// Every fixed placement of the user survives the merge: the merged list has
/// an entry with its identifier that is the first with that identifier, and
/// that entry is pinned by the last fixed placement with the identifier, a
/// fixed placement no earlier than this one.
pub proof fn lemma_fixed_placements_kept(
    mode: PlacementMode,
    generated: Seq<String>,
    existing: Seq<String>,
    fixed: Seq<bool>,
    e: int,
)
    requires
        merge_inputs_ok(existing, fixed),
        existing.len() <= usize::MAX,
        0 <= e < existing.len(),
        fixed[e],
    ensures
        ({
            let base = base_ids(mode, generated, existing);
            let app = appended(base, existing, fixed, existing.len() as int);
            ||| exists|q: int| 0 <= q < base.len() && first_with_id(base, q) && #[trigger] base[q]@ == existing[e]@
            ||| exists|a: int| 0 <= a < app.len() && #[trigger] existing[app[a] as int]@ == existing[e]@
        }),
        last_fixed_with(existing, fixed, existing[e]@, existing.len() as int) matches Some(l) && e <= l
            && fixed[l as int] && existing[l as int]@ == existing[e]@,
{
    let base = base_ids(mode, generated, existing);
    let m = existing.len() as int;
    lemma_appended_shape(base, existing, fixed, m);
    if has_id(base, existing[e]@) {
        let r = choose|r: int| 0 <= r < base.len() && #[trigger] base[r]@ == existing[e]@;
        let q = lemma_first_occurrence(base, existing[e]@, r);
    }
    lemma_last_fixed_from(existing, fixed, existing[e]@, e, m);
}

proof fn lemma_last_fixed_from(existing: Seq<String>, fixed: Seq<bool>, id: Seq<char>, e: int, k: int)
    requires
        0 <= e < k <= existing.len() <= usize::MAX,
        fixed[e],
        existing[e]@ == id,
    ensures
        last_fixed_with(existing, fixed, id, k) matches Some(l) && e <= l && fixed[l as int]
            && existing[l as int]@ == id,
    decreases k,
{
    if k - 1 > e && !(fixed[k - 1] && existing[k - 1]@ == id) {
        lemma_last_fixed_from(existing, fixed, id, e, k - 1);
    }
}

} // verus!

verus! {

/// The identifier of an entry of the merged list.
pub open spec fn entry_id(
    generated: Seq<String>,
    existing: Seq<String>,
    entry: MergedEntry,
) -> Seq<char> {
    match entry.origin {
        Origin::Generated(k) => generated[k as int]@,
        Origin::Existing(e) => existing[e as int]@,
    }
}

/// Fixed modules survive placement. After the merge, the list is pruned with
/// one identifier per entry (the entry's own) and every pinned entry marked
/// fixed; then for every fixed placement of the user, a kept module carries
/// its identifier and is pinned by the last fixed placement with that
/// identifier, so it takes that placement's position.
pub proof fn lemma_fixed_modules_survive(
    mode: PlacementMode,
    generated: Seq<String>,
    existing: Seq<String>,
    fixed: Seq<bool>,
    merged: Seq<MergedEntry>,
    ids: Seq<String>,
    flags: Seq<bool>,
    close: Seq<Vec<bool>>,
    kept: Seq<usize>,
    e: int,
)
    requires
        merge_inputs_ok(existing, fixed),
        existing.len() <= usize::MAX,
        generated.len() <= usize::MAX,
        merged.len() <= usize::MAX,
        merge_result(mode, generated, existing, fixed, merged),
        ids.len() == merged.len(),
        forall|q: int| 0 <= q < merged.len() ==> #[trigger] ids[q]@ == entry_id(generated, existing, merged[q]),
        forall|q: int| 0 <= q < merged.len() && (#[trigger] merged[q]).pinned_by is Some ==> flags[q],
        prune_inputs_ok(ids, flags, close),
        prune_result(ids, flags, close, kept),
        0 <= e < existing.len(),
        fixed[e],
    ensures
        exists|t: int|
            0 <= t < kept.len() && #[trigger] ids[kept[t] as int]@ == existing[e]@
                && merged[kept[t] as int].pinned_by == last_fixed_with(
                existing,
                fixed,
                existing[e]@,
                existing.len() as int,
            ),
        last_fixed_with(existing, fixed, existing[e]@, existing.len() as int) matches Some(l) && e <= l
            && fixed[l as int] && existing[l as int]@ == existing[e]@,
{
    lemma_fixed_placements_kept(mode, generated, existing, fixed, e);
    let base = base_ids(mode, generated, existing);
    let app = appended(base, existing, fixed, existing.len() as int);
    let last = last_fixed_with(existing, fixed, existing[e]@, existing.len() as int);
    let r: int = if exists|q: int| 0 <= q < base.len() && first_with_id(base, q) && #[trigger] base[q]@ == existing[e]@ {
        let q = choose|q: int| 0 <= q < base.len() && first_with_id(base, q) && #[trigger] base[q]@ == existing[e]@;
        assert(merged[q].origin == base_origin(mode, q));
        assert(ids[q]@ == entry_id(generated, existing, merged[q]));
        assert(ids[q]@ == base[q]@);
        q
    } else {
        let a = choose|a: int| 0 <= a < app.len() && #[trigger] existing[app[a] as int]@ == existing[e]@;
        assert(merged[base.len() + a].origin == Origin::Existing(app[a]));
        assert(ids[base.len() + a]@ == existing[app[a] as int]@);
        base.len() + a
    };
    assert(merged[r].pinned_by == last);
    assert(flags[r]);
    assert(kept.contains(r as usize));
    let t = choose|t: int| 0 <= t < kept.len() && kept[t] == r as usize;
    assert(kept[t] as int == r);
    assert(ids[kept[t] as int]@ == existing[e]@);
}

} // verus!
