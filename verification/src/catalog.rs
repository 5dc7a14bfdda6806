//! Catalog of LED modules: errors, lookup by identifier, choice of a module
//! by sign depth, and the default catalog location.
use vstd::prelude::*;
use crate::text::str_equal;

verus! {

/// Errors of catalog loading.
#[derive(Debug)]
pub enum CatalogError {
    /// A catalog file could not be read.
    Io { path: String, source: std::io::Error },
    /// A catalog file is not valid JSON for its type.
    Json(serde_json::Error),
    /// No module has the requested identifier.
    NotFound(String),
}

/// Colour of a module's light.
#[derive(Clone, Debug)]
pub struct Color {
    pub name: String,
}

/// The first index `i < k` whose identifier is `id`.
pub open spec fn first_index_with(ids: Seq<String>, id: Seq<char>, k: int) -> Option<usize>
    decreases k,
{
    if k <= 0 {
        None
    } else {
        match first_index_with(ids, id, k - 1) {
            Some(i) => Some(i),
            None => if ids[k - 1]@ == id {
                Some((k - 1) as usize)
            } else {
                None
            },
        }
    }
}

proof fn lemma_first_index_with(ids: Seq<String>, id: Seq<char>, k: int)
    requires
        k <= ids.len() <= usize::MAX,
    ensures
        first_index_with(ids, id, k) matches Some(i) ==> i < k && ids[i as int]@ == id && forall|j: int|
            0 <= j < i ==> #[trigger] ids[j]@ != id,
        first_index_with(ids, id, k) is None ==> forall|j: int| 0 <= j < k ==> #[trigger] ids[j]@ != id,
    decreases k,
{
    if k > 0 {
        lemma_first_index_with(ids, id, k - 1);
    }
}

proof fn lemma_first_index_stable(ids: Seq<String>, id: Seq<char>, a: int, b: int)
    requires
        a <= b,
        first_index_with(ids, id, a) is Some,
    ensures
        first_index_with(ids, id, b) == first_index_with(ids, id, a),
    decreases b - a,
{
    if a < b {
        lemma_first_index_stable(ids, id, a, b - 1);
    }
}

/// Index of the first module whose identifier is `id`.
pub fn position_by_id(ids: &Vec<String>, id: &str) -> (pos: Option<usize>)
    ensures
        pos == first_index_with(ids@, id@, ids.len() as int),
        pos matches Some(i) ==> i < ids.len() && ids[i as int]@ == id@,
        pos is None ==> forall|j: int| 0 <= j < ids.len() ==> #[trigger] ids[j]@ != id@,
{
    proof {
        lemma_first_index_with(ids@, id@, ids.len() as int);
    }
    let mut i: usize = 0;
    while i < ids.len()
        invariant
            i <= ids.len(),
            first_index_with(ids@, id@, i as int) is None,
        decreases ids.len() - i,
    {
        if str_equal(ids[i].as_str(), id) {
            proof {
                assert(first_index_with(ids@, id@, i + 1) == Some(i));
                lemma_first_index_stable(ids@, id@, i as int + 1, ids.len() as int);
            }
            return Some(i);
        }
        i += 1;
    }
    None
}

/// The module a placement is lit with: the first catalog module with the
/// placement's module identifier, the first module of the list when none has
/// it.
pub fn module_index_or_first(module_ids: &Vec<String>, id: &str) -> (i: usize)
    requires
        module_ids.len() > 0,
    ensures
        i == (match first_index_with(module_ids@, id@, module_ids.len() as int) {
            Some(j) => j,
            None => 0,
        }),
        i < module_ids.len(),
{
    match position_by_id(module_ids, id) {
        Some(j) => j,
        None => 0,
    }
}

/// The first rule before `k` that the depth fits.
pub open spec fn first_fitting(fits: Seq<bool>, k: int) -> Option<usize>
    decreases k,
{
    if k <= 0 {
        None
    } else {
        match first_fitting(fits, k - 1) {
            Some(i) => Some(i),
            None => if fits[k - 1] {
                Some((k - 1) as usize)
            } else {
                None
            },
        }
    }
}

/// The module chosen for a sign depth: the first depth rule that the depth
/// fits (`fits[i]` says that the depth is at most rule `i`'s maximum) names a
/// module identifier, and the first module with that identifier is chosen.
pub open spec fn spec_module_for_depth(fits: Seq<bool>, rule_ids: Seq<String>, module_ids: Seq<String>) -> Option<usize> {
    match first_fitting(fits, fits.len() as int) {
        Some(r) => first_index_with(module_ids, rule_ids[r as int]@, module_ids.len() as int),
        None => None,
    }
}

/// Index of the module to use for a sign depth, by the catalog's depth rules
/// in order (see `spec_module_for_depth`). `None` when the depth fits no rule
/// or no module has the identifier the rule names.
pub fn module_for_depth(fits: &Vec<bool>, rule_ids: &Vec<String>, module_ids: &Vec<String>) -> (pos:
    Option<usize>)
    requires
        fits.len() == rule_ids.len(),
    ensures
        pos == spec_module_for_depth(fits@, rule_ids@, module_ids@),
{
    let mut i: usize = 0;
    while i < fits.len() && !fits[i]
        invariant
            fits.len() == rule_ids.len(),
            i <= fits.len(),
            first_fitting(fits@, i as int) is None,
        decreases fits.len() - i,
    {
        i += 1;
    }
    let chosen: Option<usize> = if i < fits.len() {
        Some(i)
    } else {
        None
    };
    proof {
        if i < fits.len() {
            assert(first_fitting(fits@, i + 1) == Some(i));
            lemma_first_fitting_stable(fits@, i as int + 1, fits.len() as int);
        }
    }
    match chosen {
        Some(r) => position_by_id(module_ids, rule_ids[r].as_str()),
        None => None,
    }
}

proof fn lemma_first_fitting_stable(fits: Seq<bool>, a: int, b: int)
    requires
        a <= b,
        first_fitting(fits, a) is Some,
    ensures
        first_fitting(fits, b) == first_fitting(fits, a),
    decreases b - a,
{
    if a < b {
        lemma_first_fitting_stable(fits, a, b - 1);
    }
}

proof fn lemma_first_fitting_exact(fits: Seq<bool>, k: int)
    requires
        k <= fits.len() <= usize::MAX,
    ensures
        first_fitting(fits, k) matches Some(r) ==> r < k && fits[r as int] && forall|j: int|
            0 <= j < r ==> !#[trigger] fits[j],
        first_fitting(fits, k) is None ==> forall|j: int| 0 <= j < k ==> !#[trigger] fits[j],
    decreases k,
{
    if k > 0 {
        lemma_first_fitting_exact(fits, k - 1);
    }
}

/// Only the first depth rule that the depth fits decides: the module chosen
/// is the first module carrying that rule's identifier, none when no module
/// carries it (whatever later rules name), and none when the depth fits no
/// rule.
pub proof fn lemma_depth_choice_by_first_fitting_rule(
    fits: Seq<bool>,
    rule_ids: Seq<String>,
    module_ids: Seq<String>,
)
    requires
        fits.len() == rule_ids.len() <= usize::MAX,
        module_ids.len() <= usize::MAX,
    ensures
        (forall|r: int| 0 <= r < fits.len() ==> !#[trigger] fits[r]) ==> spec_module_for_depth(
            fits,
            rule_ids,
            module_ids,
        ) is None,
        forall|r: int|
            0 <= r < fits.len() && #[trigger] fits[r] && (forall|r2: int| 0 <= r2 < r ==> !fits[r2])
                ==> {
                let chosen = spec_module_for_depth(fits, rule_ids, module_ids);
                &&& chosen matches Some(k) ==> k < module_ids.len() && module_ids[k as int]@
                    == rule_ids[r]@ && forall|k2: int| 0 <= k2 < k ==> module_ids[k2]@ != rule_ids[r]@
                &&& chosen is None ==> forall|k: int|
                    0 <= k < module_ids.len() ==> module_ids[k]@ != rule_ids[r]@
            },
{
    lemma_first_fitting_exact(fits, fits.len() as int);
    assert forall|r: int|
        0 <= r < fits.len() && #[trigger] fits[r] && (forall|r2: int| 0 <= r2 < r ==> !fits[r2])
            implies {
            let chosen = spec_module_for_depth(fits, rule_ids, module_ids);
            &&& chosen matches Some(k) ==> k < module_ids.len() && module_ids[k as int]@ == rule_ids[r]@
                && forall|k2: int| 0 <= k2 < k ==> module_ids[k2]@ != rule_ids[r]@
            &&& chosen is None ==> forall|k: int|
                0 <= k < module_ids.len() ==> module_ids[k]@ != rule_ids[r]@
        } by {
        let f = first_fitting(fits, fits.len() as int);
        if f is None {
            assert(!fits[r]);
        }
        let r0 = f->0;
        if (r0 as int) < r {
            assert(!fits[r0 as int]);
        }
        if r < r0 {
            assert(!fits[r]);
        }
        assert(r0 as int == r);
        lemma_first_index_with(module_ids, rule_ids[r]@, module_ids.len() as int);
    }
}

/// The catalog directory: the resolved location next to the workspace when it
/// exists, the relative directory `catalog` otherwise.
pub fn default_catalog_path(resolved: Option<String>) -> (path: String)
    ensures
        path@ == (match resolved {
            Some(p) => p@,
            None => "catalog"@,
        }),
{
    match resolved {
        Some(p) => p,
        None => String::from_str("catalog"),
    }
}

} // verus!
