//! Character-wise comparison of identifiers.
use vstd::prelude::*;

verus! {

/// `a` and `b` agree on their first `k` characters.
pub open spec fn common_prefix(a: Seq<char>, b: Seq<char>, k: int) -> bool {
    0 <= k <= a.len() && k <= b.len() && forall|m: int| 0 <= m < k ==> a[m] == b[m]
}

/// Lexicographic order on character sequences: a proper prefix comes first,
/// otherwise the first differing character decides. For UTF-8 strings this is
/// the order of `str` comparison, since UTF-8 keeps the order of code points.
pub open spec fn seq_lt(a: Seq<char>, b: Seq<char>) -> bool {
    exists|k: int|
        #![trigger common_prefix(a, b, k)]
        common_prefix(a, b, k) && ((k == a.len() && k < b.len()) || (k < a.len() && k < b.len()
            && a[k] < b[k]))
}

/// The length of the longest common prefix, with the facts that pin it.
proof fn lemma_first_difference(a: Seq<char>, b: Seq<char>) -> (k: int)
    ensures
        common_prefix(a, b, k),
        k == a.len() || k == b.len() || a[k] != b[k],
    decreases a.len(),
{
    if a.len() == 0 || b.len() == 0 || a[0] != b[0] {
        0
    } else {
        let k1 = lemma_first_difference(a.drop_first(), b.drop_first());
        assert forall|m: int| 0 <= m < k1 + 1 implies a[m] == b[m] by {
            if m > 0 {
                assert(a[m] == a.drop_first()[m - 1]);
                assert(b[m] == b.drop_first()[m - 1]);
            }
        }
        if k1 < a.drop_first().len() && k1 < b.drop_first().len() {
            assert(a[k1 + 1] == a.drop_first()[k1]);
            assert(b[k1 + 1] == b.drop_first()[k1]);
        }
        k1 + 1
    }
}

/// Exactly one of `a < b`, `a == b`, `b < a` holds.
pub proof fn lemma_seq_lt_trichotomy(a: Seq<char>, b: Seq<char>)
    ensures
        seq_lt(a, b) || a == b || seq_lt(b, a),
        !(seq_lt(a, b) && seq_lt(b, a)),
        seq_lt(a, b) ==> a != b,
{
    let k = lemma_first_difference(a, b);
    assert(common_prefix(b, a, k));
    if k == a.len() && k == b.len() {
        assert(a =~= b);
    } else if k == a.len() {
        assert(seq_lt(a, b));
    } else if k == b.len() {
        assert(seq_lt(b, a));
    } else if a[k] < b[k] {
        assert(seq_lt(a, b));
    } else {
        assert(b[k] < a[k]);
        assert(seq_lt(b, a));
    }
    if seq_lt(a, b) && seq_lt(b, a) {
        let k1 = choose|k1: int|
            #![trigger common_prefix(a, b, k1)]
            common_prefix(a, b, k1) && ((k1 == a.len() && k1 < b.len()) || (k1 < a.len() && k1
                < b.len() && a[k1] < b[k1]));
        let k2 = choose|k2: int|
            #![trigger common_prefix(b, a, k2)]
            common_prefix(b, a, k2) && ((k2 == b.len() && k2 < a.len()) || (k2 < b.len() && k2
                < a.len() && b[k2] < a[k2]));
        if k1 < k2 {
            assert(a[k1] == b[k1]);
        } else if k2 < k1 {
            assert(a[k2] == b[k2]);
        }
    }
    if seq_lt(a, b) && a == b {
        let k1 = choose|k1: int|
            #![trigger common_prefix(a, b, k1)]
            common_prefix(a, b, k1) && ((k1 == a.len() && k1 < b.len()) || (k1 < a.len() && k1
                < b.len() && a[k1] < b[k1]));
    }
}

/// The order is transitive.
pub proof fn lemma_seq_lt_transitive(a: Seq<char>, b: Seq<char>, c: Seq<char>)
    requires
        seq_lt(a, b),
        seq_lt(b, c),
    ensures
        seq_lt(a, c),
{
    let k1 = choose|k1: int|
        #![trigger common_prefix(a, b, k1)]
        common_prefix(a, b, k1) && ((k1 == a.len() && k1 < b.len()) || (k1 < a.len() && k1
            < b.len() && a[k1] < b[k1]));
    let k2 = choose|k2: int|
        #![trigger common_prefix(b, c, k2)]
        common_prefix(b, c, k2) && ((k2 == b.len() && k2 < c.len()) || (k2 < b.len() && k2
            < c.len() && b[k2] < c[k2]));
    let k = if k1 < k2 { k1 } else { k2 };
    assert(common_prefix(a, c, k));
    if k1 < k2 {
        assert(b[k1] == c[k1]);
    } else if k2 < k1 {
        assert(a[k2] == b[k2]);
    }
}

/// Identifiers are ordered by the code points of their characters: at the
/// first position `k` where they differ, the one whose character has the
/// smaller code point comes first; when one is a proper prefix of the other,
/// the shorter comes first.
pub proof fn lemma_seq_lt_by_code_point(a: Seq<char>, b: Seq<char>, k: int)
    requires
        0 <= k <= a.len(),
        k <= b.len(),
        forall|m: int| 0 <= m < k ==> a[m] == b[m],
        k < a.len() && k < b.len() ==> a[k] != b[k],
        k < a.len() || k < b.len(),
    ensures
        k == a.len() ==> seq_lt(a, b),
        k == b.len() ==> !seq_lt(a, b),
        k < a.len() && k < b.len() ==> (seq_lt(a, b) <==> (a[k] as int) < (b[k] as int)),
{
    assert(common_prefix(a, b, k));
    assert(common_prefix(b, a, k));
    lemma_seq_lt_trichotomy(a, b);
    if k == b.len() {
        assert(seq_lt(b, a));
    } else if k < a.len() && (b[k] as int) < (a[k] as int) {
        assert(seq_lt(b, a));
    }
}

/// Whether `a` comes strictly before `b` in lexicographic character order.
pub fn str_less(a: &str, b: &str) -> (res: bool)
    ensures
        res == seq_lt(a@, b@),
{
    let la = a.unicode_len();
    let lb = b.unicode_len();
    let mut k: usize = 0;
    while k < la && k < lb && a.get_char(k) == b.get_char(k)
        invariant
            la == a@.len(),
            lb == b@.len(),
            common_prefix(a@, b@, k as int),
        decreases la - k,
    {
        k += 1;
    }
    proof {
        lemma_seq_lt_trichotomy(a@, b@);
    }
    if k == la {
        if k < lb {
            assert(common_prefix(a@, b@, k as int));
            true
        } else {
            assert(a@ =~= b@);
            false
        }
    } else if k == lb {
        assert(common_prefix(b@, a@, k as int));
        false
    } else {
        let ca = a.get_char(k);
        let cb = b.get_char(k);
        if ca < cb {
            assert(common_prefix(a@, b@, k as int));
            true
        } else {
            assert(common_prefix(b@, a@, k as int));
            false
        }
    }
}

/// Whether `a` and `b` hold the same characters.
pub fn str_equal(a: &str, b: &str) -> (res: bool)
    ensures
        res == (a@ == b@),
{
    let la = a.unicode_len();
    let lb = b.unicode_len();
    if la != lb {
        return false;
    }
    let mut k: usize = 0;
    while k < la
        invariant
            la == a@.len(),
            lb == b@.len(),
            la == lb,
            k <= la,
            common_prefix(a@, b@, k as int),
        decreases la - k,
    {
        if a.get_char(k) != b.get_char(k) {
            return false;
        }
        k += 1;
    }
    assert(a@ =~= b@);
    true
}

} // verus!
