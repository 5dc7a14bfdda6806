//! Electrical planning: greedy split of placed modules into series chains,
//! and the currency of a cost estimate.
use vstd::prelude::*;

verus! {

/// A series chain: the placements `start..end` (in placement order) wired as
/// chain number `chain_id`.
#[derive(Clone, Copy, PartialEq, Eq, Debug)]
pub struct ChainRange {
    pub chain_id: u32,
    pub start: usize,
    pub end: usize,
}

/// Smaller of two integers.
pub open spec fn min_int(a: int, b: int) -> int {
    if a < b {
        a
    } else {
        b
    }
}

/// Placement `p` lies in one of the chains.
pub open spec fn in_some_chain(chains: Seq<ChainRange>, p: int) -> bool {
    exists|g: int| 0 <= g < chains.len() && #[trigger] chains[g].start <= p < chains[g].end
}

/// Splits `n` placements, in order, into chains of at most `max_series`
/// modules: chain `g` (numbered from 1) takes placements `g * max_series` up
/// to the next multiple or the end. No placements give no chains, whatever
/// the limit.
pub fn chain_ranges(n: usize, max_series: usize) -> (chains: Vec<ChainRange>)
    requires
        max_series > 0 || n == 0,
        n <= (u32::MAX - 1) * max_series,
    ensures
        (chains.len() == 0) == (n == 0),
        chains.len() > 0 ==> chains[chains.len() - 1].end == n,
        forall|g: int|
            0 <= g < chains.len() ==> {
                &&& #[trigger] chains[g].chain_id == g + 1
                &&& chains[g].start == g * max_series
                &&& chains[g].end == min_int(n as int, (g + 1) * max_series)
                &&& chains[g].start < chains[g].end
                &&& chains[g].end - chains[g].start <= max_series
            },
        forall|g1: int, g2: int| 0 <= g1 < g2 < chains.len() ==> chains[g1].end <= chains[g2].start,
        forall|p: int| 0 <= p < n ==> #[trigger] in_some_chain(chains@, p),
{
    let mut chains: Vec<ChainRange> = Vec::new();
    if n == 0 {
        return chains;
    }
    let mut chain_id: u32 = 1;
    let mut idx: usize = 0;
    while idx < n
        invariant
            max_series > 0,
            n <= (u32::MAX - 1) * max_series,
            idx <= n,
            chain_id == chains.len() + 1,
            idx == min_int(n as int, chains.len() * max_series),
            chains.len() > 0 ==> (chains.len() - 1) * max_series < n,
            chains.len() > 0 ==> chains[chains.len() - 1].end == idx,
            forall|g1: int, g2: int| 0 <= g1 < g2 < chains.len() ==> chains[g1].end <= chains[g2].start,
            forall|p: int| 0 <= p < idx ==> #[trigger] in_some_chain(chains@, p),
            forall|g: int|
                0 <= g < chains.len() ==> {
                    &&& #[trigger] chains[g].chain_id == g + 1
                    &&& chains[g].start == g * max_series
                    &&& chains[g].end == min_int(n as int, (g + 1) * max_series)
                    &&& chains[g].start < chains[g].end
                    &&& chains[g].end - chains[g].start <= max_series
                },
        decreases n - idx,
    {
        let g = chains.len();
        proof {
            assert(idx == g * max_series);
            vstd::arithmetic::mul::lemma_mul_is_distributive_add_other_way(max_series as int, g as int, 1);
            vstd::arithmetic::mul::lemma_mul_is_commutative(max_series as int, g as int);
            vstd::arithmetic::mul::lemma_mul_is_commutative(max_series as int, (g + 1) as int);
            if g + 1 >= u32::MAX {
                vstd::arithmetic::mul::lemma_mul_inequality((u32::MAX - 1) as int, g as int, max_series as int);
            }
        }
        let end = if n - idx <= max_series {
            n
        } else {
            idx + max_series
        };
        let ghost old_chains = chains@;
        chains.push(ChainRange { chain_id, start: idx, end });
        chain_id += 1;
        idx = end;
        proof {
            vstd::arithmetic::mul::lemma_mul_basics(max_series as int);
            assert((g + 1) * max_series == g * max_series + max_series);
            assert(chains[g as int].end == min_int(n as int, (g + 1) * max_series));
            assert(chains[g as int].chain_id == g + 1);
            assert forall|g1: int, g2: int| 0 <= g1 < g2 < chains.len() implies chains[g1].end <= chains[g2].start by {
                assert(chains@[g1] == old_chains[g1]);
                assert(old_chains[g1].chain_id == g1 + 1);
                if g2 == g {
                    vstd::arithmetic::mul::lemma_mul_inequality(g1 + 1, g as int, max_series as int);
                    assert(chains@[g1].end <= (g1 + 1) * max_series);
                } else {
                    assert(chains@[g2] == old_chains[g2]);
                }
            }
            assert forall|p: int| 0 <= p < idx implies #[trigger] in_some_chain(chains@, p) by {
                if p >= chains[g as int].start {
                    assert(chains@[g as int].start <= p < chains@[g as int].end);
                } else {
                    assert(in_some_chain(old_chains, p));
                    let g2 = choose|g2: int| 0 <= g2 < old_chains.len() && #[trigger] old_chains[g2].start <= p < old_chains[g2].end;
                    assert(chains@[g2] == old_chains[g2]);
                }
            }
        }
    }
    chains
}

/// Currency of a cost estimate: the module's own currency, roubles when it
/// names none.
pub fn cost_currency(currency: &Option<String>) -> (res: String)
    ensures
        res@ == (match currency {
            Some(c) => c@,
            None => "RUB"@,
        }),
{
    match currency {
        Some(c) => c.clone(),
        None => String::from_str("RUB"),
    }
}

} // verus!
