//! The allocation engine: which venues a deposit goes to, and how much each gets.
//!
//! Venues are ranked by score, highest first; venues of equal score keep their
//! catalog order. A deposit goes to the first three eligible venues of that
//! ranking, or to all of them when fewer are eligible.

use vstd::prelude::*;
use crate::model::{Position, ProtocolInfo, ProtocolRegistry, YieldAggregatorError, MAX_RISK};

verus! {

/// The score of a venue: its apy weighted by how far its risk is below the maximum.
pub open spec fn score(p: ProtocolInfo) -> int {
    p.apy as int * (MAX_RISK as int - p.risk_score as int)
}

/// The chain preference as a mathematical value.
pub open spec fn chain_filter(preferred_chains: Option<Vec<u32>>) -> Option<Seq<u32>> {
    match preferred_chains {
        Some(chains) => Some(chains@),
        None => None,
    }
}

/// An optional index as a mathematical value.
pub open spec fn index_of(i: Option<usize>) -> Option<int> {
    match i {
        Some(i) => Some(i as int),
        None => None,
    }
}

/// Whether a venue passes the risk filter and, where chains are preferred, the chain filter.
pub open spec fn eligible(p: ProtocolInfo, risk_tolerance: u8, chains: Option<Seq<u32>>) -> bool {
    &&& p.risk_score <= risk_tolerance
    &&& chains matches Some(cs) ==> cs.contains(p.chain_id)
}

/// Whether venue `i` of the catalog comes before venue `j` in the ranking:
/// by higher score, and by catalog order among equal scores.
pub open spec fn ranks_before(catalog: Seq<ProtocolInfo>, i: int, j: int) -> bool {
    score(catalog[i]) > score(catalog[j]) || (score(catalog[i]) == score(catalog[j]) && i < j)
}

/// Whether venue `i` is eligible and ranked after `prev`, where there is one.
pub open spec fn candidate(
    catalog: Seq<ProtocolInfo>,
    risk_tolerance: u8,
    chains: Option<Seq<u32>>,
    prev: Option<int>,
    i: int,
) -> bool {
    &&& 0 <= i < catalog.len()
    &&& eligible(catalog[i], risk_tolerance, chains)
    &&& prev matches Some(p) ==> ranks_before(catalog, p, i)
}

/// Whether `best` is the first candidate of the ranking.
pub open spec fn is_next(
    catalog: Seq<ProtocolInfo>,
    risk_tolerance: u8,
    chains: Option<Seq<u32>>,
    prev: Option<int>,
    best: int,
) -> bool {
    &&& candidate(catalog, risk_tolerance, chains, prev, best)
    &&& forall|i: int| #[trigger]
        candidate(catalog, risk_tolerance, chains, prev, i) ==> i == best || ranks_before(
            catalog,
            best,
            i,
        )
}

/// The eligible venue that follows `prev` in the ranking (the first of the
/// ranking where `prev` is `None`), if there is one.
pub open spec fn next_pick(
    catalog: Seq<ProtocolInfo>,
    risk_tolerance: u8,
    chains: Option<Seq<u32>>,
    prev: Option<int>,
) -> Option<int> {
    if exists|b: int| is_next(catalog, risk_tolerance, chains, prev, b) {
        Some(choose|b: int| is_next(catalog, risk_tolerance, chains, prev, b))
    } else {
        None
    }
}

/// The catalog indices of the selected venues: the first three eligible
/// venues of the ranking, in ranking order, or all of them when there are fewer.
pub open spec fn selection(
    catalog: Seq<ProtocolInfo>,
    risk_tolerance: u8,
    chains: Option<Seq<u32>>,
) -> Seq<int> {
    match next_pick(catalog, risk_tolerance, chains, None) {
        None => seq![],
        Some(a) => match next_pick(catalog, risk_tolerance, chains, Some(a)) {
            None => seq![a],
            Some(b) => match next_pick(catalog, risk_tolerance, chains, Some(b)) {
                None => seq![a, b],
                Some(c) => seq![a, b, c],
            },
        },
    }
}

/// The share of `amount` that the venue at place `k` of `n` selected venues
/// receives: an equal part, and the remainder on top for the first.
pub open spec fn share(amount: u64, n: int, k: int) -> int {
    amount as int / n + if k == 0 {
        amount as int % n
    } else {
        0
    }
}

/// The positions opened at `now` for the selected venues.
pub open spec fn positions_for(
    catalog: Seq<ProtocolInfo>,
    selected: Seq<int>,
    amount: u64,
    now: i64,
) -> Seq<Position> {
    Seq::new(
        selected.len(),
        |k: int|
            Position {
                chain_id: catalog[selected[k]].chain_id,
                protocol_id: catalog[selected[k]].protocol_id,
                amount: share(amount, selected.len() as int, k) as u64,
                start_time: now,
                reward_accrued: 0,
            },
    )
}

/// What an allocation request yields: the positions for the selected venues,
/// or `NoSuitableProtocols` where no venue is eligible.
pub open spec fn allocation(
    catalog: Seq<ProtocolInfo>,
    amount: u64,
    risk_tolerance: u8,
    chains: Option<Seq<u32>>,
    now: i64,
) -> Result<Seq<Position>, YieldAggregatorError> {
    let selected = selection(catalog, risk_tolerance, chains);
    if selected.len() == 0 {
        Err(YieldAggregatorError::NoSuitableProtocols)
    } else {
        Ok(positions_for(catalog, selected, amount, now))
    }
}

/// The sum of the amounts of a list of positions.
pub open spec fn total_amount(positions: Seq<Position>) -> int
    decreases positions.len(),
{
    if positions.len() == 0 {
        0
    } else {
        total_amount(positions.drop_last()) + positions.last().amount
    }
}

/// The first candidate of the ranking is unique.
pub proof fn lemma_next_is_unique(
    catalog: Seq<ProtocolInfo>,
    risk_tolerance: u8,
    chains: Option<Seq<u32>>,
    prev: Option<int>,
    best: int,
)
    requires
        is_next(catalog, risk_tolerance, chains, prev, best),
    ensures
        next_pick(catalog, risk_tolerance, chains, prev) == Some(best),
{
    let chosen = choose|b: int| is_next(catalog, risk_tolerance, chains, prev, b);
    assert(candidate(catalog, risk_tolerance, chains, prev, chosen));
    assert(candidate(catalog, risk_tolerance, chains, prev, best));
}

/// Where no venue is a candidate, there is no next pick.
pub proof fn lemma_no_candidate_no_pick(
    catalog: Seq<ProtocolInfo>,
    risk_tolerance: u8,
    chains: Option<Seq<u32>>,
    prev: Option<int>,
)
    requires
        forall|i: int| !candidate(catalog, risk_tolerance, chains, prev, i),
    ensures
        next_pick(catalog, risk_tolerance, chains, prev) is None,
{
}

/// Whether `id` is one of `chains`.
fn chain_listed(chains: &Vec<u32>, id: u32) -> (found: bool)
    ensures
        found == chains@.contains(id),
{
    let mut i: usize = 0;
    while i < chains.len()
        invariant
            i <= chains.len(),
            forall|k: int| 0 <= k < i ==> chains@[k] != id,
        decreases chains.len() - i,
    {
        if chains[i] == id {
            return true;
        }
        i += 1;
    }
    false
}

/// Whether a venue passes the risk filter and the chain filter.
fn is_eligible(p: &ProtocolInfo, risk_tolerance: u8, preferred_chains: &Option<Vec<u32>>) -> (ok:
    bool)
    ensures
        ok == eligible(*p, risk_tolerance, chain_filter(*preferred_chains)),
{
    if p.risk_score > risk_tolerance {
        return false;
    }
    match preferred_chains {
        Some(chains) => chain_listed(chains, p.chain_id),
        None => true,
    }
}

/// The score of a venue whose risk is within the scale.
fn score_of(p: &ProtocolInfo) -> (s: u64)
    requires
        p.risk_score <= MAX_RISK,
    ensures
        s == score(*p),
{
    let weight: u64 = (MAX_RISK - p.risk_score) as u64;
    assert(p.apy as int * weight as int <= 0xffff_ffff * 10) by (nonlinear_arith)
        requires
            0 <= p.apy as int <= 0xffff_ffff,
            0 <= weight as int <= 10,
    ;
    (p.apy as u64) * weight
}

/// Finds the eligible venue that follows `prev` in the ranking.
fn pick_next(
    catalog: &Vec<ProtocolInfo>,
    risk_tolerance: u8,
    preferred_chains: &Option<Vec<u32>>,
    prev: Option<usize>,
) -> (pick: Option<usize>)
    requires
        risk_tolerance <= MAX_RISK,
        prev matches Some(p) ==> p < catalog@.len() && catalog@[p as int].risk_score <= MAX_RISK,
    ensures
        pick matches Some(b) ==> b < catalog@.len() && next_pick(
            catalog@,
            risk_tolerance,
            chain_filter(*preferred_chains),
            index_of(prev),
        ) == Some(b as int) && catalog@[b as int].risk_score <= MAX_RISK,
        pick is None ==> next_pick(
            catalog@,
            risk_tolerance,
            chain_filter(*preferred_chains),
            index_of(prev),
        ) is None,
{
    let ghost chains = chain_filter(*preferred_chains);
    let ghost before = index_of(prev);
    let mut best: Option<usize> = None;
    let mut best_score: u64 = 0;
    let mut prev_score: u64 = 0;
    if let Some(p) = prev {
        prev_score = score_of(&catalog[p]);
    }
    let mut i: usize = 0;
    while i < catalog.len()
        invariant
            i <= catalog@.len(),
            risk_tolerance <= MAX_RISK,
            chains == chain_filter(*preferred_chains),
            before == index_of(prev),
            prev matches Some(p) ==> p < catalog@.len() && prev_score == score(catalog@[p as int]),
            best matches Some(b) ==> b < i && best_score == score(catalog@[b as int]) && candidate(
                catalog@,
                risk_tolerance,
                chains,
                before,
                b as int,
            ),
            best matches Some(b) ==> forall|k: int|
                0 <= k < i && #[trigger] candidate(catalog@, risk_tolerance, chains, before, k)
                    ==> k == b || ranks_before(catalog@, b as int, k),
            best is None ==> forall|k: int|
                0 <= k < i ==> !#[trigger] candidate(catalog@, risk_tolerance, chains, before, k),
        decreases catalog@.len() - i,
    {
        let p = &catalog[i];
        if is_eligible(p, risk_tolerance, preferred_chains) {
            let s = score_of(p);
            let follows = match prev {
                Some(q) => prev_score > s || (prev_score == s && q < i),
                None => true,
            };
            if follows {
                match best {
                    Some(_) => {
                        if s > best_score {
                            best = Some(i);
                            best_score = s;
                        }
                    },
                    None => {
                        best = Some(i);
                        best_score = s;
                    },
                }
            }
        }
        i += 1;
    }
    proof {
        match best {
            Some(b) => {
                lemma_next_is_unique(catalog@, risk_tolerance, chains, before, b as int);
            },
            None => {
                lemma_no_candidate_no_pick(catalog@, risk_tolerance, chains, before);
            },
        }
    }
    best
}

/// The shares of a deposit add up to the deposit: an allocation holds one to
/// three positions whose amounts sum to the requested amount.
pub proof fn lemma_allocation_conserves_amount(
    catalog: Seq<ProtocolInfo>,
    amount: u64,
    risk_tolerance: u8,
    chains: Option<Seq<u32>>,
    now: i64,
)
    ensures
        allocation(catalog, amount, risk_tolerance, chains, now) matches Ok(positions) ==> 1
            <= positions.len() <= 3 && total_amount(positions) == amount,
{
    let selected = selection(catalog, risk_tolerance, chains);
    if selected.len() > 0 {
        let positions = positions_for(catalog, selected, amount, now);
        let n = selected.len() as int;
        assert(1 <= n <= 3);
        assert(amount as int == n * (amount as int / n) + amount as int % n) by {
            vstd::arithmetic::div_mod::lemma_fundamental_div_mod(amount as int, n);
        }
        assert(forall|k: int| 0 <= k < n ==> 0 <= #[trigger] share(amount, n, k) <= amount);
        reveal_with_fuel(total_amount, 4);
        if n == 1 {
            assert(total_amount(positions) == positions[0].amount);
        } else if n == 2 {
            assert(positions.drop_last().len() == 1);
            assert(positions.drop_last()[0] == positions[0]);
            assert(total_amount(positions) == positions[0].amount + positions[1].amount);
        } else {
            let two = positions.drop_last();
            assert(two.len() == 2);
            assert(two.drop_last().len() == 1);
            assert(two.drop_last()[0] == positions[0]);
            assert(two.last() == positions[1]);
            assert(total_amount(positions) == positions[0].amount + positions[1].amount
                + positions[2].amount);
        }
    }
}

/// Where no venue within the risk tolerance lies on a preferred chain, the
/// request is refused with `NoSuitableProtocols`.
pub proof fn lemma_disjoint_chains_are_refused(
    catalog: Seq<ProtocolInfo>,
    amount: u64,
    risk_tolerance: u8,
    preferred: Seq<u32>,
    now: i64,
)
    requires
        forall|i: int|
            0 <= i < catalog.len() && catalog[i].risk_score <= risk_tolerance
                ==> !preferred.contains(#[trigger] catalog[i].chain_id),
    ensures
        allocation(catalog, amount, risk_tolerance, Some(preferred), now) == Err::<
            Seq<Position>,
            YieldAggregatorError,
        >(YieldAggregatorError::NoSuitableProtocols),
{
    assert forall|i: int| !candidate(catalog, risk_tolerance, Some(preferred), None, i) by {
        if 0 <= i < catalog.len() && catalog[i].risk_score <= risk_tolerance {
            assert(!preferred.contains(catalog[i].chain_id));
        }
    }
    lemma_no_candidate_no_pick(catalog, risk_tolerance, Some(preferred), None);
}

/// An allocation is refused exactly when no venue of the catalog is eligible.
pub proof fn lemma_refused_iff_none_eligible(
    catalog: Seq<ProtocolInfo>,
    amount: u64,
    risk_tolerance: u8,
    chains: Option<Seq<u32>>,
    now: i64,
)
    ensures
        allocation(catalog, amount, risk_tolerance, chains, now) is Err <==> forall|i: int|
            0 <= i < catalog.len() ==> !eligible(#[trigger] catalog[i], risk_tolerance, chains),
{
    if allocation(catalog, amount, risk_tolerance, chains, now) is Err {
        assert(next_pick(catalog, risk_tolerance, chains, None) is None);
        assert forall|i: int| 0 <= i < catalog.len() implies !eligible(
            #[trigger] catalog[i],
            risk_tolerance,
            chains,
        ) by {
            if eligible(catalog[i], risk_tolerance, chains) {
                lemma_some_candidate_some_pick(catalog, risk_tolerance, chains, None, i);
            }
        }
    } else {
        let a = next_pick(catalog, risk_tolerance, chains, None).unwrap();
        assert(is_next(catalog, risk_tolerance, chains, None, a));
        assert(eligible(catalog[a], risk_tolerance, chains));
    }
}

/// Where some venue is a candidate, the ranking has a first candidate.
pub proof fn lemma_some_candidate_some_pick(
    catalog: Seq<ProtocolInfo>,
    risk_tolerance: u8,
    chains: Option<Seq<u32>>,
    prev: Option<int>,
    i: int,
)
    requires
        candidate(catalog, risk_tolerance, chains, prev, i),
    ensures
        next_pick(catalog, risk_tolerance, chains, prev) is Some,
{
    let best = first_among(catalog, risk_tolerance, chains, prev, catalog.len() as int);
    lemma_first_among(catalog, risk_tolerance, chains, prev, catalog.len() as int);
    assert(best is Some);
    assert(is_next(catalog, risk_tolerance, chains, prev, best.unwrap()));
}

/// The first candidate of the ranking among the venues before index `n`.
pub open spec fn first_among(
    catalog: Seq<ProtocolInfo>,
    risk_tolerance: u8,
    chains: Option<Seq<u32>>,
    prev: Option<int>,
    n: int,
) -> Option<int>
    decreases n,
{
    if n <= 0 {
        None
    } else {
        let rest = first_among(catalog, risk_tolerance, chains, prev, n - 1);
        if !candidate(catalog, risk_tolerance, chains, prev, n - 1) {
            rest
        } else {
            match rest {
                Some(b) => if score(catalog[n - 1]) > score(catalog[b]) {
                    Some(n - 1)
                } else {
                    rest
                },
                None => Some(n - 1),
            }
        }
    }
}

/// `first_among` finds a candidate that no other candidate before `n` precedes,
/// and finds one whenever there is a candidate before `n`.
pub proof fn lemma_first_among(
    catalog: Seq<ProtocolInfo>,
    risk_tolerance: u8,
    chains: Option<Seq<u32>>,
    prev: Option<int>,
    n: int,
)
    requires
        n <= catalog.len(),
    ensures
        first_among(catalog, risk_tolerance, chains, prev, n) matches Some(b) ==> b < n
            && candidate(catalog, risk_tolerance, chains, prev, b) && forall|k: int|
            k < n && #[trigger] candidate(catalog, risk_tolerance, chains, prev, k) ==> k == b
                || ranks_before(catalog, b, k),
        first_among(catalog, risk_tolerance, chains, prev, n) is None ==> forall|k: int|
            k < n ==> !#[trigger] candidate(catalog, risk_tolerance, chains, prev, k),
    decreases n,
{
    if n > 0 {
        lemma_first_among(catalog, risk_tolerance, chains, prev, n - 1);
    }
}

/// The selection is the head of the ranking of the eligible venues: it holds
/// at most three venues, each eligible, in ranking order; and every eligible
/// venue that it leaves out ranks after the third selected one.
pub proof fn lemma_selection_heads_ranking(
    catalog: Seq<ProtocolInfo>,
    risk_tolerance: u8,
    chains: Option<Seq<u32>>,
)
    ensures
        selection(catalog, risk_tolerance, chains).len() <= 3,
        forall|k: int|
            0 <= k < selection(catalog, risk_tolerance, chains).len() ==> {
                &&& 0 <= #[trigger] selection(catalog, risk_tolerance, chains)[k] < catalog.len()
                &&& eligible(
                    catalog[selection(catalog, risk_tolerance, chains)[k]],
                    risk_tolerance,
                    chains,
                )
            },
        forall|j: int, k: int|
            0 <= j < k < selection(catalog, risk_tolerance, chains).len() ==> ranks_before(
                catalog,
                #[trigger] selection(catalog, risk_tolerance, chains)[j],
                #[trigger] selection(catalog, risk_tolerance, chains)[k],
            ),
        forall|i: int|
            0 <= i < catalog.len() && eligible(#[trigger] catalog[i], risk_tolerance, chains) ==> {
                ||| selection(catalog, risk_tolerance, chains).contains(i)
                ||| selection(catalog, risk_tolerance, chains).len() == 3 && ranks_before(
                    catalog,
                    selection(catalog, risk_tolerance, chains)[2],
                    i,
                )
            },
{
    let selected = selection(catalog, risk_tolerance, chains);
    let first = next_pick(catalog, risk_tolerance, chains, None);
    if first is Some {
        let a = first.unwrap();
        assert(is_next(catalog, risk_tolerance, chains, None, a));
        let second = next_pick(catalog, risk_tolerance, chains, Some(a));
        if second is Some {
            let b = second.unwrap();
            assert(is_next(catalog, risk_tolerance, chains, Some(a), b));
            let third = next_pick(catalog, risk_tolerance, chains, Some(b));
            if third is Some {
                let c = third.unwrap();
                assert(is_next(catalog, risk_tolerance, chains, Some(b), c));
                assert(selected =~= seq![a, b, c]);
            } else {
                assert(selected =~= seq![a, b]);
            }
        } else {
            assert(selected =~= seq![a]);
        }
    } else {
        assert(selected =~= seq![]);
    }
    assert forall|i: int|
        0 <= i < catalog.len() && eligible(
            #[trigger] catalog[i],
            risk_tolerance,
            chains,
        ) implies selected.contains(i) || (selected.len() == 3 && ranks_before(
        catalog,
        selected[2],
        i,
    )) by {
        assert(candidate(catalog, risk_tolerance, chains, None, i));
        lemma_some_candidate_some_pick(catalog, risk_tolerance, chains, None, i);
        let a = first.unwrap();
        if i == a {
            assert(selected[0] == i);
        } else {
            assert(candidate(catalog, risk_tolerance, chains, Some(a), i));
            lemma_some_candidate_some_pick(catalog, risk_tolerance, chains, Some(a), i);
            let b = next_pick(catalog, risk_tolerance, chains, Some(a)).unwrap();
            if i == b {
                assert(selected[1] == i);
            } else {
                assert(candidate(catalog, risk_tolerance, chains, Some(b), i));
                lemma_some_candidate_some_pick(catalog, risk_tolerance, chains, Some(b), i);
                let c = next_pick(catalog, risk_tolerance, chains, Some(b)).unwrap();
                if i == c {
                    assert(selected[2] == i);
                }
            }
        }
    }
}

/// Splits `amount` over the best venues of the registry's catalog.
///
/// Venues above the risk tolerance are left out, and so are venues off the
/// preferred chains where a preference is given. The three highest-scoring
/// of the rest (all of them, where fewer are left) each get an equal share
/// and the first gets the remainder too. Every position starts at `now` with
/// no reward accrued.
pub fn optimize_yield_allocation(
    amount: u64,
    risk_tolerance: u8,
    preferred_chains: Option<Vec<u32>>,
    protocol_registry: &ProtocolRegistry,
    now: i64,
) -> (result: Result<Vec<Position>, YieldAggregatorError>)
    requires
        risk_tolerance <= MAX_RISK,
    ensures
        result matches Ok(positions) ==> allocation(
            protocol_registry.supported_protocols@,
            amount,
            risk_tolerance,
            chain_filter(preferred_chains),
            now,
        ) == Ok::<Seq<Position>, YieldAggregatorError>(positions@),
        result matches Err(e) ==> allocation(
            protocol_registry.supported_protocols@,
            amount,
            risk_tolerance,
            chain_filter(preferred_chains),
            now,
        ) == Err::<Seq<Position>, YieldAggregatorError>(e),
        result matches Ok(positions) ==> 1 <= positions@.len() <= 3 && total_amount(positions@)
            == amount,
        result is Err <==> forall|i: int|
            0 <= i < protocol_registry.supported_protocols@.len() ==> !eligible(
                #[trigger] protocol_registry.supported_protocols@[i],
                risk_tolerance,
                chain_filter(preferred_chains),
            ),
{
    let catalog = &protocol_registry.supported_protocols;
    let ghost chains = chain_filter(preferred_chains);
    proof {
        lemma_allocation_conserves_amount(catalog@, amount, risk_tolerance, chains, now);
        lemma_refused_iff_none_eligible(catalog@, amount, risk_tolerance, chains, now);
    }
    let mut selected: Vec<usize> = Vec::new();
    let first = pick_next(catalog, risk_tolerance, &preferred_chains, None);
    match first {
        None => {
            return Err(YieldAggregatorError::NoSuitableProtocols);
        },
        Some(a) => {
            selected.push(a);
            match pick_next(catalog, risk_tolerance, &preferred_chains, Some(a)) {
                None => {},
                Some(b) => {
                    selected.push(b);
                    match pick_next(catalog, risk_tolerance, &preferred_chains, Some(b)) {
                        None => {},
                        Some(c) => {
                            selected.push(c);
                        },
                    }
                },
            }
        },
    }
    let ghost chosen = selection(catalog@, risk_tolerance, chains);
    assert(selected@.len() == chosen.len());
    assert(forall|k: int| 0 <= k < chosen.len() ==> #[trigger] selected@[k] as int == chosen[k]);
    let count: u64 = selected.len() as u64;
    let base: u64 = amount / count;
    let remainder: u64 = amount % count;
    assert(base as int + remainder as int <= amount as int) by (nonlinear_arith)
        requires
            base as int == amount as int / count as int,
            remainder as int == amount as int % count as int,
            1 <= count as int,
            0 <= amount as int,
    ;
    let mut positions: Vec<Position> = Vec::new();
    let mut k: usize = 0;
    while k < selected.len()
        invariant
            k <= selected@.len(),
            selected@.len() == chosen.len(),
            count as int == chosen.len(),
            1 <= count <= 3,
            base as int == amount as int / count as int,
            remainder as int == amount as int % count as int,
            base + remainder <= amount,
            forall|j: int| 0 <= j < chosen.len() ==> #[trigger] selected@[j] as int == chosen[j],
            forall|j: int| 0 <= j < selected@.len() ==> #[trigger] selected@[j] < catalog@.len(),
            positions@.len() == k,
            forall|j: int|
                0 <= j < k ==> positions@[j] == positions_for(catalog@, chosen, amount, now)[j],
        decreases selected@.len() - k,
    {
        let venue = &catalog[selected[k]];
        let extra: u64 = if k == 0 {
            remainder
        } else {
            0
        };
        positions.push(
            Position {
                chain_id: venue.chain_id,
                protocol_id: venue.protocol_id,
                amount: base + extra,
                start_time: now,
                reward_accrued: 0,
            },
        );
        k += 1;
    }
    assert(positions@ =~= positions_for(catalog@, chosen, amount, now));
    Ok(positions)
}

} // verus!
