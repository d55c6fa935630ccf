use crate::constraints::{excluded, exclusion_index, Constraint};
use crate::matching::{
    disjoint, forbids, is_partial_matching, is_perfect_matching, lemma_members_len, matched, members,
    pair_allowed, pair_has, Pair,
};
use crate::session::same_pair;
use crate::solver::{has_partner, plausible};
use vstd::prelude::*;

verus! {

/// In a perfect matching of distinct participants, every participant occurs
/// in exactly one pair, and there are half as many pairs as participants.
pub proof fn lemma_matching_validity(parts: Seq<u32>, idx: Map<u32, Set<u32>>, sol: Seq<Pair>)
    requires
        parts.no_duplicates(),
        is_perfect_matching(parts, idx, sol),
    ensures
        forall|x: u32| #[trigger] parts.contains(x) ==> exists|i: int| 0 <= i < sol.len() && #[trigger] pair_has(sol[i], x),
        forall|x: u32, i: int, j: int|
            0 <= i < sol.len() && 0 <= j < sol.len() && #[trigger] pair_has(sol[i], x) && #[trigger] pair_has(sol[j], x)
                ==> i == j,
        2 * sol.len() == parts.len(),
{
    lemma_members_len(parts, idx, sol);
    parts.unique_seq_to_set();
    assert(members(sol) =~= parts.to_set()) by {
        assert forall|x: u32| parts.to_set().contains(x) implies members(sol).contains(x) by {
            assert(parts.contains(x));
        }
    }
    assert forall|x: u32, i: int, j: int|
        0 <= i < sol.len() && 0 <= j < sol.len() && #[trigger] pair_has(sol[i], x) && #[trigger] pair_has(sol[j], x)
            implies i == j by {
        if i != j {
            assert(disjoint(sol[i], sol[j]));
        }
    }
}

/// No returned pair joins two participants that an exclusion keeps apart, in
/// either order.
pub proof fn lemma_exclusions_respected(parts: Seq<u32>, cs: Seq<Constraint>, sol: Seq<Pair>)
    requires
        is_perfect_matching(parts, exclusion_index(parts, cs), sol),
    ensures
        forall|i: int|
            0 <= i < sol.len() ==> !excluded(cs, #[trigger] sol[i].0, sol[i].1) && !excluded(cs, sol[i].1, sol[i].0),
{
    assert forall|i: int| 0 <= i < sol.len() implies !excluded(cs, #[trigger] sol[i].0, sol[i].1) && !excluded(
        cs,
        sol[i].1,
        sol[i].0,
    ) by {
        assert(pair_allowed(parts, exclusion_index(parts, cs), sol[i]));
    }
}

/// No participant is ever paired with itself.
pub proof fn lemma_no_self_pairs(parts: Seq<u32>, idx: Map<u32, Set<u32>>, sol: Seq<Pair>)
    requires
        is_partial_matching(parts, idx, sol),
    ensures
        forall|i: int| 0 <= i < sol.len() ==> #[trigger] sol[i].0 != sol[i].1,
{
    assert forall|i: int| 0 <= i < sol.len() implies #[trigger] sol[i].0 != sol[i].1 by {
        assert(pair_allowed(parts, idx, sol[i]));
    }
}

/// When the plausibility test fails on a partial matching and the set of its
/// uncommitted participants, no extension of it is a perfect matching.
pub proof fn lemma_pruning_sound(
    parts: Seq<u32>,
    idx: Map<u32, Set<u32>>,
    sol: Seq<Pair>,
    unsolved: Seq<u32>,
    ext: Seq<Pair>,
)
    requires
        is_partial_matching(parts, idx, sol),
        forall|x: u32| unsolved.contains(x) <==> (parts.contains(x) && !matched(sol, x)),
        !plausible(idx, unsolved, sol),
    ensures
        !is_perfect_matching(parts, idx, sol + ext),
{
    let full = sol + ext;
    if is_perfect_matching(parts, idx, full) {
        let u = choose|u: u32| #[trigger] unsolved.contains(u) && !has_partner(idx, unsolved, sol, u);
        assert(matched(full, u));
        let i = choose|i: int| 0 <= i < full.len() && #[trigger] pair_has(full[i], u);
        if i < sol.len() {
            assert(full[i] == sol[i]);
            assert(matched(sol, u));
        }
        let p = full[i];
        let v = if p.0 == u { p.1 } else { p.0 };
        assert(pair_allowed(parts, idx, p));
        assert(!matched(sol, v)) by {
            if matched(sol, v) {
                let j = choose|j: int| 0 <= j < sol.len() && #[trigger] pair_has(sol[j], v);
                assert(full[j] == sol[j]);
                assert(disjoint(full[i], full[j]));
            }
        }
        assert(unsolved.contains(v));
        assert(v != u && !forbids(idx, u, v));
        assert(has_partner(idx, unsolved, sol, u));
    }
}

/// When every two distinct participants are excluded from each other, a
/// non-empty population has no perfect matching.
pub proof fn lemma_all_excluded_unsolvable(parts: Seq<u32>, cs: Seq<Constraint>, sol: Seq<Pair>)
    requires
        parts.len() > 0,
        forall|a: u32, b: u32| parts.contains(a) && parts.contains(b) && a != b ==> #[trigger] excluded(cs, a, b),
    ensures
        !is_perfect_matching(parts, exclusion_index(parts, cs), sol),
{
    let idx = exclusion_index(parts, cs);
    if is_perfect_matching(parts, idx, sol) {
        assert(parts.contains(parts[0]));
        assert(matched(sol, parts[0]));
        let i = choose|i: int| 0 <= i < sol.len() && #[trigger] pair_has(sol[i], parts[0]);
        assert(pair_allowed(parts, idx, sol[i]));
        assert(excluded(cs, sol[i].0, sol[i].1));
        assert(forbids(idx, sol[i].0, sol[i].1));
    }
}

/// Whether `p` is, up to order, one of the pairs of `m`.
pub open spec fn among(m: Seq<Pair>, p: Pair) -> bool {
    exists|k: int| 0 <= k < m.len() && same_pair(#[trigger] m[k], p)
}

/// When the only allowed pairs are those of a perfect matching `m`, every
/// perfect matching consists of pairs of `m`.
pub proof fn lemma_forced_matching(parts: Seq<u32>, idx: Map<u32, Set<u32>>, m: Seq<Pair>, sol: Seq<Pair>)
    requires
        is_perfect_matching(parts, idx, m),
        forall|a: u32, b: u32|
            parts.contains(a) && parts.contains(b) && a != b && !#[trigger] forbids(idx, a, b) ==> among(m, (a, b)),
        is_perfect_matching(parts, idx, sol),
    ensures
        forall|i: int| 0 <= i < sol.len() ==> among(m, #[trigger] sol[i]),
{
    assert forall|i: int| 0 <= i < sol.len() implies among(m, #[trigger] sol[i]) by {
        assert(pair_allowed(parts, idx, sol[i]));
        assert(!forbids(idx, sol[i].0, sol[i].1));
        let k = choose|k: int| 0 <= k < m.len() && same_pair(#[trigger] m[k], (sol[i].0, sol[i].1));
        assert(same_pair(m[k], sol[i]));
    }
}

} // verus!
