use vstd::prelude::*;

verus! {

/// A completed match of two participants, stored in the order it was formed.
pub type Pair = (u32, u32);

/// Whether `x` is one of the two members of `p`.
pub open spec fn pair_has(p: Pair, x: u32) -> bool {
    p.0 == x || p.1 == x
}

/// Whether `a` may not be matched with `b` under the exclusion index `idx`.
pub open spec fn forbids(idx: Map<u32, Set<u32>>, a: u32, b: u32) -> bool {
    idx.contains_key(a) && idx[a].contains(b)
}

/// Whether `x` is already committed to some pair of `sol`.
pub open spec fn matched(sol: Seq<Pair>, x: u32) -> bool {
    exists|i: int| 0 <= i < sol.len() && #[trigger] pair_has(sol[i], x)
}

/// The participants committed in `sol`.
pub open spec fn members(sol: Seq<Pair>) -> Set<u32> {
    Set::new(|x: u32| matched(sol, x))
}

/// A pair of two distinct members of `parts` that the index allows together.
pub open spec fn pair_allowed(parts: Seq<u32>, idx: Map<u32, Set<u32>>, p: Pair) -> bool {
    &&& parts.contains(p.0)
    &&& parts.contains(p.1)
    &&& p.0 != p.1
    &&& !forbids(idx, p.0, p.1)
    &&& !forbids(idx, p.1, p.0)
}

/// Two pairs that share no participant.
pub open spec fn disjoint(p: Pair, q: Pair) -> bool {
    p.0 != q.0 && p.0 != q.1 && p.1 != q.0 && p.1 != q.1
}

/// A partial matching: allowed pairs, no participant in two of them.
pub open spec fn is_partial_matching(parts: Seq<u32>, idx: Map<u32, Set<u32>>, sol: Seq<Pair>) -> bool {
    &&& forall|i: int| 0 <= i < sol.len() ==> #[trigger] pair_allowed(parts, idx, sol[i])
    &&& forall|i: int, j: int|
        0 <= i < sol.len() && 0 <= j < sol.len() && i != j ==> disjoint(#[trigger] sol[i], #[trigger] sol[j])
}

/// A perfect matching: a partial matching in which every participant is committed.
pub open spec fn is_perfect_matching(parts: Seq<u32>, idx: Map<u32, Set<u32>>, sol: Seq<Pair>) -> bool {
    &&& is_partial_matching(parts, idx, sol)
    &&& forall|x: u32| parts.contains(x) ==> matched(sol, x)
}

/// Whether `parts` has some perfect matching under `idx`.
pub open spec fn has_perfect_matching(parts: Seq<u32>, idx: Map<u32, Set<u32>>) -> bool {
    exists|m: Seq<Pair>| #[trigger] is_perfect_matching(parts, idx, m)
}

/// Appending an allowed pair of two uncommitted participants keeps a partial matching.
pub proof fn lemma_push_partial(parts: Seq<u32>, idx: Map<u32, Set<u32>>, sol: Seq<Pair>, p: Pair)
    requires
        is_partial_matching(parts, idx, sol),
        pair_allowed(parts, idx, p),
        !matched(sol, p.0),
        !matched(sol, p.1),
    ensures
        is_partial_matching(parts, idx, sol.push(p)),
        forall|x: u32| matched(sol.push(p), x) <==> (matched(sol, x) || pair_has(p, x)),
{
    let s2 = sol.push(p);
    assert forall|i: int| 0 <= i < s2.len() implies #[trigger] pair_allowed(parts, idx, s2[i]) by {
        if i < sol.len() {
            assert(s2[i] == sol[i]);
        }
    }
    assert forall|i: int, j: int|
        0 <= i < s2.len() && 0 <= j < s2.len() && i != j implies disjoint(#[trigger] s2[i], #[trigger] s2[j]) by {
        if i < sol.len() && j < sol.len() {
            assert(s2[i] == sol[i] && s2[j] == sol[j]);
        } else if i < sol.len() {
            assert(s2[i] == sol[i]);
            assert(pair_has(sol[i], sol[i].0) && pair_has(sol[i], sol[i].1));
        } else {
            assert(s2[j] == sol[j]);
            assert(pair_has(sol[j], sol[j].0) && pair_has(sol[j], sol[j].1));
        }
    }
    assert forall|x: u32| matched(s2, x) <==> (matched(sol, x) || pair_has(p, x)) by {
        if matched(s2, x) {
            let i = choose|i: int| 0 <= i < s2.len() && #[trigger] pair_has(s2[i], x);
            if i < sol.len() {
                assert(s2[i] == sol[i]);
            }
        }
        if matched(sol, x) {
            let i = choose|i: int| 0 <= i < sol.len() && #[trigger] pair_has(sol[i], x);
            assert(s2[i] == sol[i]);
        }
        if pair_has(p, x) {
            assert(s2[sol.len() as int] == p);
        }
    }
}

/// A partial matching of `k` pairs commits exactly `2 * k` participants.
pub proof fn lemma_members_len(parts: Seq<u32>, idx: Map<u32, Set<u32>>, sol: Seq<Pair>)
    requires
        is_partial_matching(parts, idx, sol),
    ensures
        members(sol).finite(),
        members(sol).len() == 2 * sol.len(),
        members(sol).subset_of(parts.to_set()),
    decreases sol.len(),
{
    if sol.len() == 0 {
        assert(members(sol) =~= Set::empty());
    } else {
        let prev = sol.drop_last();
        let p = sol.last();
        assert(is_partial_matching(parts, idx, prev)) by {
            assert forall|i: int| 0 <= i < prev.len() implies #[trigger] pair_allowed(parts, idx, prev[i]) by {
                assert(prev[i] == sol[i]);
            }
            assert forall|i: int, j: int|
                0 <= i < prev.len() && 0 <= j < prev.len() && i != j implies disjoint(#[trigger] prev[i], #[trigger] prev[j]) by {
                assert(prev[i] == sol[i] && prev[j] == sol[j]);
            }
        }
        lemma_members_len(parts, idx, prev);
        assert(pair_allowed(parts, idx, sol[sol.len() - 1]));
        assert(!matched(prev, p.0) && !matched(prev, p.1)) by {
            if matched(prev, p.0) {
                let i = choose|i: int| 0 <= i < prev.len() && #[trigger] pair_has(prev[i], p.0);
                assert(prev[i] == sol[i]);
                assert(disjoint(sol[i], sol[sol.len() - 1]));
            }
            if matched(prev, p.1) {
                let i = choose|i: int| 0 <= i < prev.len() && #[trigger] pair_has(prev[i], p.1);
                assert(prev[i] == sol[i]);
                assert(disjoint(sol[i], sol[sol.len() - 1]));
            }
        }
        lemma_push_partial(parts, idx, prev, p);
        assert(prev.push(p) =~= sol);
        assert(members(sol) =~= members(prev).insert(p.0).insert(p.1));
        assert forall|x: u32| members(sol).contains(x) implies parts.to_set().contains(x) by {
            let i = choose|i: int| 0 <= i < sol.len() && #[trigger] pair_has(sol[i], x);
            assert(pair_allowed(parts, idx, sol[i]));
        }
    }
}

/// In a partial matching over participants without repetitions, twice the
/// number of pairs never exceeds the population.
pub proof fn lemma_pairs_bounded(parts: Seq<u32>, idx: Map<u32, Set<u32>>, sol: Seq<Pair>)
    requires
        parts.no_duplicates(),
        is_partial_matching(parts, idx, sol),
    ensures
        2 * sol.len() <= parts.len(),
{
    lemma_members_len(parts, idx, sol);
    parts.unique_seq_to_set();
    vstd::set_lib::lemma_len_subset(members(sol), parts.to_set());
}

/// Whether some sequence of further pairs turns `sol` into a perfect matching.
pub open spec fn completable(parts: Seq<u32>, idx: Map<u32, Set<u32>>, sol: Seq<Pair>) -> bool {
    exists|ext: Seq<Pair>| #[trigger] is_perfect_matching(parts, idx, sol + ext)
}

/// Where the pair at position `j` of the reordered completion sits in the
/// given one, when the pair at `i` is moved to position `n`.
spec fn moved_from(j: int, n: int, i: int) -> int {
    if j < n {
        j
    } else if j == n {
        i
    } else if j - n - 1 < i - n {
        j - 1
    } else {
        j
    }
}

/// Inverse of `moved_from`.
spec fn moved_to(q: int, n: int, i: int) -> int {
    if q < n {
        q
    } else if q == i {
        n
    } else if q < i {
        q + 1
    } else {
        q
    }
}

/// In any completion of `sol`, an uncommitted participant `me` is paired with
/// some uncommitted, allowed partner `g`, and committing `(me, g)` first still
/// leaves `sol` completable.
pub proof fn lemma_partner_in_completion(
    parts: Seq<u32>,
    idx: Map<u32, Set<u32>>,
    sol: Seq<Pair>,
    ext: Seq<Pair>,
    me: u32,
)
    requires
        is_perfect_matching(parts, idx, sol + ext),
        parts.contains(me),
        !matched(sol, me),
    ensures
        exists|g: u32|
            #![trigger completable(parts, idx, sol.push((me, g)))]
            parts.contains(g) && g != me && !forbids(idx, me, g) && !forbids(idx, g, me) && !matched(sol, g)
                && completable(parts, idx, sol.push((me, g))),
{
    let full = sol + ext;
    let n = sol.len() as int;
    assert(matched(full, me));
    let i = choose|i: int| 0 <= i < full.len() && #[trigger] pair_has(full[i], me);
    if i < n {
        assert(full[i] == sol[i]);
        assert(pair_has(sol[i], me));
    }
    let p = full[i];
    let g = if p.0 == me { p.1 } else { p.0 };
    let k = i - n;
    assert(pair_allowed(parts, idx, p));
    assert(!matched(sol, g)) by {
        if matched(sol, g) {
            let j = choose|j: int| 0 <= j < sol.len() && #[trigger] pair_has(sol[j], g);
            assert(full[j] == sol[j]);
            assert(disjoint(full[i], full[j]));
        }
    }
    let e2 = ext.remove(k);
    let full2 = sol.push((me, g)) + e2;
    assert(full2.len() == full.len());
    assert forall|j: int| 0 <= j < full2.len() implies {
        &&& 0 <= #[trigger] moved_from(j, n, i) < full.len()
        &&& moved_to(moved_from(j, n, i), n, i) == j
        &&& (j != n ==> full2[j] == full[moved_from(j, n, i)])
        &&& (j == n ==> full2[j] == (me, g))
    } by {
        if j < n {
            assert(full2[j] == sol[j]);
            assert(full[j] == sol[j]);
        } else if j > n {
            let t = j - n - 1;
            assert(full2[j] == e2[t]);
            if t < k {
                assert(e2[t] == ext[t]);
                assert(full[n + t] == ext[t]);
            } else {
                assert(e2[t] == ext[t + 1]);
                assert(full[n + t + 1] == ext[t + 1]);
            }
        }
    }
    assert forall|q: int| 0 <= q < full.len() implies 0 <= #[trigger] moved_to(q, n, i) < full2.len()
        && moved_from(moved_to(q, n, i), n, i) == q by {}
    assert forall|j: int| 0 <= j < full2.len() implies #[trigger] pair_allowed(parts, idx, full2[j]) by {
        assert(pair_allowed(parts, idx, full[moved_from(j, n, i)]));
    }
    assert forall|j1: int, j2: int|
        0 <= j1 < full2.len() && 0 <= j2 < full2.len() && j1 != j2 implies disjoint(#[trigger] full2[j1], #[trigger] full2[j2]) by {
        let q1 = moved_from(j1, n, i);
        let q2 = moved_from(j2, n, i);
        assert(q1 != q2);
        assert(disjoint(full[q1], full[q2]));
    }
    assert forall|x: u32| parts.contains(x) implies matched(full2, x) by {
        assert(matched(full, x));
        let q = choose|q: int| 0 <= q < full.len() && #[trigger] pair_has(full[q], x);
        let j = moved_to(q, n, i);
        assert(moved_from(j, n, i) == q);
        assert(pair_has(full2[j], x));
    }
    assert(is_perfect_matching(parts, idx, sol.push((me, g)) + e2));
    assert(completable(parts, idx, sol.push((me, g))));
}

} // verus!
