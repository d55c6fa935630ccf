use std::collections::{HashMap, HashSet};
use vstd::prelude::*;

verus! {

broadcast use vstd::std_specs::hash::group_hash_axioms;

/// A rule on which pairs may be formed.
#[derive(Clone, Copy, Debug, PartialEq, Eq)]
pub enum Constraint {
    /// The two participants may never be matched together (in either order).
    DisallowTogether(u32, u32),
}

/// Why a pairing could not be produced.
#[derive(Clone, Copy, Debug, PartialEq, Eq)]
pub enum SolveError {
    /// The population is odd, or an exclusion names an unknown participant.
    InvalidInput,
    /// No perfect matching was found among the explored branches.
    NoFeasibleMatching,
}

/// The two participants a constraint speaks of.
pub open spec fn ends(c: Constraint) -> (u32, u32) {
    match c {
        Constraint::DisallowTogether(a, b) => (a, b),
    }
}

/// Whether some constraint of `cs` keeps `a` and `b` apart (in either order).
pub open spec fn excluded(cs: Seq<Constraint>, a: u32, b: u32) -> bool {
    exists|i: int|
        0 <= i < cs.len() && (#[trigger] ends(cs[i]) == (a, b) || ends(cs[i]) == (b, a))
}

/// Whether every constraint of `cs` names members of `parts` only.
pub open spec fn constraints_known(parts: Seq<u32>, cs: Seq<Constraint>) -> bool {
    forall|i: int|
        0 <= i < cs.len() ==> parts.contains(#[trigger] ends(cs[i]).0) && parts.contains(ends(cs[i]).1)
}

/// The exclusion index that `cs` induces on `parts`: an entry for every
/// participant, holding every partner some constraint keeps it from.
pub open spec fn exclusion_index(parts: Seq<u32>, cs: Seq<Constraint>) -> Map<u32, Set<u32>> {
    Map::new(|k: u32| parts.contains(k), |k: u32| Set::new(|b: u32| excluded(cs, k, b)))
}

/// For each participant, the set of participants it may not be paired with.
pub struct ConstraintIndex {
    map: HashMap<u32, HashSet<u32>>,
}

impl View for ConstraintIndex {
    type V = Map<u32, Set<u32>>;

    closed spec fn view(&self) -> Map<u32, Set<u32>> {
        Map::new(|k: u32| self.map@.contains_key(k), |k: u32| self.map@[k]@)
    }
}

impl ConstraintIndex {
    /// An index with no participants.
    pub fn empty() -> (r: ConstraintIndex)
        ensures
            r@ == Map::<u32, Set<u32>>::empty(),
    {
        let r = ConstraintIndex { map: HashMap::new() };
        assert(r@ =~= Map::<u32, Set<u32>>::empty());
        r
    }

    /// Builds the index of `participants` under `constraints`: every
    /// participant gets an entry, and each exclusion is recorded in both
    /// directions. Fails when an exclusion names an unknown participant.
    pub fn build(participants: &Vec<u32>, constraints: &Vec<Constraint>) -> (r: Result<
        ConstraintIndex,
        SolveError,
    >)
        ensures
            r is Ok <==> constraints_known(participants@, constraints@),
            r is Err ==> r == Err::<ConstraintIndex, SolveError>(SolveError::InvalidInput),
            r matches Ok(idx) ==> idx@ == exclusion_index(participants@, constraints@),
    {
        let mut map: HashMap<u32, HashSet<u32>> = HashMap::new();
        let mut i: usize = 0;
        while i < participants.len()
            invariant
                i <= participants.len(),
                forall|k: u32| map@.contains_key(k) <==> participants@.take(i as int).contains(k),
                forall|k: u32| #[trigger] map@.contains_key(k) ==> map@[k]@ == Set::<u32>::empty(),
            decreases participants.len() - i,
        {
            let id = participants[i];
            map.insert(id, HashSet::new());
            assert(participants@.take(i + 1) =~= participants@.take(i as int).push(id));
            assert forall|k: u32| map@.contains_key(k) <==> participants@.take(i + 1).contains(k) by {
                let t = participants@.take(i as int);
                if t.contains(k) {
                    let q = choose|q: int| 0 <= q < t.len() && t[q] == k;
                    assert(t.push(id)[q] == k);
                }
                if t.push(id).contains(k) && k != id {
                    let q = choose|q: int| 0 <= q < t.len() + 1 && t.push(id)[q] == k;
                    assert(t[q] == k);
                }
                assert(t.push(id)[t.len() as int] == id);
            }
            i = i + 1;
        }
        assert(participants@.take(i as int) =~= participants@);
        let mut j: usize = 0;
        while j < constraints.len()
            invariant
                j <= constraints.len(),
                forall|k: u32| map@.contains_key(k) <==> participants@.contains(k),
                constraints_known(participants@, constraints@.take(j as int)),
                forall|a: u32, b: u32|
                    #![trigger map@[a]@.contains(b)]
                    map@.contains_key(a) ==> (map@[a]@.contains(b) <==> excluded(
                        constraints@.take(j as int),
                        a,
                        b,
                    )),
            decreases constraints.len() - j,
        {
            let c = constraints[j];
            let (a, b) = match c {
                Constraint::DisallowTogether(a, b) => (a, b),
            };
            let ghost before = map@;
            let ghost prev = constraints@.take(j as int);
            let ghost next = constraints@.take(j + 1);
            assert(next =~= prev.push(c));
            assert(ends(next[j as int]) == (a, b));
            if !map.contains_key(&a) || !map.contains_key(&b) {
                assert(!constraints_known(participants@, constraints@)) by {
                    assert(constraints@[j as int] == c);
                }
                return Err(SolveError::InvalidInput);
            }
            let mut sa = map.remove(&a).unwrap();
            sa.insert(b);
            map.insert(a, sa);
            let mut sb = map.remove(&b).unwrap();
            sb.insert(a);
            map.insert(b, sb);
            assert forall|x: u32, y: u32| map@.contains_key(x) implies (#[trigger] map@[x]@.contains(y)
                <==> excluded(next, x, y)) by {
                if excluded(next, x, y) && !excluded(prev, x, y) {
                    let k = choose|k: int|
                        0 <= k < next.len() && (#[trigger] ends(next[k]) == (x, y) || ends(next[k]) == (y, x));
                    if k < prev.len() {
                        assert(next[k] == prev[k]);
                    }
                }
                if excluded(prev, x, y) {
                    let k = choose|k: int|
                        0 <= k < prev.len() && (#[trigger] ends(prev[k]) == (x, y) || ends(prev[k]) == (y, x));
                    assert(next[k] == prev[k]);
                }
                assert(before.contains_key(x));
            }
            assert forall|k: int| 0 <= k < next.len() implies participants@.contains(#[trigger] ends(next[k]).0)
                && participants@.contains(ends(next[k]).1) by {
                if k < prev.len() {
                    assert(next[k] == prev[k]);
                }
            }
            j = j + 1;
        }
        assert(constraints@.take(j as int) =~= constraints@);
        let idx = ConstraintIndex { map };
        let ghost target = exclusion_index(participants@, constraints@);
        assert forall|k: u32| #[trigger] idx@.contains_key(k) implies idx@[k] =~= target[k] by {}
        assert(idx@ =~= target);
        Ok(idx)
    }

    /// Whether `a` may not be paired with `b`.
    pub fn forbidden(&self, a: u32, b: u32) -> (r: bool)
        ensures
            r == (self@.contains_key(a) && self@[a].contains(b)),
    {
        match self.map.get(&a) {
            Some(s) => s.contains(&b),
            None => false,
        }
    }
}

} // verus!
