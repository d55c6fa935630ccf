use crate::constraints::{constraints_known, ends, excluded, exclusion_index, Constraint, ConstraintIndex, SolveError};
use crate::laws::lemma_pruning_sound;
use crate::matching::{
    completable, has_perfect_matching, lemma_partner_in_completion, forbids, is_partial_matching, is_perfect_matching, lemma_pairs_bounded, lemma_push_partial,
    matched, pair_allowed, pair_has, Pair,
};
use crate::random::shuffle_ids;
use rand::rngs::SmallRng;
use vstd::prelude::*;

verus! {

/// Whether `u` has a partner among `unsolved`: another member that the index
/// allows for it and that `sol` has not committed yet.
pub open spec fn has_partner(idx: Map<u32, Set<u32>>, unsolved: Seq<u32>, sol: Seq<Pair>, u: u32) -> bool {
    exists|v: u32|
        #![trigger unsolved.contains(v), forbids(idx, u, v)]
        unsolved.contains(v) && v != u && !forbids(idx, u, v) && !matched(sol, v)
}

/// The plausibility test: every member of `unsolved` still has a partner.
pub open spec fn plausible(idx: Map<u32, Set<u32>>, unsolved: Seq<u32>, sol: Seq<Pair>) -> bool {
    forall|u: u32| #[trigger] unsolved.contains(u) ==> has_partner(idx, unsolved, sol, u)
}

/// Whether `rest` holds exactly the participants, other than `me`, that `sol`
/// has not committed.
pub open spec fn rest_is_others(parts: Seq<u32>, sol: Seq<Pair>, me: u32, rest: Seq<u32>) -> bool {
    forall|x: u32| rest.contains(x) <==> (parts.contains(x) && !matched(sol, x) && x != me)
}

/// Keeps the participants that `sol` has not committed.
pub open spec fn uncommitted(sol: Seq<Pair>) -> spec_fn(u32) -> bool {
    |x: u32| !matched(sol, x)
}

/// Keeps the participants that `me` may be paired with: not `me`, not
/// forbidden for `me`, not committed in `sol`.
pub open spec fn eligible(idx: Map<u32, Set<u32>>, sol: Seq<Pair>, me: u32) -> spec_fn(u32) -> bool {
    |y: u32| y != me && !forbids(idx, me, y) && !matched(sol, y)
}

/// Whether `x` is committed in `solution`.
pub fn is_committed(solution: &Vec<Pair>, x: u32) -> (r: bool)
    ensures
        r == matched(solution@, x),
{
    let mut i: usize = 0;
    while i < solution.len()
        invariant
            i <= solution.len(),
            forall|j: int| 0 <= j < i ==> !pair_has(#[trigger] solution@[j], x),
        decreases solution.len() - i,
    {
        let p = solution[i];
        if p.0 == x || p.1 == x {
            assert(pair_has(solution@[i as int], x));
            return true;
        }
        i = i + 1;
    }
    false
}

/// Whether every member of `parts` is committed in `solution`.
pub fn all_committed(parts: &Vec<u32>, solution: &Vec<Pair>) -> (r: bool)
    ensures
        r == (forall|x: u32| parts@.contains(x) ==> matched(solution@, x)),
{
    let mut i: usize = 0;
    while i < parts.len()
        invariant
            i <= parts.len(),
            forall|j: int| 0 <= j < i ==> matched(solution@, #[trigger] parts@[j]),
        decreases parts.len() - i,
    {
        if !is_committed(solution, parts[i]) {
            return false;
        }
        i = i + 1;
    }
    assert forall|x: u32| parts@.contains(x) implies matched(solution@, x) by {
        let j = choose|j: int| 0 <= j < parts.len() && parts@[j] == x;
        assert(matched(solution@, parts@[j]));
    }
    true
}

/// The members of `parts` not committed in `solution`, in their order.
pub fn unmatched_of(parts: &Vec<u32>, solution: &Vec<Pair>) -> (r: Vec<u32>)
    ensures
        r@ == parts@.filter(uncommitted(solution@)),
        forall|x: u32| r@.contains(x) <==> (parts@.contains(x) && !matched(solution@, x)),
{
    let mut r: Vec<u32> = Vec::new();
    let mut i: usize = 0;
    while i < parts.len()
        invariant
            i <= parts.len(),
            r@ == parts@.take(i as int).filter(uncommitted(solution@)),
            forall|x: u32|
                r@.contains(x) <==> (parts@.take(i as int).contains(x) && !matched(solution@, x)),
        decreases parts.len() - i,
    {
        let x = parts[i];
        let ghost r0 = r@;
        if !is_committed(solution, x) {
            r.push(x);
        }
        let ghost t = parts@.take(i as int);
        assert(parts@.take(i + 1) =~= t.push(x));
        proof {
            t.lemma_filter_push(x, uncommitted(solution@));
        }
        assert forall|y: u32| r@.contains(y) <==> (t.push(x).contains(y) && !matched(solution@, y)) by {
            if t.contains(y) {
                let q = choose|q: int| 0 <= q < t.len() && t[q] == y;
                assert(t.push(x)[q] == y);
            }
            if t.push(x).contains(y) && y != x {
                let q = choose|q: int| 0 <= q < t.len() + 1 && t.push(x)[q] == y;
                assert(t[q] == y);
            }
            assert(t.push(x)[t.len() as int] == x);
            if r0.contains(y) {
                let q = choose|q: int| 0 <= q < r0.len() && r0[q] == y;
                assert(r@[q] == y);
            }
            if r@.contains(y) && y != x {
                let q = choose|q: int| 0 <= q < r@.len() && r@[q] == y;
                assert(r0[q] == y);
            }
            if r@.len() > r0.len() {
                assert(r@[r0.len() as int] == x);
            }
        }
        i = i + 1;
    }
    assert(parts@.take(i as int) =~= parts@);
    r
}

/// `v` with every occurrence of `x` left out.
pub fn without(v: &Vec<u32>, x: u32) -> (r: Vec<u32>)
    ensures
        forall|y: u32| r@.contains(y) <==> (v@.contains(y) && y != x),
        r@.len() <= v@.len(),
        v@.contains(x) ==> r@.len() < v@.len(),
{
    let mut r: Vec<u32> = Vec::new();
    let mut i: usize = 0;
    let mut dropped: bool = false;
    while i < v.len()
        invariant
            i <= v.len(),
            r@.len() + (if dropped { 1int } else { 0int }) <= i,
            dropped <==> v@.take(i as int).contains(x),
            forall|y: u32| r@.contains(y) <==> (v@.take(i as int).contains(y) && y != x),
        decreases v.len() - i,
    {
        let y = v[i];
        let ghost r0 = r@;
        let ghost t = v@.take(i as int);
        assert(v@.take(i + 1) =~= t.push(y));
        if y != x {
            r.push(y);
        } else {
            dropped = true;
        }
        assert forall|z: u32| r@.contains(z) <==> (t.push(y).contains(z) && z != x) by {
            if t.contains(z) {
                let q = choose|q: int| 0 <= q < t.len() && t[q] == z;
                assert(t.push(y)[q] == z);
            }
            if t.push(y).contains(z) && z != y {
                let q = choose|q: int| 0 <= q < t.len() + 1 && t.push(y)[q] == z;
                assert(t[q] == z);
            }
            assert(t.push(y)[t.len() as int] == y);
            if r0.contains(z) {
                let q = choose|q: int| 0 <= q < r0.len() && r0[q] == z;
                assert(r@[q] == z);
            }
            if r@.contains(z) && z != y {
                let q = choose|q: int| 0 <= q < r@.len() && r@[q] == z;
                assert(r0[q] == z);
            }
            if r@.len() > r0.len() {
                assert(r@[r0.len() as int] == y);
            }
        }
        assert(t.push(y).contains(x) <==> (t.contains(x) || y == x)) by {
            if t.contains(x) {
                let q = choose|q: int| 0 <= q < t.len() && t[q] == x;
                assert(t.push(y)[q] == x);
            }
            if t.push(y).contains(x) && y != x {
                let q = choose|q: int| 0 <= q < t.len() + 1 && t.push(y)[q] == x;
                assert(t[q] == x);
            }
            assert(t.push(y)[t.len() as int] == y);
        }
        i = i + 1;
    }
    assert(v@.take(i as int) =~= v@);
    r
}

/// A pairing problem: the participants, the group size, and the constraints.
pub struct Satisfactory {
    pub data: Vec<u32>,
    pub group_size: u32,
    pub constraints: Vec<Constraint>,
}

impl Satisfactory {
    /// A problem over `data` with no constraints yet.
    pub fn new(data: Vec<u32>) -> (r: Self)
        ensures
            r.data@ == data@,
            r.group_size == 0,
            r.constraints@ == Seq::<Constraint>::empty(),
    {
        Satisfactory { data, group_size: 0, constraints: Vec::new() }
    }

    /// Sets the group size; returns the problem for further settings.
    pub fn groupings_of(&mut self, size: u32) -> (r: &mut Self)
        ensures
            r.group_size == size,
            r.data@ == old(self).data@,
            r.constraints@ == old(self).constraints@,
            *final(self) == *final(r),
    {
        self.group_size = size;
        self
    }

    /// Appends a constraint; returns the problem for further settings.
    pub fn add_constraint(&mut self, constraint: Constraint) -> (r: &mut Self)
        ensures
            r.constraints@ == old(self).constraints@.push(constraint),
            r.data@ == old(self).data@,
            r.group_size == old(self).group_size,
            *final(self) == *final(r),
    {
        self.constraints.push(constraint);
        self
    }
}

/// The search over one problem: its exclusion index and the number of
/// search steps the last run took.
pub struct SatisfactoryRunner {
    pub data: Satisfactory,
    pub constraints_map: ConstraintIndex,
    pub calls: u64,
}



impl SatisfactoryRunner {
    /// The state a search needs: distinct participants, each with an entry in
    /// the index, and an index that is symmetric.
    pub open spec fn ready(&self) -> bool {
        &&& self.data.data@.no_duplicates()
        &&& forall|x: u32| self.data.data@.contains(x) ==> self.constraints_map@.contains_key(x)
        &&& forall|a: u32, b: u32|
            #[trigger] forbids(self.constraints_map@, a, b) ==> forbids(self.constraints_map@, b, a)
    }

    /// A runner for `input` with an empty index.
    pub fn new(input: Satisfactory) -> (r: SatisfactoryRunner)
        ensures
            r.data == input,
            r.constraints_map@ == Map::<u32, Set<u32>>::empty(),
            r.calls == 0,
    {
        SatisfactoryRunner { data: input, constraints_map: ConstraintIndex::empty(), calls: 0 }
    }

    /// Builds the exclusion index from the problem's participants and
    /// constraints. Fails, leaving the runner as it was, when a constraint
    /// names an unknown participant.
    pub fn build_contraints_map(&mut self) -> (r: Result<(), SolveError>)
        ensures
            r is Ok <==> constraints_known(old(self).data.data@, old(self).data.constraints@),
            r is Err ==> r == Err::<(), SolveError>(SolveError::InvalidInput) && *final(self) == *old(self),
            r is Ok ==> final(self).constraints_map@ == exclusion_index(
                old(self).data.data@,
                old(self).data.constraints@,
            ),
            final(self).data == old(self).data,
            final(self).calls == old(self).calls,
    {
        match ConstraintIndex::build(&self.data.data, &self.data.constraints) {
            Ok(idx) => {
                self.constraints_map = idx;
                Ok(())
            },
            Err(e) => Err(e),
        }
    }

    /// The members of `rest` that `me` may be paired with: not `me`, not
    /// forbidden for `me`, not yet committed; in the order of `rest`.
    pub fn groupables_for(&self, me: u32, rest: &Vec<u32>, solution: &Vec<Pair>) -> (r: Vec<u32>)
        ensures
            r@ == rest@.filter(eligible(self.constraints_map@, solution@, me)),
            forall|y: u32|
                r@.contains(y) <==> (rest@.contains(y) && y != me && !forbids(self.constraints_map@, me, y)
                    && !matched(solution@, y)),
    {
        let ghost idx = self.constraints_map@;
        let mut r: Vec<u32> = Vec::new();
        let mut k: usize = 0;
        while k < rest.len()
            invariant
                k <= rest.len(),
                idx == self.constraints_map@,
                r@ == rest@.take(k as int).filter(eligible(idx, solution@, me)),
                forall|y: u32|
                    r@.contains(y) <==> (rest@.take(k as int).contains(y) && y != me && !forbids(idx, me, y)
                        && !matched(solution@, y)),
            decreases rest.len() - k,
        {
            let c = rest[k];
            let ghost r0 = r@;
            let ghost t = rest@.take(k as int);
            assert(rest@.take(k + 1) =~= t.push(c));
            proof {
                t.lemma_filter_push(c, eligible(idx, solution@, me));
            }
            if c != me && !self.constraints_map.forbidden(me, c) && !is_committed(solution, c) {
                r.push(c);
            }
            assert forall|y: u32| r@.contains(y) <==> (t.push(c).contains(y) && y != me && !forbids(idx, me, y)
                && !matched(solution@, y)) by {
                if t.contains(y) {
                    let q = choose|q: int| 0 <= q < t.len() && t[q] == y;
                    assert(t.push(c)[q] == y);
                }
                if t.push(c).contains(y) && y != c {
                    let q = choose|q: int| 0 <= q < t.len() + 1 && t.push(c)[q] == y;
                    assert(t[q] == y);
                }
                assert(t.push(c)[t.len() as int] == c);
                if r0.contains(y) {
                    let q = choose|q: int| 0 <= q < r0.len() && r0[q] == y;
                    assert(r@[q] == y);
                }
                if r@.contains(y) && y != c {
                    let q = choose|q: int| 0 <= q < r@.len() && r@[q] == y;
                    assert(r0[q] == y);
                }
                if r@.len() > r0.len() {
                    assert(r@[r0.len() as int] == c);
                }
            }
            k = k + 1;
        }
        assert(rest@.take(k as int) =~= rest@);
        r
    }

    /// Extends `solution`, a partial matching in which `me` and every member
    /// of `rest` are still uncommitted, to a perfect matching of the
    /// participants. Returns whether it did; on failure `solution` is left as
    /// it was. When `rest` holds exactly the other uncommitted participants
    /// and some completion exists, it succeeds. Each call counts one search
    /// step in `calls`.
    pub fn recurse(&self, solution: &mut Vec<Pair>, me: u32, rest: &Vec<u32>, calls: &mut u64) -> (r: bool)
        requires
            self.ready(),
            is_partial_matching(self.data.data@, self.constraints_map@, old(solution)@),
            self.data.data@.contains(me),
            !matched(old(solution)@, me),
            forall|x: u32| #[trigger] rest@.contains(x) ==> self.data.data@.contains(x) && x != me && !matched(old(solution)@, x),
        ensures
            r ==> is_perfect_matching(self.data.data@, self.constraints_map@, final(solution)@),
            !r ==> final(solution)@ == old(solution)@,
            rest_is_others(self.data.data@, old(solution)@, me, rest@) && completable(
                self.data.data@,
                self.constraints_map@,
                old(solution)@,
            ) ==> r,
            r ==> old(solution)@.is_prefix_of(final(solution)@),
            rest@.len() == 1 ==> (r <==> (!forbids(self.constraints_map@, me, rest@[0]) && forall|y: u32|
                self.data.data@.contains(y) ==> matched(old(solution)@.push((me, rest@[0])), y))),
            rest@.len() == 1 && r ==> final(solution)@ == old(solution)@.push((me, rest@[0])),
            rest@.len() != 1 && rest@.filter(eligible(self.constraints_map@, old(solution)@, me)).len() == 0 ==> !r,
            *final(calls) >= *old(calls),
        decreases self.data.data@.len() - 2 * old(solution)@.len(), rest@.len(),
    {
        let ghost parts = self.data.data@;
        let ghost idx = self.constraints_map@;
        let ghost start = solution@;
        let ghost hopeful = rest_is_others(parts, start, me, rest@) && completable(parts, idx, start);
        proof {
            lemma_pairs_bounded(parts, idx, start);
            if hopeful {
                let ext = choose|ext: Seq<Pair>| #[trigger] is_perfect_matching(parts, idx, start + ext);
                lemma_partner_in_completion(parts, idx, start, ext, me);
            }
        }
        *calls = if *calls < u64::MAX { *calls + 1 } else { *calls };

        // One candidate left: take it if allowed.
        if rest.len() == 1 {
            let x = rest[0];
            assert(rest@.contains(x)) by { assert(rest@[0] == x); }
            proof {
                if hopeful {
                    let g = choose|g: u32|
                        #![trigger completable(parts, idx, start.push((me, g)))]
                        parts.contains(g) && g != me && !forbids(idx, me, g) && !forbids(idx, g, me) && !matched(start, g)
                            && completable(parts, idx, start.push((me, g)));
                    assert(rest@.contains(g));
                    let q = choose|q: int| 0 <= q < rest@.len() && rest@[q] == g;
                    assert(g == x);
                }
            }
            if self.constraints_map.forbidden(me, x) {
                return false;
            }
            proof {
                assert(!forbids(idx, x, me));
                lemma_push_partial(parts, idx, start, (me, x));
            }
            solution.push((me, x));
            proof {
                if hopeful {
                    assert forall|y: u32| parts.contains(y) implies matched(solution@, y) by {
                        if !matched(start, y) && y != me {
                            assert(rest@.contains(y));
                            let q = choose|q: int| 0 <= q < rest@.len() && rest@[q] == y;
                            assert(pair_has((me, x), y));
                        } else if y == me {
                            assert(pair_has((me, x), y));
                        }
                    }
                }
            }
            if all_committed(&self.data.data, solution) {
                assert(start =~= solution@.subrange(0, start.len() as int));
                return true;
            }
            solution.pop();
            assert(solution@ =~= start);
            return false;
        }

        let groupables = self.groupables_for(me, rest, solution);

        proof {
            if hopeful {
                let g = choose|g: u32|
                    #![trigger completable(parts, idx, start.push((me, g)))]
                    parts.contains(g) && g != me && !forbids(idx, me, g) && !forbids(idx, g, me) && !matched(start, g)
                        && completable(parts, idx, start.push((me, g)));
                assert(groupables@.contains(g));
            }
        }
        if groupables.len() == 0 {
            let done = all_committed(&self.data.data, solution);
            assert(!done) by {
                assert(parts.contains(me));
            }
            return done;
        }

        let mut gi: usize = 0;
        while gi < groupables.len()
            invariant
                self.ready(),
                parts == self.data.data@,
                idx == self.constraints_map@,
                solution@ == start,
                old(solution)@ == start,
                is_partial_matching(parts, idx, start),
                parts.contains(me),
                !matched(start, me),
                2 * start.len() <= parts.len(),
                forall|x: u32| #[trigger] rest@.contains(x) ==> parts.contains(x) && x != me && !matched(start, x),
                forall|y: u32|
                    #![trigger groupables@.contains(y)]
                    #![trigger rest@.contains(y)]
                    groupables@.contains(y) <==> (rest@.contains(y) && y != me && !forbids(idx, me, y) && !matched(start, y)),
                hopeful == (rest_is_others(parts, start, me, rest@) && completable(parts, idx, start)),
                rest@.len() != 1,
                rest@.filter(eligible(idx, start, me)).len() > 0,
                forall|q: int| 0 <= q < gi ==> !completable(parts, idx, start.push((me, #[trigger] groupables@[q]))),
                *calls >= *old(calls),
            decreases groupables.len() - gi,
        {
            let g = groupables[gi];
            assert(groupables@.contains(g)) by { assert(groupables@[gi as int] == g); }
            assert(rest@.contains(g));
            let ghost pushed = start.push((me, g));
            proof {
                assert(!forbids(idx, g, me));
                lemma_push_partial(parts, idx, start, (me, g));
                lemma_pairs_bounded(parts, idx, pushed);
            }
            solution.push((me, g));
            let unsolved = unmatched_of(&self.data.data, solution);
            if unsolved.len() == 0 {
                assert forall|x: u32| parts.contains(x) implies matched(solution@, x) by {
                    if !matched(solution@, x) {
                        assert(unsolved@.contains(x));
                    }
                }
                assert(start =~= solution@.subrange(0, start.len() as int));
                return true;
            }
            if !self.solution_is_plausible(&unsolved, solution) {
                assert(!completable(parts, idx, pushed)) by {
                    assert forall|ext: Seq<Pair>| !#[trigger] is_perfect_matching(parts, idx, pushed + ext) by {
                        lemma_pruning_sound(parts, idx, pushed, unsolved@, ext);
                    }
                }
                solution.pop();
                assert(solution@ =~= start);
                gi = gi + 1;
                continue;
            }
            let mut ui: usize = 0;
            while ui < unsolved.len()
                invariant
                    self.ready(),
                    parts == self.data.data@,
                    idx == self.constraints_map@,
                    solution@ == pushed,
                    old(solution)@ == start,
                    pushed == start.push((me, g)),
                    is_partial_matching(parts, idx, pushed),
                    2 * pushed.len() <= parts.len(),
                    pushed.len() == start.len() + 1,
                    forall|x: u32| unsolved@.contains(x) <==> (parts.contains(x) && !matched(pushed, x)),
                    ui > 0 ==> !completable(parts, idx, pushed),
                    rest@.len() != 1,
                    rest@.filter(eligible(idx, start, me)).len() > 0,
                    *calls >= *old(calls),
                decreases unsolved.len() - ui,
            {
                let u = unsolved[ui];
                assert(unsolved@.contains(u)) by { assert(unsolved@[ui as int] == u); }
                let others = without(&unsolved, u);
                assert(parts.len() - 2 * solution@.len() < parts.len() - 2 * start.len());
                assert(rest_is_others(parts, pushed, u, others@));
                if self.recurse(solution, u, &others, calls) {
                    assert(pushed =~= solution@.subrange(0, pushed.len() as int));
                    assert(start =~= pushed.subrange(0, start.len() as int));
                    assert(start =~= solution@.subrange(0, start.len() as int));
                    return true;
                }
                ui = ui + 1;
            }
            solution.pop();
            assert(solution@ =~= start);
            gi = gi + 1;
        }
        proof {
            if hopeful {
                let ext = choose|ext: Seq<Pair>| #[trigger] is_perfect_matching(parts, idx, start + ext);
                lemma_partner_in_completion(parts, idx, start, ext, me);
                let g = choose|g: u32|
                    #![trigger completable(parts, idx, start.push((me, g)))]
                    parts.contains(g) && g != me && !forbids(idx, me, g) && !forbids(idx, g, me) && !matched(start, g)
                        && completable(parts, idx, start.push((me, g)));
                assert(groupables@.contains(g));
                let q = choose|q: int| 0 <= q < groupables@.len() && groupables@[q] == g;
                assert(!completable(parts, idx, start.push((me, groupables@[q]))));
            }
        }

        // No direct continuation for `me`: try the other candidates in its place.
        let mut ri: usize = 0;
        while ri < rest.len()
            invariant
                self.ready(),
                parts == self.data.data@,
                idx == self.constraints_map@,
                solution@ == start,
                old(solution)@ == start,
                is_partial_matching(parts, idx, start),
                2 * start.len() <= parts.len(),
                forall|x: u32| #[trigger] rest@.contains(x) ==> parts.contains(x) && x != me && !matched(start, x),
                !hopeful,
                rest@.len() != 1,
                rest@.filter(eligible(idx, start, me)).len() > 0,
                hopeful == (rest_is_others(parts, start, me, rest@) && completable(parts, idx, start)),
                *calls >= *old(calls),
            decreases rest.len() - ri,
        {
            let user = rest[ri];
            assert(rest@.contains(user)) by { assert(rest@[ri as int] == user); }
            let others = without(rest, user);
            assert(others@.len() < rest@.len());
            if self.recurse(solution, user, &others, calls) {
                return true;
            }
            ri = ri + 1;
        }
        false
    }

    /// The root trials: tries each participant, in the current order, as the
    /// first to be matched, and returns the first perfect matching found.
    /// Succeeds exactly when the population is not empty and has a perfect
    /// matching. Records the number of search steps in `calls`.
    pub fn search(&mut self) -> (r: Result<Vec<Pair>, SolveError>)
        requires
            old(self).ready(),
        ensures
            final(self).data == old(self).data,
            final(self).constraints_map == old(self).constraints_map,
            r matches Ok(sol) ==> is_perfect_matching(old(self).data.data@, old(self).constraints_map@, sol@),
            r is Err ==> r == Err::<Vec<Pair>, SolveError>(SolveError::NoFeasibleMatching),
            r is Ok <==> (old(self).data.data@.len() > 0 && has_perfect_matching(
                old(self).data.data@,
                old(self).constraints_map@,
            )),
    {
        let mut calls: u64 = 0;
        let mut solution: Vec<Pair> = Vec::new();
        let mut i: usize = 0;
        while i < self.data.data.len()
            invariant
                self.ready(),
                self.data == old(self).data,
                self.constraints_map == old(self).constraints_map,
                solution@ == Seq::<Pair>::empty(),
                i > 0 ==> !has_perfect_matching(self.data.data@, self.constraints_map@),
            decreases self.data.data.len() - i,
        {
            let user = self.data.data[i];
            assert(self.data.data@.contains(user)) by { assert(self.data.data@[i as int] == user); }
            let others = without(&self.data.data, user);
            proof {
                let parts = self.data.data@;
                let idx = self.constraints_map@;
                assert(rest_is_others(parts, solution@, user, others@));
                if has_perfect_matching(parts, idx) {
                    let m = choose|m: Seq<Pair>| #[trigger] is_perfect_matching(parts, idx, m);
                    assert(solution@ + m =~= m);
                    assert(completable(parts, idx, solution@));
                }
            }
            if self.recurse(&mut solution, user, &others, &mut calls) {
                self.calls = calls;
                return Ok(solution);
            }
            i = i + 1;
        }
        self.calls = calls;
        Err(SolveError::NoFeasibleMatching)
    }

    /// Solves the problem: rejects an odd population or a constraint on an
    /// unknown participant, builds the index, shuffles the participants with
    /// `rng`, and searches. It returns a perfect matching that respects every
    /// constraint exactly when one exists (and the population is not empty).
    pub fn run(&mut self, rng: &mut SmallRng) -> (r: Result<Vec<Pair>, SolveError>)
        requires
            old(self).data.data@.no_duplicates(),
        ensures
            (r == Err::<Vec<Pair>, SolveError>(SolveError::InvalidInput)) <==> (old(self).data.data@.len() % 2 == 1
                || !constraints_known(old(self).data.data@, old(self).data.constraints@)),
            r matches Ok(sol) ==> is_perfect_matching(
                old(self).data.data@,
                exclusion_index(old(self).data.data@, old(self).data.constraints@),
                sol@,
            ),
            r is Ok <==> (old(self).data.data@.len() % 2 == 0 && old(self).data.data@.len() > 0
                && constraints_known(old(self).data.data@, old(self).data.constraints@)
                && has_perfect_matching(
                old(self).data.data@,
                exclusion_index(old(self).data.data@, old(self).data.constraints@),
            )),
            final(self).data.data@.to_multiset() == old(self).data.data@.to_multiset(),
            final(self).data.constraints@ == old(self).data.constraints@,
            old(self).data.data@.len() % 2 == 1 ==> *final(self) == *old(self) && *final(rng) == *old(rng),
    {
        let ghost parts = self.data.data@;
        let ghost cs = self.data.constraints@;
        if self.data.data.len() % 2 != 0 {
            return Err(SolveError::InvalidInput);
        }
        self.calls = 0;
        match self.build_contraints_map() {
            Ok(()) => {},
            Err(e) => {
                return Err(e);
            },
        }
        shuffle_ids(&mut self.data.data, rng);
        proof {
            lemma_reorder_keeps_members(parts, self.data.data@);
            lemma_index_symmetric(parts, cs);
        }
        let r = self.search();
        proof {
            if r is Ok {
                lemma_perfect_same_members(self.data.data@, parts, self.constraints_map@, r->Ok_0@);
            }
            let idx = self.constraints_map@;
            if has_perfect_matching(parts, idx) {
                let m = choose|m: Seq<Pair>| #[trigger] is_perfect_matching(parts, idx, m);
                lemma_perfect_same_members(parts, self.data.data@, idx, m);
            }
            if has_perfect_matching(self.data.data@, idx) {
                let m = choose|m: Seq<Pair>| #[trigger] is_perfect_matching(self.data.data@, idx, m);
                lemma_perfect_same_members(self.data.data@, parts, idx, m);
            }
            assert(self.data.data@.len() == parts.len()) by {
                self.data.data@.to_multiset_ensures();
                parts.to_multiset_ensures();
            }
        }
        r
    }

    /// Whether every member of `unsolved` still has a partner.
    pub fn solution_is_plausible(&self, unsolved: &Vec<u32>, candidate_solution: &Vec<Pair>) -> (r: bool)
        ensures
            r == plausible(self.constraints_map@, unsolved@, candidate_solution@),
    {
        let ghost idx = self.constraints_map@;
        let mut i: usize = 0;
        while i < unsolved.len()
            invariant
                i <= unsolved.len(),
                idx == self.constraints_map@,
                forall|j: int| 0 <= j < i ==> has_partner(idx, unsolved@, candidate_solution@, #[trigger] unsolved@[j]),
            decreases unsolved.len() - i,
        {
            let u = unsolved[i];
            let mut found: bool = false;
            let mut k: usize = 0;
            while k < unsolved.len() && !found
                invariant
                    k <= unsolved.len(),
                    i < unsolved.len(),
                    idx == self.constraints_map@,
                    u == unsolved@[i as int],
                    found ==> has_partner(idx, unsolved@, candidate_solution@, u),
                    !found ==> forall|q: int| 0 <= q < k ==> {
                        let v = #[trigger] unsolved@[q];
                        !(v != u && !forbids(idx, u, v) && !matched(candidate_solution@, v))
                    },
                decreases unsolved.len() - k,
            {
                let v = unsolved[k];
                if v != u && !self.constraints_map.forbidden(u, v) && !is_committed(candidate_solution, v) {
                    assert(unsolved@.contains(v)) by {
                        assert(unsolved@[k as int] == v);
                    }
                    assert(!forbids(idx, u, v));
                    found = true;
                }
                k = k + 1;
            }
            if !found {
                assert(!has_partner(idx, unsolved@, candidate_solution@, u)) by {
                    if has_partner(idx, unsolved@, candidate_solution@, u) {
                        let v = choose|v: u32|
                            #![trigger unsolved@.contains(v), forbids(idx, u, v)]
                            unsolved@.contains(v) && v != u && !forbids(idx, u, v) && !matched(candidate_solution@, v);
                        let q = choose|q: int| 0 <= q < unsolved@.len() && unsolved@[q] == v;
                        assert(unsolved@[q] == v);
                    }
                }
                assert(unsolved@.contains(u)) by {
                    assert(unsolved@[i as int] == u);
                }
                return false;
            }
            i = i + 1;
        }
        assert forall|u: u32| #[trigger] unsolved@.contains(u) implies has_partner(
            idx,
            unsolved@,
            candidate_solution@,
            u,
        ) by {
            let j = choose|j: int| 0 <= j < unsolved@.len() && unsolved@[j] == u;
            assert(has_partner(idx, unsolved@, candidate_solution@, unsolved@[j]));
        }
        true
    }
}

/// A reordering keeps the members, and keeps them free of repetitions.
proof fn lemma_reorder_keeps_members(a: Seq<u32>, b: Seq<u32>)
    requires
        a.to_multiset() == b.to_multiset(),
        a.no_duplicates(),
    ensures
        forall|x: u32| a.contains(x) <==> b.contains(x),
        b.no_duplicates(),
{
    broadcast use vstd::seq_lib::group_to_multiset_ensures;
    a.lemma_multiset_has_no_duplicates();
    b.lemma_multiset_has_no_duplicates_conv();
    a.to_multiset_ensures();
    b.to_multiset_ensures();
    assert forall|x: u32| a.contains(x) <==> b.contains(x) by {
        assert(a.to_multiset().count(x) == b.to_multiset().count(x));
        assert(a.contains(x) <==> a.to_multiset().count(x) > 0);
        assert(b.contains(x) <==> b.to_multiset().count(x) > 0);
    }
}

/// The index that constraints on known participants induce is symmetric.
proof fn lemma_index_symmetric(parts: Seq<u32>, cs: Seq<Constraint>)
    requires
        constraints_known(parts, cs),
    ensures
        forall|a: u32, b: u32|
            #[trigger] forbids(exclusion_index(parts, cs), a, b) ==> forbids(exclusion_index(parts, cs), b, a),
{
    assert forall|a: u32, b: u32|
        #[trigger] forbids(exclusion_index(parts, cs), a, b) implies forbids(exclusion_index(parts, cs), b, a) by {
        let idx = exclusion_index(parts, cs);
        assert(idx[a].contains(b));
        assert(excluded(cs, a, b));
        let i = choose|i: int| 0 <= i < cs.len() && (#[trigger] ends(cs[i]) == (a, b) || ends(cs[i]) == (b, a));
        assert(parts.contains(ends(cs[i]).0) && parts.contains(ends(cs[i]).1));
        assert(excluded(cs, b, a));
        assert(idx.contains_key(b));
    }
}

/// Being a perfect matching depends on the participants as a set only.
proof fn lemma_perfect_same_members(a: Seq<u32>, b: Seq<u32>, idx: Map<u32, Set<u32>>, sol: Seq<Pair>)
    requires
        is_perfect_matching(a, idx, sol),
        forall|x: u32| a.contains(x) <==> b.contains(x),
    ensures
        is_perfect_matching(b, idx, sol),
{
    assert forall|i: int| 0 <= i < sol.len() implies #[trigger] pair_allowed(b, idx, sol[i]) by {
        assert(pair_allowed(a, idx, sol[i]));
    }
}

} // verus!
