use crate::constraints::{constraints_known, ends, excluded, exclusion_index, Constraint, SolveError};
use crate::matching::{forbids, has_perfect_matching, is_perfect_matching, pair_allowed, Pair};
use crate::random::seeded;
use crate::solver::{Satisfactory, SatisfactoryRunner};
use vstd::prelude::*;

verus! {

/// The participants `1..=n`.
pub open spec fn population(n: u32) -> Seq<u32> {
    Seq::new(n as nat, |i: int| (i + 1) as u32)
}

/// Whether two pairs hold the same two participants, in either order.
pub open spec fn same_pair(p: Pair, q: Pair) -> bool {
    (p.0 == q.0 && p.1 == q.1) || (p.0 == q.1 && p.1 == q.0)
}

/// No unordered pair occurs in two different sessions.
pub open spec fn no_repeats(sessions: Seq<Vec<Pair>>) -> bool {
    forall|s1: int, s2: int, i: int, j: int|
        0 <= s1 < s2 < sessions.len() && 0 <= i < sessions[s1]@.len() && 0 <= j < sessions[s2]@.len()
            ==> !same_pair(#[trigger] sessions[s1]@[i], #[trigger] sessions[s2]@[j])
}

/// A perfect matching of `parts`, without self-pairs, that repeats no pair
/// of `sessions`.
pub open spec fn fresh_matching(parts: Seq<u32>, sessions: Seq<Vec<Pair>>, m: Seq<Pair>) -> bool {
    &&& is_perfect_matching(parts, Map::<u32, Set<u32>>::empty(), m)
    &&& forall|s: int, i: int, j: int|
        0 <= s < sessions.len() && 0 <= i < sessions[s]@.len() && 0 <= j < m.len() ==> !same_pair(
            #[trigger] sessions[s]@[i],
            #[trigger] m[j],
        )
}

/// What a run of sessions produced: the pairing of each session, the search
/// steps each took, and the (population size, session index) at which the
/// run stopped for want of a pairing, if it did.
pub struct SessionReport {
    pub sessions: Vec<Vec<Pair>>,
    pub steps: Vec<u64>,
    pub failures: Vec<(u32, u32)>,
}

/// A copy of `v`.
fn copy_ids(v: &Vec<u32>) -> (r: Vec<u32>)
    ensures
        r@ == v@,
{
    let mut r: Vec<u32> = Vec::new();
    let mut i: usize = 0;
    while i < v.len()
        invariant
            i <= v.len(),
            r@ == v@.take(i as int),
        decreases v.len() - i,
    {
        r.push(v[i]);
        assert(v@.take(i + 1) =~= v@.take(i as int).push(v@[i as int]));
        i = i + 1;
    }
    assert(v@.take(i as int) =~= v@);
    r
}

/// Finds one pairing of `participants` under `exclusions`, shuffling the
/// trial order with a generator seeded by `seed`. Returns the pairs and the
/// number of search steps taken. Fails with `InvalidInput` exactly when the
/// population is odd or an exclusion names an unknown participant. Otherwise
/// it succeeds exactly when the population is not empty and has a perfect
/// matching under the exclusions, and fails with `NoFeasibleMatching` else.
pub fn solve(participants: &Vec<u32>, exclusions: &Vec<Constraint>, seed: u64) -> (r: Result<
    (Vec<Pair>, u64),
    SolveError,
>)
    requires
        participants@.no_duplicates(),
    ensures
        (r == Err::<(Vec<Pair>, u64), SolveError>(SolveError::InvalidInput)) <==> (participants@.len() % 2 == 1
            || !constraints_known(participants@, exclusions@)),
        r matches Ok((sol, _)) ==> is_perfect_matching(
            participants@,
            exclusion_index(participants@, exclusions@),
            sol@,
        ),
        r is Ok <==> (participants@.len() % 2 == 0 && participants@.len() > 0 && constraints_known(
            participants@,
            exclusions@,
        ) && has_perfect_matching(participants@, exclusion_index(participants@, exclusions@))),
{
    let mut problem = Satisfactory::new(copy_ids(participants));
    problem.groupings_of(2);
    let mut k: usize = 0;
    while k < exclusions.len()
        invariant
            k <= exclusions.len(),
            problem.data@ == participants@,
            problem.constraints@ == exclusions@.take(k as int),
        decreases exclusions.len() - k,
    {
        problem.add_constraint(exclusions[k]);
        assert(exclusions@.take(k + 1) =~= exclusions@.take(k as int).push(exclusions@[k as int]));
        k = k + 1;
    }
    assert(exclusions@.take(k as int) =~= exclusions@);
    let mut runner = SatisfactoryRunner::new(problem);
    let mut rng = seeded(seed);
    match runner.run(&mut rng) {
        Ok(sol) => Ok((sol, runner.calls)),
        Err(e) => Err(e),
    }
}

/// The participants `1..=n` as a vector.
fn population_of(n: u32) -> (r: Vec<u32>)
    ensures
        r@ == population(n),
        r@.no_duplicates(),
{
    let mut r: Vec<u32> = Vec::new();
    let mut i: u32 = 0;
    while i < n
        invariant
            i <= n,
            r@ == population(i),
        decreases n - i,
    {
        r.push(i + 1);
        assert(r@ =~= population((i + 1) as u32));
        i = i + 1;
    }
    r
}

/// Runs up to `session_count` sessions over the participants
/// `1..=population_size`. Each session pairs everyone while avoiding
/// self-pairs and every pair of an earlier session; the run stops at the
/// first session for which no pairing is found and records it as a failure.
pub fn run_sessions(population_size: u32, session_count: u32, seed: u64) -> (r: SessionReport)
    ensures
        r.sessions@.len() <= session_count,
        r.steps@.len() == r.sessions@.len(),
        forall|s: int|
            0 <= s < r.sessions@.len() ==> is_perfect_matching(
                population(population_size),
                Map::<u32, Set<u32>>::empty(),
                #[trigger] r.sessions@[s]@,
            ),
        no_repeats(r.sessions@),
        r.failures@.len() <= 1,
        r.failures@.len() == 0 <==> r.sessions@.len() == session_count,
        r.failures@.len() == 1 ==> r.failures@[0] == (population_size, (r.sessions@.len() + 1) as u32),
        population_size % 2 == 1 ==> r.sessions@.len() == 0,
        r.failures@.len() == 1 && population_size % 2 == 0 && population_size > 0 ==> !exists|m: Seq<Pair>|
            #[trigger] fresh_matching(population(population_size), r.sessions@, m),
{
    let ghost pop = population(population_size);
    let participants = population_of(population_size);
    let mut rng = seeded(seed);
    let mut prior: Vec<Constraint> = Vec::new();
    let mut sessions: Vec<Vec<Pair>> = Vec::new();
    let mut steps: Vec<u64> = Vec::new();
    let failures: Vec<(u32, u32)> = Vec::new();
    let ghost mut origin: Seq<(int, int)> = Seq::empty();
    let mut s: u32 = 0;
    while s < session_count
        invariant
            s <= session_count,
            origin.len() == prior@.len(),
            forall|m: int|
                0 <= m < prior@.len() ==> {
                    let (k, i) = #[trigger] origin[m];
                    &&& 0 <= k < sessions@.len()
                    &&& 0 <= i < sessions@[k]@.len()
                    &&& prior@[m] == Constraint::DisallowTogether(sessions@[k]@[i].0, sessions@[k]@[i].1)
                },
            participants@ == pop,
            pop == population(population_size),
            participants@.no_duplicates(),
            sessions@.len() == s,
            steps@.len() == s,
            failures@.len() == 0,
            forall|k: int|
                0 <= k < sessions@.len() ==> is_perfect_matching(
                    pop,
                    Map::<u32, Set<u32>>::empty(),
                    #[trigger] sessions@[k]@,
                ),
            no_repeats(sessions@),
            forall|k: int, i: int|
                0 <= k < sessions@.len() && 0 <= i < sessions@[k]@.len() ==> prior@.contains(
                    Constraint::DisallowTogether(#[trigger] sessions@[k]@[i].0, sessions@[k]@[i].1),
                ),
            forall|m: int| 0 <= m < prior@.len() ==> pop.contains(#[trigger] ends(prior@[m]).0) && pop.contains(ends(prior@[m]).1),
            population_size % 2 == 1 ==> s == 0,
        decreases session_count - s,
    {
        let mut problem = Satisfactory::new(copy_ids(&participants));
        problem.groupings_of(2);
        let mut k: usize = 0;
        while k < prior.len()
            invariant
                k <= prior.len(),
                problem.data@ == pop,
                problem.constraints@ == prior@.take(k as int),
            decreases prior.len() - k,
        {
            problem.add_constraint(prior[k]);
            assert(prior@.take(k + 1) =~= prior@.take(k as int).push(prior@[k as int]));
            k = k + 1;
        }
        assert(prior@.take(k as int) =~= prior@);
        let mut i: u32 = 0;
        while i < population_size
            invariant
                i <= population_size,
                problem.data@ == pop,
                pop == population(population_size),
                problem.constraints@.len() == prior@.len() + i,
                forall|m: int| 0 <= m < prior@.len() ==> problem.constraints@[m] == prior@[m],
                forall|m: int|
                    prior@.len() <= m < problem.constraints@.len() ==> pop.contains(#[trigger] ends(problem.constraints@[m]).0)
                        && pop.contains(ends(problem.constraints@[m]).1)
                        && ends(problem.constraints@[m]).0 == ends(problem.constraints@[m]).1,
            decreases population_size - i,
        {
            problem.add_constraint(Constraint::DisallowTogether(i + 1, i + 1));
            assert(pop[i as int] == i + 1);
            assert(pop.contains((i + 1) as u32));
            i = i + 1;
        }
        let ghost cs = problem.constraints@;
        assert(constraints_known(pop, cs)) by {
            assert forall|m: int| 0 <= m < cs.len() implies pop.contains(#[trigger] ends(cs[m]).0) && pop.contains(ends(cs[m]).1) by {
                if m < prior@.len() {
                    assert(ends(prior@[m]) == ends(cs[m]));
                }
            }
        }
        let mut runner = SatisfactoryRunner::new(problem);
        match runner.run(&mut rng) {
            Ok(sol) => {
                let ghost idx = exclusion_index(pop, cs);
                let ghost old_sessions = sessions@;
                let ghost old_prior = prior@;
                assert forall|k2: int, i2: int, j2: int|
                    0 <= k2 < old_sessions.len() && 0 <= i2 < old_sessions[k2]@.len() && 0 <= j2 < sol@.len()
                        implies !same_pair(#[trigger] old_sessions[k2]@[i2], #[trigger] sol@[j2]) by {
                    let p = old_sessions[k2]@[i2];
                    let q = sol@[j2];
                    assert(pair_allowed(pop, idx, q));
                    assert(old_prior.contains(Constraint::DisallowTogether(p.0, p.1)));
                    let m = choose|m: int| 0 <= m < old_prior.len() && old_prior[m] == Constraint::DisallowTogether(p.0, p.1);
                    assert(cs[m] == old_prior[m]);
                    assert(ends(cs[m]) == (p.0, p.1));
                    assert(excluded(cs, p.0, p.1));
                    assert(excluded(cs, p.1, p.0));
                    if same_pair(p, q) {
                        if p.0 == q.0 {
                            assert(forbids(idx, q.0, q.1));
                        } else {
                            assert(forbids(idx, q.1, q.0));
                        }
                    }
                }
                let ghost old_origin = origin;
                let mut j: usize = 0;
                while j < sol.len()
                    invariant
                        j <= sol.len(),
                        origin.len() == prior@.len(),
                        old_origin.len() == old_prior.len(),
                        forall|m: int| 0 <= m < old_prior.len() ==> origin[m] == old_origin[m],
                        forall|m: int| old_prior.len() <= m < prior@.len() ==> #[trigger] origin[m] == (s as int, m - old_prior.len()),
                        prior@.len() == old_prior.len() + j,
                        forall|m: int| 0 <= m < old_prior.len() ==> prior@[m] == old_prior[m],
                        forall|m: int| 0 <= m < j ==> prior@[old_prior.len() + m] == Constraint::DisallowTogether(#[trigger] sol@[m].0, sol@[m].1),
                        forall|m: int| 0 <= m < prior@.len() ==> pop.contains(#[trigger] ends(prior@[m]).0) && pop.contains(ends(prior@[m]).1),
                        is_perfect_matching(pop, idx, sol@),
                    decreases sol.len() - j,
                {
                    let p = sol[j];
                    assert(pair_allowed(pop, idx, sol@[j as int]));
                    prior.push(Constraint::DisallowTogether(p.0, p.1));
                    proof {
                        origin = origin.push((s as int, j as int));
                    }
                    j = j + 1;
                }
                assert forall|k2: int, i2: int|
                    0 <= k2 < old_sessions.len() && 0 <= i2 < old_sessions[k2]@.len() implies prior@.contains(
                    Constraint::DisallowTogether(#[trigger] old_sessions[k2]@[i2].0, old_sessions[k2]@[i2].1)) by {
                    let c = Constraint::DisallowTogether(old_sessions[k2]@[i2].0, old_sessions[k2]@[i2].1);
                    assert(old_prior.contains(c));
                    let m = choose|m: int| 0 <= m < old_prior.len() && old_prior[m] == c;
                    assert(prior@[m] == c);
                }
                assert forall|i2: int| 0 <= i2 < sol@.len() implies prior@.contains(
                    Constraint::DisallowTogether(#[trigger] sol@[i2].0, sol@[i2].1)) by {
                    assert(prior@[old_prior.len() + i2] == Constraint::DisallowTogether(sol@[i2].0, sol@[i2].1));
                }
                assert(is_perfect_matching(pop, Map::<u32, Set<u32>>::empty(), sol@)) by {
                    assert forall|m: int| 0 <= m < sol@.len() implies #[trigger] pair_allowed(pop, Map::<u32, Set<u32>>::empty(), sol@[m]) by {
                        assert(pair_allowed(pop, idx, sol@[m]));
                    }
                }
                steps.push(runner.calls);
                sessions.push(sol);
                assert(sessions@ =~= old_sessions.push(sol));
                assert(sessions@[s as int]@ == sol@);
                assert forall|k2: int| 0 <= k2 < old_sessions.len() implies sessions@[k2] == old_sessions[k2] by {}
                assert forall|m: int| 0 <= m < prior@.len() implies {
                    let (k, i) = #[trigger] origin[m];
                    &&& 0 <= k < sessions@.len()
                    &&& 0 <= i < sessions@[k]@.len()
                    &&& prior@[m] == Constraint::DisallowTogether(sessions@[k]@[i].0, sessions@[k]@[i].1)
                } by {
                    if m < old_prior.len() {
                        assert(origin[m] == old_origin[m]);
                        assert(prior@[m] == old_prior[m]);
                    } else {
                        assert(origin[m] == (s as int, m - old_prior.len()));
                        assert(prior@[old_prior.len() + (m - old_prior.len())] == Constraint::DisallowTogether(sol@[m - old_prior.len()].0, sol@[m - old_prior.len()].1));
                    }
                }
            },
            Err(_) => {
                proof {
                    if population_size % 2 == 0 && population_size > 0 {
                        let idx = exclusion_index(pop, cs);
                        assert(!has_perfect_matching(pop, idx));
                        assert forall|m: Seq<Pair>| !#[trigger] fresh_matching(pop, sessions@, m) by {
                            if fresh_matching(pop, sessions@, m) {
                                assert forall|j: int| 0 <= j < m.len() implies #[trigger] pair_allowed(pop, idx, m[j]) by {
                                    let q = m[j];
                                    assert(pair_allowed(pop, Map::<u32, Set<u32>>::empty(), q));
                                    assert forall|a: u32, b: u32| (a, b) == q || (b, a) == q implies !excluded(cs, a, b) by {
                                        if excluded(cs, a, b) {
                                            let t = choose|t: int|
                                                0 <= t < cs.len() && (#[trigger] ends(cs[t]) == (a, b) || ends(cs[t]) == (b, a));
                                            if t < prior@.len() {
                                                assert(cs[t] == prior@[t]);
                                                let (k, i) = origin[t];
                                                assert(0 <= k < sessions@.len() && 0 <= i < sessions@[k]@.len());
                                                assert(ends(cs[t]) == (sessions@[k]@[i].0, sessions@[k]@[i].1));
                                                assert(same_pair(sessions@[k]@[i], m[j]));
                                                assert(!same_pair(sessions@[k]@[i], m[j]));
                                            } else {
                                                assert(ends(cs[t]).0 == ends(cs[t]).1);
                                            }
                                        }
                                    }
                                    assert(!excluded(cs, q.0, q.1));
                                    assert(!excluded(cs, q.1, q.0));
                                }
                                assert(is_perfect_matching(pop, idx, m));
                            }
                        }
                    }
                }
                let mut failures = failures;
                failures.push((population_size, s + 1));
                return SessionReport { sessions, steps, failures };
            },
        }
        s = s + 1;
    }
    SessionReport { sessions, steps, failures }
}

} // verus!
