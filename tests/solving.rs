use rand::rngs::SmallRng;
use rand::SeedableRng;
use pairing::constraints::{Constraint, SolveError};
use pairing::session::solve;
use pairing::solver::{all_committed, is_committed, unmatched_of, without, Satisfactory, SatisfactoryRunner};

fn self_exclusions(ids: &[u32]) -> Vec<Constraint> {
    ids.iter().map(|&i| Constraint::DisallowTogether(i, i)).collect()
}

fn assert_perfect(ids: &[u32], pairs: &[(u32, u32)]) {
    assert_eq!(pairs.len() * 2, ids.len());
    for id in ids {
        let n = pairs.iter().filter(|p| p.0 == *id || p.1 == *id).count();
        assert_eq!(n, 1, "participant {} appears {} times", id, n);
    }
    for p in pairs {
        assert_ne!(p.0, p.1);
    }
}

fn normalized(pairs: &[(u32, u32)]) -> Vec<(u32, u32)> {
    let mut v: Vec<(u32, u32)> = pairs.iter().map(|&(a, b)| if a < b { (a, b) } else { (b, a) }).collect();
    v.sort();
    v
}

#[test]
fn four_participants_self_exclusions_only() {
    let ids = vec![1, 2, 3, 4];
    let (pairs, steps) = solve(&ids, &self_exclusions(&ids), 0xc18131e85914).unwrap();
    assert_perfect(&ids, &pairs);
    assert!(steps >= 1);
}

#[test]
fn same_seed_same_solution_and_steps() {
    let ids: Vec<u32> = (1..=10).collect();
    let cs = self_exclusions(&ids);
    let a = solve(&ids, &cs, 42).unwrap();
    let b = solve(&ids, &cs, 42).unwrap();
    assert_eq!(a, b);
    assert_perfect(&ids, &a.0);
}

#[test]
fn odd_population_is_invalid() {
    let ids = vec![1, 2, 3];
    assert_eq!(solve(&ids, &self_exclusions(&ids), 7), Err(SolveError::InvalidInput));
}

#[test]
fn unknown_participant_is_invalid() {
    let ids = vec![1, 2, 3, 4];
    let mut cs = self_exclusions(&ids);
    cs.push(Constraint::DisallowTogether(1, 9));
    assert_eq!(solve(&ids, &cs, 7), Err(SolveError::InvalidInput));
}

#[test]
fn empty_population_finds_nothing() {
    let ids: Vec<u32> = vec![];
    assert_eq!(solve(&ids, &vec![], 7), Err(SolveError::NoFeasibleMatching));
}

#[test]
fn two_participants_pair_up() {
    let ids = vec![5, 9];
    let (pairs, _) = solve(&ids, &self_exclusions(&ids), 3).unwrap();
    assert_eq!(normalized(&pairs), vec![(5, 9)]);
}

#[test]
fn forced_matching_is_returned() {
    let ids = vec![1, 2, 3, 4];
    let mut cs = self_exclusions(&ids);
    cs.push(Constraint::DisallowTogether(1, 3));
    cs.push(Constraint::DisallowTogether(1, 4));
    cs.push(Constraint::DisallowTogether(2, 3));
    cs.push(Constraint::DisallowTogether(4, 2));
    for seed in 0..20u64 {
        let (pairs, _) = solve(&ids, &cs, seed).unwrap();
        assert_eq!(normalized(&pairs), vec![(1, 2), (3, 4)]);
    }
}

#[test]
fn all_pairs_excluded_is_infeasible() {
    let ids = vec![1, 2, 3, 4];
    let mut cs = self_exclusions(&ids);
    for a in 1..=4u32 {
        for b in (a + 1)..=4u32 {
            cs.push(Constraint::DisallowTogether(a, b));
        }
    }
    assert_eq!(solve(&ids, &cs, 11), Err(SolveError::NoFeasibleMatching));
}

#[test]
fn star_shaped_exclusions_are_infeasible() {
    // Only 1-3, 2-3 and 3-4 are allowed: participant 3 is everyone's only partner.
    let ids = vec![1, 2, 3, 4];
    let mut cs = self_exclusions(&ids);
    cs.push(Constraint::DisallowTogether(1, 2));
    cs.push(Constraint::DisallowTogether(1, 4));
    cs.push(Constraint::DisallowTogether(2, 4));
    for seed in 0..20u64 {
        assert_eq!(solve(&ids, &cs, seed), Err(SolveError::NoFeasibleMatching));
    }
}

#[test]
fn exclusions_are_respected() {
    let ids: Vec<u32> = (1..=8).collect();
    let mut cs = self_exclusions(&ids);
    let banned = [(1, 2), (3, 1), (4, 5), (6, 7), (8, 1), (2, 3)];
    for (a, b) in banned {
        cs.push(Constraint::DisallowTogether(a, b));
    }
    for seed in 0..10u64 {
        let (pairs, _) = solve(&ids, &cs, seed).unwrap();
        assert_perfect(&ids, &pairs);
        for p in &pairs {
            for (a, b) in banned {
                assert!(!(p.0 == a && p.1 == b) && !(p.0 == b && p.1 == a));
            }
        }
    }
}

#[test]
fn runner_shuffles_and_records_steps() {
    let ids: Vec<u32> = (1..=20).collect();
    let mut problem = Satisfactory::new(ids.clone());
    problem.groupings_of(2);
    for c in self_exclusions(&ids) {
        problem.add_constraint(c);
    }
    assert_eq!(problem.group_size, 2);
    assert_eq!(problem.constraints.len(), 20);
    let mut runner = SatisfactoryRunner::new(problem);
    let mut rng = SmallRng::seed_from_u64(0xc18131e85914);
    let pairs = runner.run(&mut rng).unwrap();
    assert_perfect(&ids, &pairs);
    assert!(runner.calls >= 1);
    let mut order = runner.data.data.clone();
    assert_ne!(order, ids);
    order.sort();
    assert_eq!(order, ids);
}

#[test]
fn runner_rejects_unknown_participant_in_index() {
    let mut problem = Satisfactory::new(vec![1, 2]);
    problem.add_constraint(Constraint::DisallowTogether(2, 3));
    let mut runner = SatisfactoryRunner::new(problem);
    assert_eq!(runner.build_contraints_map(), Err(SolveError::InvalidInput));
}

#[test]
fn plausibility_check() {
    let mut problem = Satisfactory::new(vec![1, 2, 3, 4]);
    for c in [(1, 1), (2, 2), (3, 3), (4, 4), (3, 4)] {
        problem.add_constraint(Constraint::DisallowTogether(c.0, c.1));
    }
    let mut runner = SatisfactoryRunner::new(problem);
    runner.build_contraints_map().unwrap();
    // With 1 and 2 committed, 3 and 4 remain but may not be paired.
    assert!(!runner.solution_is_plausible(&vec![3, 4], &vec![(1, 2)]));
    // With 1 and 3 committed, 2 and 4 remain and may be paired.
    assert!(runner.solution_is_plausible(&vec![2, 4], &vec![(1, 3)]));
    // Nothing committed yet: 3 and 4 still may not be paired.
    assert!(!runner.solution_is_plausible(&vec![3, 4], &vec![]));
    assert!(runner.solution_is_plausible(&vec![1, 2, 3, 4], &vec![]));
}

#[test]
fn helpers_on_concrete_values() {
    let sol = vec![(1, 2), (5, 6)];
    assert!(is_committed(&sol, 6));
    assert!(!is_committed(&sol, 3));
    assert_eq!(unmatched_of(&vec![1, 2, 3, 4, 5, 6], &sol), vec![3, 4]);
    assert_eq!(without(&vec![4, 1, 4, 2], 4), vec![1, 2]);
    assert!(all_committed(&vec![1, 2, 6], &sol));
    assert!(!all_committed(&vec![1, 3], &sol));
}

fn completable_by_brute_force(allowed: &dyn Fn(u32, u32) -> bool, free: &[u32]) -> bool {
    if free.is_empty() {
        return true;
    }
    let first = free[0];
    for k in 1..free.len() {
        if allowed(first, free[k]) {
            let rest: Vec<u32> = free.iter().enumerate().filter(|(i, _)| *i != 0 && *i != k).map(|(_, &x)| x).collect();
            if completable_by_brute_force(allowed, &rest) {
                return true;
            }
        }
    }
    false
}

#[test]
fn pruning_never_discards_a_completable_state() {
    let ids: Vec<u32> = (1..=6).collect();
    let banned = [(2, 6), (3, 6), (4, 6), (5, 6), (2, 5)];
    let mut problem = Satisfactory::new(ids.clone());
    for &i in &ids {
        problem.add_constraint(Constraint::DisallowTogether(i, i));
    }
    for (a, b) in banned {
        problem.add_constraint(Constraint::DisallowTogether(a, b));
    }
    let mut runner = SatisfactoryRunner::new(problem);
    runner.build_contraints_map().unwrap();
    let allowed = |a: u32, b: u32| {
        a != b && !banned.iter().any(|&(x, y)| (x == a && y == b) || (x == b && y == a))
    };
    let mut pruned = 0;
    for a in 1..=6u32 {
        for b in (a + 1)..=6u32 {
            if !allowed(a, b) {
                continue;
            }
            let sol = vec![(a, b)];
            let free: Vec<u32> = ids.iter().copied().filter(|&x| x != a && x != b).collect();
            if !runner.solution_is_plausible(&free, &sol) {
                pruned += 1;
                assert!(!completable_by_brute_force(&allowed, &free));
            }
        }
    }
    assert!(pruned > 0);
}
