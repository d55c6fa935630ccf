use pairing::session::run_sessions;
use std::collections::HashSet;

#[test]
fn six_participants_five_sessions_cover_every_pair_once() {
    let report = run_sessions(6, 5, 0xc18131e85914);
    assert!(report.failures.is_empty());
    assert_eq!(report.sessions.len(), 5);
    assert_eq!(report.steps.len(), 5);
    let mut seen = HashSet::new();
    for session in &report.sessions {
        assert_eq!(session.len(), 3);
        for &(a, b) in session {
            assert_ne!(a, b);
            let key = if a < b { (a, b) } else { (b, a) };
            assert!(seen.insert(key), "pair {:?} repeated", key);
        }
    }
    assert_eq!(seen.len(), 15);
}

#[test]
fn sessions_beyond_the_maximum_fail() {
    let report = run_sessions(4, 4, 1);
    assert_eq!(report.sessions.len(), 3);
    assert_eq!(report.failures, vec![(4, 4)]);
}

#[test]
fn odd_population_fails_first_session() {
    let report = run_sessions(5, 3, 1);
    assert!(report.sessions.is_empty());
    assert_eq!(report.failures, vec![(5, 1)]);
}

#[test]
fn no_pair_repeats_across_sessions() {
    let report = run_sessions(10, 4, 99);
    let mut seen = HashSet::new();
    for session in &report.sessions {
        let mut members = HashSet::new();
        for &(a, b) in session {
            assert!(members.insert(a) && members.insert(b));
            let key = if a < b { (a, b) } else { (b, a) };
            assert!(seen.insert(key));
        }
        assert_eq!(members.len(), 10);
    }
}

#[test]
fn zero_sessions_is_empty_report() {
    let report = run_sessions(6, 0, 1);
    assert!(report.sessions.is_empty());
    assert!(report.failures.is_empty());
}
