use minesolver::probability::{apply_guess_luck, ProbMap, PROB_ONE};

#[test]
fn normalization_caps_frontier_mass() {
    let mut pm = ProbMap::new(5);
    pm.insert(0, 900_000);
    pm.insert(2, 900_000);
    pm.insert(4, 900_000);
    assert_eq!(pm.total(), 2_700_000);
    let shrink = pm.normalize(1_000_000);
    assert!(shrink > 0);
    assert!(pm.total() <= 1_000_000);
}

#[test]
fn normalization_leaves_fitting_mass_alone() {
    let mut pm = ProbMap::new(4);
    pm.insert(1, 200_000);
    pm.insert(3, 300_000);
    let shrink = pm.normalize(1_000_000);
    assert_eq!(shrink, 0);
    assert_eq!(pm.total(), 500_000);
    assert_eq!(pm.get(1), 200_000);
    assert_eq!(pm.get(3), 300_000);
}

#[test]
fn map_tracks_membership_and_minimum() {
    let mut pm = ProbMap::new(6);
    assert_eq!(pm.len(), 0);
    assert_eq!(pm.min_entry(), None);
    pm.insert(4, 400_000);
    pm.insert(1, 250_000);
    pm.insert(5, 250_000);
    assert_eq!(pm.len(), 3);
    assert!(pm.contains(4));
    assert!(!pm.contains(0));
    // the earliest of the tied minima wins
    assert_eq!(pm.min_entry(), Some((1, 250_000)));
}

#[test]
fn luck_multiplies_survival_chance() {
    assert_eq!(apply_guess_luck(PROB_ONE, 250_000), 750_000);
    let after_first = apply_guess_luck(PROB_ONE, 100_000);
    assert_eq!(after_first, 900_000);
    let after_second = apply_guess_luck(after_first, 500_000);
    assert_eq!(after_second, 450_000);
    assert!(after_second <= after_first);
    assert_eq!(apply_guess_luck(after_second, 0), after_second);
}
