use git_cuda_agent::ramify::{BranchOutcome, BranchPoint, RamifyEngine};

#[test]
fn test_ramify_engine() {
    let mut engine = RamifyEngine::new(32);
    engine.record_branch(0x100, 32); // all taken
    engine.record_branch(0x100, 0); // none taken
    engine.record_branch(0x100, 15); // divergent
    let (div, total) = engine.overall_divergence();
    assert!(div as f64 / total as f64 > 0.0);
    assert_eq!(engine.high_divergence_branches().len(), 1);
}

#[test]
fn outcomes() {
    let mut engine = RamifyEngine::new(4);
    assert_eq!(engine.record_branch(1, 0), BranchOutcome::NotTaken);
    assert_eq!(engine.record_branch(1, 4), BranchOutcome::Taken);
    assert_eq!(engine.record_branch(1, 2), BranchOutcome::Divergent);
    assert_eq!(engine.record_branch(1, 5), BranchOutcome::Divergent);
    let mut zero = RamifyEngine::new(0);
    assert_eq!(zero.record_branch(9, 0), BranchOutcome::NotTaken);
}

#[test]
fn branch_points_are_created_once_per_address() {
    let mut engine = RamifyEngine::new(32);
    engine.record_branch(0x10, 3);
    engine.record_branch(0x20, 32);
    engine.record_branch(0x10, 0);
    assert_eq!(engine.branches.len(), 2);
    let a = &engine.branches[0];
    assert_eq!((a.id, a.address, a.divergence_count, a.total_branches), (0, 0x10, 1, 2));
    assert_eq!(a.last_outcome, BranchOutcome::NotTaken);
    let b = &engine.branches[1];
    assert_eq!((b.id, b.address, b.divergence_count, b.total_branches), (1, 0x20, 0, 1));
}

#[test]
fn divergence_rate_fraction() {
    let bp = BranchPoint {
        id: 0,
        address: 0,
        divergence_count: 0,
        total_branches: 0,
        last_outcome: BranchOutcome::Taken,
    };
    assert_eq!(bp.divergence_rate(), (0, 1));
    let bp = BranchPoint { divergence_count: 2, total_branches: 5, ..bp };
    assert_eq!(bp.divergence_rate(), (2, 5));
}

#[test]
fn threshold_is_strict() {
    let mut engine = RamifyEngine::new(32);
    assert_eq!(engine.divergence_threshold, (3, 10));
    // exactly 3 of 10 divergent: not above the threshold
    for i in 0..10 {
        engine.record_branch(1, if i < 3 { 5 } else { 32 });
    }
    // 4 of 10 divergent: above it
    for i in 0..10 {
        engine.record_branch(2, if i < 4 { 5 } else { 0 });
    }
    let high = engine.high_divergence_branches();
    assert_eq!(high.len(), 1);
    assert_eq!(high[0].address, 2);
    assert!(0.3 >= 3.0f64 / 10.0 && 4.0f64 / 10.0 > 0.3);
}

#[test]
fn overall_divergence_values() {
    let engine = RamifyEngine::new(8);
    assert_eq!(engine.overall_divergence(), (0, 1));
    let mut engine = RamifyEngine::new(8);
    engine.record_branch(1, 3);
    engine.record_branch(2, 8);
    engine.record_branch(2, 1);
    engine.record_branch(3, 0);
    assert_eq!(engine.overall_divergence(), (2, 4));
}
