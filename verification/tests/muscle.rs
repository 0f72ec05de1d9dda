use git_cuda_agent::muscle::{FiberType, MuscleFiber, MuscleManager};

#[test]
fn test_muscle_manager() {
    let mut mgr = MuscleManager::new();
    assert_eq!(mgr.available_count(), 4);
    if let Some(fiber) = mgr.acquire_best() {
        fiber.assign("inference");
    }
    assert_eq!(mgr.available_count(), 3);
}

#[test]
fn fiber_widths_and_throughputs() {
    let expect = [
        (FiberType::Scalar, 1, 2),
        (FiberType::Simd4, 4, 8),
        (FiberType::Simd8, 8, 16),
        (FiberType::Simd16, 16, 32),
        (FiberType::TensorCore, 16, 128),
        (FiberType::Memory, 1, 1),
    ];
    for (t, w, h) in expect {
        let f = MuscleFiber::new(t);
        assert_eq!(f.width, w);
        assert_eq!(f.throughput_half_ops_per_cycle, h);
        assert!(!f.active);
        assert!(f.current_task.is_empty());
    }
}

#[test]
fn assign_and_release() {
    let mut f = MuscleFiber::new(FiberType::Simd4);
    f.assign("job");
    assert!(f.active);
    assert_eq!(f.current_task, "job");
    f.release();
    assert!(!f.active);
    assert_eq!(f.current_task, "");
}

#[test]
fn acquire_best_picks_highest_throughput_first() {
    let mut mgr = MuscleManager::new();
    let order = [FiberType::TensorCore, FiberType::Simd16, FiberType::Simd8, FiberType::Memory];
    for expected in order {
        let f = mgr.acquire_best().unwrap();
        assert_eq!(format!("{:?}", f.fiber_type), format!("{:?}", expected));
        f.assign("t");
    }
    assert!(mgr.acquire_best().is_none());
    assert_eq!(mgr.available_count(), 0);
}

#[test]
fn acquire_best_takes_last_among_equals() {
    let mut mgr = MuscleManager { fibers: vec![MuscleFiber::new(FiberType::Simd8), MuscleFiber::new(FiberType::Simd8)] };
    mgr.fibers[1].current_task = "second".to_string();
    let f = mgr.acquire_best().unwrap();
    assert_eq!(f.current_task, "second");
    // half an op per cycle ranks as 0, like a scalar rate truncated
    let mut mem = MuscleManager { fibers: vec![MuscleFiber::new(FiberType::Scalar), MuscleFiber::new(FiberType::Memory)] };
    assert_eq!(format!("{:?}", mem.acquire_best().unwrap().fiber_type), "Scalar");
}

#[test]
fn total_throughput_counts_active_fibers() {
    let mut mgr = MuscleManager::new();
    assert_eq!(mgr.total_throughput(), 0);
    mgr.fibers[0].assign("a");
    mgr.fibers[3].assign("b");
    // 64 + 0.5 ops per cycle
    assert_eq!(mgr.total_throughput(), 129);
    assert_eq!(mgr.total_throughput() as f64 / 2.0, 64.5);
}
