//! Muscle fibers: the parallel compute paths of an agent, and their manager.
use vstd::prelude::*;

verus! {

/// The compute pattern of a fiber.
#[derive(Debug, Clone, Copy, PartialEq, Eq, Structural)]
pub enum FiberType {
    /// Single value operations.
    Scalar,
    /// 4-wide SIMD.
    Simd4,
    /// 8-wide SIMD.
    Simd8,
    /// 16-wide SIMD.
    Simd16,
    /// Matrix multiply in 4x4 chunks.
    TensorCore,
    /// Asynchronous memory transfer.
    Memory,
}

/// The SIMD width of a fiber type.
pub open spec fn width_of(t: FiberType) -> usize {
    match t {
        FiberType::Scalar => 1,
        FiberType::Simd4 => 4,
        FiberType::Simd8 => 8,
        FiberType::Simd16 => 16,
        FiberType::TensorCore => 16,
        FiberType::Memory => 1,
    }
}

/// The throughput of a fiber type, in half operations per cycle: scalar 1
/// op, SIMD one op per lane, tensor core 64 ops (4x4x4 multiply-adds),
/// memory half an op.
pub open spec fn half_ops_of(t: FiberType) -> u64 {
    match t {
        FiberType::Scalar => 2,
        FiberType::Simd4 => 8,
        FiberType::Simd8 => 16,
        FiberType::Simd16 => 32,
        FiberType::TensorCore => 128,
        FiberType::Memory => 1,
    }
}

/// A parallel compute path.
///
/// Its throughput is held in half operations per cycle, so that half-op
/// rates such as that of a memory fiber are exact.
#[derive(Debug, Clone)]
pub struct MuscleFiber {
    pub fiber_type: FiberType,
    pub width: usize,
    pub throughput_half_ops_per_cycle: u64,
    pub active: bool,
    pub current_task: String,
}

/// The whole operations per cycle of a fiber, rounded toward zero and capped
/// at `u32::MAX`: the key by which `acquire_best` ranks fibers.
pub open spec fn rank_of(f: MuscleFiber) -> u32 {
    if f.throughput_half_ops_per_cycle / 2 > u32::MAX {
        u32::MAX
    } else {
        (f.throughput_half_ops_per_cycle / 2) as u32
    }
}

/// The number of fibers of `s` that are not active.
pub open spec fn count_available(s: Seq<MuscleFiber>) -> nat
    decreases s.len(),
{
    if s.len() == 0 {
        0
    } else {
        count_available(s.drop_last()) + if s.last().active {
            0nat
        } else {
            1nat
        }
    }
}

/// The summed throughput, in half operations per cycle, of the active
/// fibers of `s`.
pub open spec fn active_half_ops(s: Seq<MuscleFiber>) -> nat
    decreases s.len(),
{
    if s.len() == 0 {
        0
    } else {
        active_half_ops(s.drop_last()) + if s.last().active {
            s.last().throughput_half_ops_per_cycle as nat
        } else {
            0nat
        }
    }
}

/// `i` is the position that `acquire_best` picks in `s`: an inactive fiber
/// of the highest rank among the inactive ones, the last such.
pub open spec fn best_available(s: Seq<MuscleFiber>, i: int) -> bool {
    &&& 0 <= i < s.len()
    &&& !s[i].active
    &&& forall|j: int| 0 <= j < s.len() && !#[trigger] s[j].active ==> rank_of(s[j]) <= rank_of(s[i])
    &&& forall|j: int| i < j < s.len() && !#[trigger] s[j].active ==> rank_of(s[j]) < rank_of(s[i])
}

impl MuscleFiber {
    /// An idle fiber of the given type, with that type's width and
    /// throughput and no task.
    pub fn new(fiber_type: FiberType) -> (r: Self)
        ensures
            r.fiber_type == fiber_type,
            r.width == width_of(fiber_type),
            r.throughput_half_ops_per_cycle == half_ops_of(fiber_type),
            !r.active,
            r.current_task@ == Seq::<char>::empty(),
    {
        let (width, half_ops): (usize, u64) = match fiber_type {
            FiberType::Scalar => (1, 2),
            FiberType::Simd4 => (4, 8),
            FiberType::Simd8 => (8, 16),
            FiberType::Simd16 => (16, 32),
            FiberType::TensorCore => (16, 128),
            FiberType::Memory => (1, 1),
        };
        MuscleFiber {
            fiber_type,
            width,
            throughput_half_ops_per_cycle: half_ops,
            active: false,
            current_task: String::new(),
        }
    }

    /// Puts the fiber to work on `task`.
    pub fn assign(&mut self, task: &str)
        ensures
            final(self).active,
            final(self).current_task@ == task@,
            final(self).fiber_type == old(self).fiber_type,
            final(self).width == old(self).width,
            final(self).throughput_half_ops_per_cycle == old(self).throughput_half_ops_per_cycle,
    {
        self.active = true;
        self.current_task = task.to_owned();
    }

    /// Frees the fiber: it is idle with no task.
    pub fn release(&mut self)
        ensures
            !final(self).active,
            final(self).current_task@ == Seq::<char>::empty(),
            final(self).fiber_type == old(self).fiber_type,
            final(self).width == old(self).width,
            final(self).throughput_half_ops_per_cycle == old(self).throughput_half_ops_per_cycle,
    {
        self.active = false;
        self.current_task = String::new();
    }
}

/// Orchestrates the fibers of an agent.
pub struct MuscleManager {
    pub fibers: Vec<MuscleFiber>,
}

proof fn lemma_count_available_bound(s: Seq<MuscleFiber>)
    ensures
        count_available(s) <= s.len(),
    decreases s.len(),
{
    if s.len() > 0 {
        lemma_count_available_bound(s.drop_last());
    }
}

proof fn lemma_active_half_ops_bound(s: Seq<MuscleFiber>)
    ensures
        active_half_ops(s) <= s.len() * (u64::MAX as nat),
    decreases s.len(),
{
    if s.len() > 0 {
        lemma_active_half_ops_bound(s.drop_last());
        assert(s.len() * (u64::MAX as nat) == (s.len() - 1) * (u64::MAX as nat) + u64::MAX)
            by (nonlinear_arith)
            requires
                s.len() >= 1,
        ;
    }
}

proof fn lemma_count_available_update(s: Seq<MuscleFiber>, i: int, f: MuscleFiber)
    requires
        0 <= i < s.len(),
    ensures
        count_available(s.update(i, f)) + (if s[i].active { 0int } else { 1int }) == count_available(s)
            + (if f.active { 0int } else { 1int }),
    decreases s.len(),
{
    let t = s.update(i, f);
    if i < s.len() - 1 {
        assert(t.drop_last() =~= s.drop_last().update(i, f));
        lemma_count_available_update(s.drop_last(), i, f);
    } else {
        assert(t.drop_last() =~= s.drop_last());
    }
}

/// Putting an idle fiber of a manager to work lowers the manager's count of
/// available fibers by one.
pub proof fn lemma_assign_lowers_available(s: Seq<MuscleFiber>, i: int, f: MuscleFiber)
    requires
        0 <= i < s.len(),
        !s[i].active,
        f.active,
    ensures
        count_available(s.update(i, f)) + 1 == count_available(s),
{
    lemma_count_available_update(s, i, f);
}

/// A fiber's rank is its throughput in whole operations per cycle, rounded
/// down and capped at `u32::MAX`; a higher throughput never ranks lower.
pub proof fn lemma_rank_is_whole_ops(f: MuscleFiber, g: MuscleFiber)
    ensures
        f.throughput_half_ops_per_cycle < 2 * (u32::MAX as int) + 2 ==> 2 * rank_of(f)
            <= f.throughput_half_ops_per_cycle < 2 * rank_of(f) + 2,
        f.throughput_half_ops_per_cycle >= 2 * (u32::MAX as int) ==> rank_of(f) == u32::MAX,
        f.throughput_half_ops_per_cycle <= g.throughput_half_ops_per_cycle ==> rank_of(f) <= rank_of(g),
{
}

proof fn lemma_active_half_ops_update(s: Seq<MuscleFiber>, i: int, f: MuscleFiber)
    requires
        0 <= i < s.len(),
    ensures
        active_half_ops(s.update(i, f)) + (if s[i].active { s[i].throughput_half_ops_per_cycle as int } else { 0int })
            == active_half_ops(s) + (if f.active { f.throughput_half_ops_per_cycle as int } else { 0int }),
    decreases s.len(),
{
    let t = s.update(i, f);
    if i < s.len() - 1 {
        assert(t.drop_last() =~= s.drop_last().update(i, f));
        lemma_active_half_ops_update(s.drop_last(), i, f);
    } else {
        assert(t.drop_last() =~= s.drop_last());
    }
}

/// Putting an idle fiber to work raises the manager's total throughput by
/// that fiber's throughput.
pub proof fn lemma_assign_raises_throughput(s: Seq<MuscleFiber>, i: int, f: MuscleFiber)
    requires
        0 <= i < s.len(),
        !s[i].active,
        f.active,
        f.throughput_half_ops_per_cycle == s[i].throughput_half_ops_per_cycle,
    ensures
        active_half_ops(s.update(i, f)) == active_half_ops(s) + s[i].throughput_half_ops_per_cycle,
{
    lemma_active_half_ops_update(s, i, f);
}

/// Releasing an active fiber raises the manager's count of available
/// fibers by one.
pub proof fn lemma_release_raises_available(s: Seq<MuscleFiber>, i: int, f: MuscleFiber)
    requires
        0 <= i < s.len(),
        s[i].active,
        !f.active,
    ensures
        count_available(s.update(i, f)) == count_available(s) + 1,
{
    lemma_count_available_update(s, i, f);
}

impl MuscleManager {
    /// A manager of four idle fibers: tensor core, 16-wide SIMD, 8-wide
    /// SIMD and memory, in that order.
    pub fn new() -> (r: Self)
        ensures
            r.fibers@.len() == 4,
            r.fibers@[0].fiber_type == FiberType::TensorCore,
            r.fibers@[1].fiber_type == FiberType::Simd16,
            r.fibers@[2].fiber_type == FiberType::Simd8,
            r.fibers@[3].fiber_type == FiberType::Memory,
            forall|i: int|
                0 <= i < 4 ==> {
                    &&& !(#[trigger] r.fibers@[i]).active
                    &&& r.fibers@[i].width == width_of(r.fibers@[i].fiber_type)
                    &&& r.fibers@[i].throughput_half_ops_per_cycle == half_ops_of(r.fibers@[i].fiber_type)
                    &&& r.fibers@[i].current_task@ == Seq::<char>::empty()
                },
    {
        let fibers = vec![
            MuscleFiber::new(FiberType::TensorCore),
            MuscleFiber::new(FiberType::Simd16),
            MuscleFiber::new(FiberType::Simd8),
            MuscleFiber::new(FiberType::Memory),
        ];
        MuscleManager { fibers }
    }

    /// The summed throughput of the active fibers, in half operations per
    /// cycle.
    pub fn total_throughput(&self) -> (r: u128)
        ensures
            r == active_half_ops(self.fibers@),
    {
        let mut sum: u128 = 0;
        let mut i: usize = 0;
        while i < self.fibers.len()
            invariant
                i <= self.fibers@.len(),
                sum == active_half_ops(self.fibers@.take(i as int)),
            decreases self.fibers@.len() - i,
        {
            proof {
                assert(self.fibers@.take(i + 1).drop_last() =~= self.fibers@.take(i as int));
                lemma_active_half_ops_bound(self.fibers@.take(i + 1));
                assert((i + 1) * (u64::MAX as nat) <= u128::MAX) by (nonlinear_arith)
                    requires
                        i < usize::MAX,
                ;
            }
            if self.fibers[i].active {
                sum = sum + self.fibers[i].throughput_half_ops_per_cycle as u128;
            }
            i += 1;
        }
        proof {
            assert(self.fibers@.take(self.fibers@.len() as int) =~= self.fibers@);
        }
        sum
    }

    /// The number of fibers that are not active.
    pub fn available_count(&self) -> (r: usize)
        ensures
            r == count_available(self.fibers@),
    {
        let mut n: usize = 0;
        let mut i: usize = 0;
        while i < self.fibers.len()
            invariant
                i <= self.fibers@.len(),
                n == count_available(self.fibers@.take(i as int)),
            decreases self.fibers@.len() - i,
        {
            proof {
                assert(self.fibers@.take(i + 1).drop_last() =~= self.fibers@.take(i as int));
                lemma_count_available_bound(self.fibers@.take(i as int));
            }
            if !self.fibers[i].active {
                n = n + 1;
            }
            i += 1;
        }
        proof {
            assert(self.fibers@.take(self.fibers@.len() as int) =~= self.fibers@);
        }
        n
    }

    /// The idle fiber of highest rank (the last one among equals), borrowed
    /// for changes; `None` when every fiber is active. Changes made through
    /// the result are changes to that fiber and to no other.
    pub fn acquire_best(&mut self) -> (r: Option<&mut MuscleFiber>)
        ensures
            match r {
                Some(f) => exists|i: int|
                    #![trigger old(self).fibers@[i]]
                    best_available(old(self).fibers@, i) && *f == old(self).fibers@[i]
                        && final(self).fibers@ == old(self).fibers@.update(i, *final(f))
                        && 0 <= i < old(self).fibers@.len() && !f.active && (forall|j: int|
                        0 <= j < old(self).fibers@.len() && !#[trigger] old(self).fibers@[j].active
                            ==> rank_of(old(self).fibers@[j]) <= rank_of(*f)) && (forall|j: int|
                        i < j < old(self).fibers@.len() && !#[trigger] old(self).fibers@[j].active
                            ==> rank_of(old(self).fibers@[j]) < rank_of(*f)),
                None => {
                    &&& forall|i: int| 0 <= i < old(self).fibers@.len() ==> #[trigger] old(self).fibers@[i].active
                    &&& final(self).fibers@ == old(self).fibers@
                },
            },
    {
        let mut best: Option<usize> = None;
        let mut best_rank: u32 = 0;
        let mut i: usize = 0;
        while i < self.fibers.len()
            invariant
                i <= self.fibers@.len(),
                self.fibers@ == old(self).fibers@,
                match best {
                    Some(b) => {
                        &&& b < i
                        &&& !self.fibers@[b as int].active
                        &&& best_rank == rank_of(self.fibers@[b as int])
                        &&& forall|j: int|
                            0 <= j < i && !#[trigger] self.fibers@[j].active ==> rank_of(self.fibers@[j])
                                <= best_rank
                        &&& forall|j: int|
                            b < j < i && !#[trigger] self.fibers@[j].active ==> rank_of(self.fibers@[j])
                                < best_rank
                    },
                    None => forall|j: int| 0 <= j < i ==> #[trigger] self.fibers@[j].active,
                },
            decreases self.fibers@.len() - i,
        {
            if !self.fibers[i].active {
                let half = self.fibers[i].throughput_half_ops_per_cycle / 2;
                let rank: u32 = if half > u32::MAX as u64 {
                    u32::MAX
                } else {
                    half as u32
                };
                let replace = match best {
                    None => true,
                    Some(_) => rank >= best_rank,
                };
                if replace {
                    best = Some(i);
                    best_rank = rank;
                }
            }
            i += 1;
        }
        match best {
            Some(b) => {
                assert(best_available(old(self).fibers@, b as int));
                Some(&mut self.fibers[b])
            },
            None => None,
        }
    }
}

} // verus!
