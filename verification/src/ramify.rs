//! Ramify engine: bookkeeping of branch divergence across a warp.
use vstd::prelude::*;

verus! {

/// What the threads of a warp did at a branch.
#[derive(Debug, Clone, Copy, PartialEq, Eq, Structural)]
pub enum BranchOutcome {
    Taken,
    NotTaken,
    Divergent,
}

/// A branch point of the control flow, with its counters.
#[derive(Debug, Clone, Copy, PartialEq, Eq, Structural)]
pub struct BranchPoint {
    pub id: usize,
    pub address: usize,
    pub divergence_count: usize,
    pub total_branches: usize,
    pub last_outcome: BranchOutcome,
}

/// The outcome of a branch at which `threads_taken` threads of a warp of
/// `warp_size` threads took the branch.
pub open spec fn outcome_of(threads_taken: usize, warp_size: usize) -> BranchOutcome {
    if threads_taken == 0 {
        BranchOutcome::NotTaken
    } else if threads_taken == warp_size {
        BranchOutcome::Taken
    } else {
        BranchOutcome::Divergent
    }
}

/// The divergence rate of a counter pair as a fraction `(numerator,
/// denominator)`: `divergence_count / total_branches`, or `0 / 1` when no
/// branch was recorded.
pub open spec fn rate_of(divergence_count: usize, total_branches: usize) -> (usize, usize) {
    if total_branches == 0 {
        (0, 1)
    } else {
        (divergence_count, total_branches)
    }
}

/// Whether the fraction `rate` exceeds the fraction `threshold`, compared
/// exactly (`rate.0 / rate.1 > threshold.0 / threshold.1` for positive
/// denominators).
pub open spec fn exceeds(rate: (usize, usize), threshold: (usize, usize)) -> bool {
    rate.0 * threshold.1 > threshold.0 * rate.1
}

/// The first position at or after `i` of a branch point of `s` with address
/// `address`; `s.len()` when there is none.
pub open spec fn position_from(s: Seq<BranchPoint>, address: usize, i: int) -> int
    decreases s.len() - i,
{
    if 0 <= i < s.len() && s[i].address != address {
        position_from(s, address, i + 1)
    } else {
        i
    }
}

/// The position of the first branch point of `s` with address `address`;
/// `s.len()` when there is none.
pub open spec fn position_of(s: Seq<BranchPoint>, address: usize) -> int {
    position_from(s, address, 0)
}

/// Whether a branch point's divergence rate exceeds the fraction `t`,
/// written out: it has recorded branches, and `divergence_count /
/// total_branches > t.0 / t.1`.
pub open spec fn rate_above(b: BranchPoint, t: (usize, usize)) -> bool {
    b.total_branches > 0 && b.divergence_count * t.1 > t.0 * b.total_branches
}

/// The high-divergence branch points are exactly the branch points whose
/// divergence rate exceeds the threshold, in their order: every such point
/// is listed, and nothing else.
pub proof fn lemma_high_divergence_is_filter(s: Seq<BranchPoint>, t: (usize, usize))
    ensures
        high_divergence(s, t) == s.filter(|b: BranchPoint| rate_above(b, t)),
        forall|i: int| 0 <= i < s.len() && rate_above(s[i], t) ==> #[trigger] high_divergence(s, t).contains(s[i]),
        forall|j: int| 0 <= j < high_divergence(s, t).len() ==> rate_above(#[trigger] high_divergence(s, t)[j], t),
        high_divergence(s, t).len() <= s.len(),
    decreases s.len(),
{
    broadcast use vstd::seq_lib::group_filter_ensures;

    reveal(Seq::filter);
    let pred = |b: BranchPoint| rate_above(b, t);
    if s.len() > 0 {
        lemma_high_divergence_is_filter(s.drop_last(), t);
        let b = s.last();
        if b.total_branches == 0 {
            assert(rate_of(b.divergence_count, b.total_branches) == (0usize, 1usize));
            assert(0 * t.1 == 0 && t.0 * 1 == t.0) by (nonlinear_arith);
        }
        assert(exceeds(rate_of(b.divergence_count, b.total_branches), t) == pred(b));
    }
    assert forall|i: int| 0 <= i < s.len() && rate_above(s[i], t) implies #[trigger] high_divergence(
        s,
        t,
    ).contains(s[i]) by {
        s.lemma_filter_contains(pred, i);
    }
    assert forall|j: int| 0 <= j < high_divergence(s, t).len() implies rate_above(
        #[trigger] high_divergence(s, t)[j],
        t,
    ) by {
        s.lemma_filter_pred(pred, j);
    }
}

/// The sum of the divergence counters after one counter is replaced.
pub proof fn lemma_sum_divergent_update(s: Seq<BranchPoint>, i: int, b: BranchPoint)
    requires
        0 <= i < s.len(),
    ensures
        sum_divergent(s.update(i, b)) == sum_divergent(s) - s[i].divergence_count + b.divergence_count,
        sum_total(s.update(i, b)) == sum_total(s) - s[i].total_branches + b.total_branches,
    decreases s.len(),
{
    let u = s.update(i, b);
    if i < s.len() - 1 {
        assert(u.drop_last() =~= s.drop_last().update(i, b));
        lemma_sum_divergent_update(s.drop_last(), i, b);
    } else {
        assert(u.drop_last() =~= s.drop_last());
    }
}

/// The sums of the counters after a branch point is appended.
pub proof fn lemma_sum_divergent_push(s: Seq<BranchPoint>, b: BranchPoint)
    ensures
        sum_divergent(s.push(b)) == sum_divergent(s) + b.divergence_count,
        sum_total(s.push(b)) == sum_total(s) + b.total_branches,
{
    assert(s.push(b).drop_last() =~= s);
}

/// How a warp's branch is classified: not taken when no thread took it;
/// taken when every thread of a non-empty warp did; divergent exactly when
/// some but not all threads did (or more threads than the warp holds).
pub proof fn lemma_outcome_classification(threads_taken: usize, warp_size: usize)
    ensures
        (outcome_of(threads_taken, warp_size) == BranchOutcome::NotTaken) <==> threads_taken == 0,
        (outcome_of(threads_taken, warp_size) == BranchOutcome::Taken) <==> (threads_taken > 0
            && threads_taken == warp_size),
        (outcome_of(threads_taken, warp_size) == BranchOutcome::Divergent) <==> (threads_taken > 0
            && threads_taken != warp_size),
        0 < threads_taken < warp_size ==> outcome_of(threads_taken, warp_size) == BranchOutcome::Divergent,
{
}

/// The branch point that `record_branch` updates is the first one with the
/// address, when there is one.
pub proof fn lemma_position_is_first(s: Seq<BranchPoint>, address: usize)
    ensures
        0 <= position_of(s, address) <= s.len(),
        position_of(s, address) < s.len() ==> s[position_of(s, address)].address == address,
        forall|j: int| 0 <= j < position_of(s, address) ==> #[trigger] s[j].address != address,
{
    lemma_position_from(s, address, 0);
}

proof fn lemma_position_from(s: Seq<BranchPoint>, address: usize, i: int)
    requires
        0 <= i <= s.len(),
    ensures
        i <= position_from(s, address, i) <= s.len(),
        position_from(s, address, i) < s.len() ==> s[position_from(s, address, i)].address == address,
        forall|j: int| i <= j < position_from(s, address, i) ==> #[trigger] s[j].address != address,
    decreases s.len() - i,
{
    if i < s.len() && s[i].address != address {
        lemma_position_from(s, address, i + 1);
    }
}

/// The branch points of `s` whose divergence rate exceeds `threshold`, in
/// order.
pub open spec fn high_divergence(s: Seq<BranchPoint>, threshold: (usize, usize)) -> Seq<BranchPoint>
    decreases s.len(),
{
    if s.len() == 0 {
        Seq::empty()
    } else {
        let rest = high_divergence(s.drop_last(), threshold);
        if exceeds(rate_of(s.last().divergence_count, s.last().total_branches), threshold) {
            rest.push(s.last())
        } else {
            rest
        }
    }
}

/// Sum of the divergence counters of `s`.
pub open spec fn sum_divergent(s: Seq<BranchPoint>) -> int
    decreases s.len(),
{
    if s.len() == 0 {
        0
    } else {
        sum_divergent(s.drop_last()) + s.last().divergence_count
    }
}

/// Sum of the branch counters of `s`.
pub open spec fn sum_total(s: Seq<BranchPoint>) -> int
    decreases s.len(),
{
    if s.len() == 0 {
        0
    } else {
        sum_total(s.drop_last()) + s.last().total_branches
    }
}

proof fn lemma_product_fits(a: int, b: int)
    requires
        0 <= a <= u64::MAX,
        0 <= b <= u64::MAX,
    ensures
        a * b <= u128::MAX,
{
    assert(a * b <= u64::MAX * u64::MAX) by (nonlinear_arith)
        requires
            0 <= a <= u64::MAX,
            0 <= b <= u64::MAX,
    ;
}

impl BranchPoint {
    /// The fraction of recorded branches that diverged, as `(numerator,
    /// denominator)` with a positive denominator; `0 / 1` when none was
    /// recorded.
    pub fn divergence_rate(&self) -> (r: (usize, usize))
        ensures
            r == rate_of(self.divergence_count, self.total_branches),
            r.1 > 0,
            self.total_branches > 0 ==> r == (self.divergence_count, self.total_branches),
            self.total_branches == 0 ==> r.0 == 0,
    {
        if self.total_branches == 0 {
            return (0, 1);
        }
        (self.divergence_count, self.total_branches)
    }
}

/// Engine that records branch events of warps of `warp_size` threads.
pub struct RamifyEngine {
    pub branches: Vec<BranchPoint>,
    pub warp_size: usize,
    /// A branch point is an optimization candidate when its divergence rate
    /// exceeds this fraction `(numerator, denominator)`.
    pub divergence_threshold: (usize, usize),
}

impl RamifyEngine {
    /// The engine's bookkeeping is consistent: each branch point's id is its
    /// position, no address occurs twice, and no point counts more divergent
    /// branches than branches.
    pub open spec fn wf(&self) -> bool {
        &&& forall|i: int| 0 <= i < self.branches@.len() ==> #[trigger] self.branches@[i].id == i
        &&& forall|i: int| 0 <= i < self.branches@.len()
            ==> #[trigger] self.branches@[i].divergence_count <= self.branches@[i].total_branches
        &&& forall|i: int, j: int|
            0 <= i < self.branches@.len() && 0 <= j < self.branches@.len()
                && #[trigger] self.branches@[i].address == #[trigger] self.branches@[j].address ==> i == j
    }

    /// An engine with no branch point recorded and a threshold of 3/10.
    pub fn new(warp_size: usize) -> (r: Self)
        ensures
            r.wf(),
            r.branches@.len() == 0,
            r.warp_size == warp_size,
            r.divergence_threshold == (3usize, 10usize),
    {
        RamifyEngine { branches: Vec::new(), warp_size, divergence_threshold: (3, 10) }
    }

    /// Records that `threads_taken` threads of a warp took the branch at
    /// `address`, and returns the outcome.
    ///
    /// The first branch point at `address` has its counters advanced and its
    /// last outcome set; if there is none, a new point is appended whose id
    /// is its position.
    pub fn record_branch(&mut self, address: usize, threads_taken: usize) -> (r: BranchOutcome)
        requires
            ({
                let i = position_of(old(self).branches@, address);
                i < old(self).branches@.len() ==> {
                    &&& old(self).branches@[i].total_branches < usize::MAX
                    &&& outcome_of(threads_taken, old(self).warp_size) == BranchOutcome::Divergent
                        ==> old(self).branches@[i].divergence_count < usize::MAX
                }
            }),
        ensures
            r == outcome_of(threads_taken, old(self).warp_size),
            (r == BranchOutcome::NotTaken) <==> threads_taken == 0,
            (r == BranchOutcome::Taken) <==> (threads_taken > 0 && threads_taken == old(self).warp_size),
            (r == BranchOutcome::Divergent) <==> (threads_taken > 0 && threads_taken != old(self).warp_size),
            sum_divergent(final(self).branches@) == sum_divergent(old(self).branches@) + if r
                == BranchOutcome::Divergent {
                1int
            } else {
                0int
            },
            sum_total(final(self).branches@) == sum_total(old(self).branches@) + 1,
            final(self).warp_size == old(self).warp_size,
            final(self).divergence_threshold == old(self).divergence_threshold,
            ({
                let i = position_of(old(self).branches@, address);
                i < old(self).branches@.len() ==> final(self).branches@ == old(self).branches@.update(
                    i,
                    BranchPoint {
                        total_branches: (old(self).branches@[i].total_branches + 1) as usize,
                        last_outcome: r,
                        divergence_count: if r == BranchOutcome::Divergent {
                            (old(self).branches@[i].divergence_count + 1) as usize
                        } else {
                            old(self).branches@[i].divergence_count
                        },
                        ..old(self).branches@[i]
                    },
                )
            }),
            position_of(old(self).branches@, address) == old(self).branches@.len()
                ==> final(self).branches@ == old(self).branches@.push(
                BranchPoint {
                    id: old(self).branches@.len() as usize,
                    address,
                    divergence_count: if r == BranchOutcome::Divergent {
                        1usize
                    } else {
                        0usize
                    },
                    total_branches: 1,
                    last_outcome: r,
                },
            ),
            old(self).wf() ==> final(self).wf(),
    {
        let outcome = if threads_taken == 0 {
            BranchOutcome::NotTaken
        } else if threads_taken == self.warp_size {
            BranchOutcome::Taken
        } else {
            BranchOutcome::Divergent
        };
        let mut i: usize = 0;
        while i < self.branches.len()
            invariant
                i <= self.branches@.len(),
                self.branches@ == old(self).branches@,
                self.warp_size == old(self).warp_size,
                self.divergence_threshold == old(self).divergence_threshold,
                outcome == outcome_of(threads_taken, old(self).warp_size),
                position_of(old(self).branches@, address) == position_from(old(self).branches@, address, i as int),
                ({
                    let k = position_of(old(self).branches@, address);
                    k < old(self).branches@.len() ==> {
                        &&& old(self).branches@[k].total_branches < usize::MAX
                        &&& outcome == BranchOutcome::Divergent
                            ==> old(self).branches@[k].divergence_count < usize::MAX
                    }
                }),
            decreases self.branches@.len() - i,
        {
            if self.branches[i].address == address {
                let bp = &mut self.branches[i];
                bp.total_branches = bp.total_branches + 1;
                bp.last_outcome = outcome;
                if outcome == BranchOutcome::Divergent {
                    bp.divergence_count = bp.divergence_count + 1;
                }
                proof {
                    lemma_sum_divergent_update(old(self).branches@, i as int, self.branches@[i as int]);
                    assert(self.branches@ == old(self).branches@.update(i as int, self.branches@[i as int]));
                }
                return outcome;
            }
            i += 1;
        }
        proof {
            lemma_position_from(old(self).branches@, address, 0);
        }
        let id = self.branches.len();
        self.branches.push(
            BranchPoint {
                id,
                address,
                divergence_count: if outcome == BranchOutcome::Divergent {
                    1
                } else {
                    0
                },
                total_branches: 1,
                last_outcome: outcome,
            },
        );
        proof {
            lemma_sum_divergent_push(old(self).branches@, self.branches@.last());
            assert(self.branches@ == old(self).branches@.push(self.branches@.last()));
        }
        outcome
    }

    /// The branch points whose divergence rate exceeds the threshold, in
    /// the order they were first recorded.
    pub fn high_divergence_branches(&self) -> (r: Vec<&BranchPoint>)
        ensures
            r@.map_values(|b: &BranchPoint| *b) == high_divergence(self.branches@, self.divergence_threshold),
            r@.map_values(|b: &BranchPoint| *b) == self.branches@.filter(
                |b: BranchPoint| rate_above(b, self.divergence_threshold),
            ),
    {
        proof {
            lemma_high_divergence_is_filter(self.branches@, self.divergence_threshold);
        }
        let mut r: Vec<&BranchPoint> = Vec::new();
        let mut i: usize = 0;
        while i < self.branches.len()
            invariant
                i <= self.branches@.len(),
                r@.map_values(|b: &BranchPoint| *b) == high_divergence(
                    self.branches@.take(i as int),
                    self.divergence_threshold,
                ),
            decreases self.branches@.len() - i,
        {
            let b = &self.branches[i];
            let rate = b.divergence_rate();
            let (tn, td) = self.divergence_threshold;
            proof {
                lemma_product_fits(rate.0 as int, td as int);
                lemma_product_fits(tn as int, rate.1 as int);
            }
            let lhs: u128 = (rate.0 as u128) * (td as u128);
            let rhs: u128 = (tn as u128) * (rate.1 as u128);
            proof {
                assert(self.branches@.take(i + 1).drop_last() =~= self.branches@.take(i as int));
                assert(self.branches@.take(i + 1).last() == *b);
            }
            if lhs > rhs {
                r.push(b);
            }
            proof {
                let s = high_divergence(self.branches@.take(i + 1), self.divergence_threshold);
                assert(r@.map_values(|b: &BranchPoint| *b) =~= s);
            }
            i += 1;
        }
        proof {
            assert(self.branches@.take(self.branches@.len() as int) =~= self.branches@);
        }
        r
    }

    /// The share of all recorded branches that diverged, as `(numerator,
    /// denominator)`: the sum of the divergence counters over the sum of the
    /// branch counters (a denominator of at least 1), or `0 / 1` when there
    /// is no branch point.
    pub fn overall_divergence(&self) -> (r: (u128, u128))
        ensures
            self.branches@.len() == 0 ==> r == (0u128, 1u128),
            self.branches@.len() > 0 ==> r.0 == sum_divergent(self.branches@) && r.1 == if sum_total(
                self.branches@,
            ) == 0 {
                1
            } else {
                sum_total(self.branches@)
            },
            self.wf() ==> r.0 <= r.1,
    {
        if self.branches.len() == 0 {
            return (0, 1);
        }
        let mut total_div: u128 = 0;
        let mut total: u128 = 0;
        let mut i: usize = 0;
        while i < self.branches.len()
            invariant
                i <= self.branches@.len(),
                self.branches@.len() <= usize::MAX,
                total_div == sum_divergent(self.branches@.take(i as int)),
                total == sum_total(self.branches@.take(i as int)),
                total_div <= i * (usize::MAX as int),
                total <= i * (usize::MAX as int),
                self.wf() ==> total_div <= total,
            decreases self.branches@.len() - i,
        {
            proof {
                assert(self.branches@.take(i + 1).drop_last() =~= self.branches@.take(i as int));
                assert((i + 1) * (usize::MAX as int) == i * (usize::MAX as int) + usize::MAX)
                    by (nonlinear_arith);
                assert(i * (usize::MAX as int) <= usize::MAX * (usize::MAX as int)) by (nonlinear_arith)
                    requires i <= usize::MAX;
            }
            total_div = total_div + self.branches[i].divergence_count as u128;
            total = total + self.branches[i].total_branches as u128;
            i += 1;
        }
        proof {
            assert(self.branches@.take(self.branches@.len() as int) =~= self.branches@);
        }
        if total == 0 {
            (total_div, 1)
        } else {
            (total_div, total)
        }
    }
}

} // verus!
