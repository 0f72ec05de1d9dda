//! Feedback loop: a sliding window of scored experiences.
use vstd::prelude::*;

verus! {

/// One experience to learn from: a query, the response given, its quality
/// score and the confidence it was given with (binary64 numbers, held by
/// their IEEE-754 bit patterns), and when it happened.
#[derive(Debug, Clone)]
pub struct Experience {
    pub query: String,
    pub response: String,
    pub score_bits: u64,
    pub confidence_bits: u64,
    pub timestamp_us: u64,
}

/// The mathematical content of an `Experience`.
pub struct ExperienceView {
    pub query: Seq<char>,
    pub response: Seq<char>,
    pub score_bits: u64,
    pub confidence_bits: u64,
    pub timestamp_us: u64,
}

impl View for Experience {
    type V = ExperienceView;

    open spec fn view(&self) -> ExperienceView {
        ExperienceView {
            query: self.query@,
            response: self.response@,
            score_bits: self.score_bits,
            confidence_bits: self.confidence_bits,
            timestamp_us: self.timestamp_us,
        }
    }
}

/// A feedback loop that keeps the most recent `window_size` experiences.
/// The learning rate is a binary64 number held by its IEEE-754 bit pattern.
pub struct FeedbackLoop {
    pub experiences: Vec<Experience>,
    pub window_size: usize,
    pub learning_rate_bits: u64,
}

/// The views of a sequence of experiences.
pub open spec fn views_of(s: Seq<Experience>) -> Seq<ExperienceView> {
    s.map_values(|e: Experience| e@)
}

/// `window` after recording `e` into a window of capacity `w`: `e` is
/// appended and, when that makes the window too long, the oldest entry is
/// dropped.
pub open spec fn windowed_push(window: Seq<ExperienceView>, e: ExperienceView, w: nat) -> Seq<
    ExperienceView,
> {
    if window.len() + 1 > w {
        window.push(e).drop_first()
    } else {
        window.push(e)
    }
}

/// The last `w` entries of `all` (all of them when there are fewer).
pub open spec fn latest(all: Seq<ExperienceView>, w: nat) -> Seq<ExperienceView> {
    if all.len() > w {
        all.skip(all.len() - w)
    } else {
        all
    }
}

/// Recording an experience into the window of the latest `w` experiences
/// gives the window of the latest `w` experiences, that one included: a
/// feedback loop started empty always holds exactly the most recent
/// `window_size` experiences recorded.
pub proof fn lemma_window_keeps_latest(all: Seq<ExperienceView>, e: ExperienceView, w: nat)
    ensures
        windowed_push(latest(all, w), e, w) == latest(all.push(e), w),
{
    let l = latest(all, w);
    if all.len() > w {
        assert(windowed_push(l, e, w) =~= all.push(e).skip(all.push(e).len() - w));
    } else if all.len() == w {
        assert(windowed_push(l, e, w) =~= all.push(e).skip(1));
    } else {
        assert(windowed_push(l, e, w) =~= all.push(e));
    }
}

impl FeedbackLoop {
    /// An empty feedback loop with the given window and learning rate.
    pub fn new(window_size: usize, learning_rate_bits: u64) -> (r: Self)
        ensures
            r.experiences@.len() == 0,
            r.window_size == window_size,
            r.learning_rate_bits == learning_rate_bits,
    {
        FeedbackLoop { experiences: Vec::new(), window_size, learning_rate_bits }
    }

    /// Records an experience (at time 0): it is appended, and the oldest one
    /// is dropped when the window would otherwise exceed `window_size`.
    pub fn record(&mut self, query: &str, response: &str, score_bits: u64, confidence_bits: u64)
        ensures
            views_of(final(self).experiences@) == windowed_push(
                views_of(old(self).experiences@),
                ExperienceView {
                    query: query@,
                    response: response@,
                    score_bits,
                    confidence_bits,
                    timestamp_us: 0,
                },
                old(self).window_size as nat,
            ),
            final(self).window_size == old(self).window_size,
            final(self).learning_rate_bits == old(self).learning_rate_bits,
            old(self).experiences@.len() <= old(self).window_size ==> final(self).experiences@.len()
                <= final(self).window_size,
    {
        let e = Experience {
            query: query.to_owned(),
            response: response.to_owned(),
            score_bits,
            confidence_bits,
            timestamp_us: 0,
        };
        let ghost before = self.experiences@;
        self.experiences.push(e);
        assert(views_of(self.experiences@) =~= views_of(before).push(e@));
        if self.experiences.len() > self.window_size {
            let ghost pushed = self.experiences@;
            self.experiences.remove(0);
            assert(views_of(self.experiences@) =~= views_of(pushed).drop_first());
        }
    }
}

} // verus!
