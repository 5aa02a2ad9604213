//! Frame timings and counts, averaged over a sliding window of recent frames.

use std::collections::VecDeque;
use vstd::prelude::*;

use crate::duration::{max_nanos, Duration};

verus! {

/// Number of frames averaged by `Metrics::default`.
pub const DEFAULT_WINDOW: usize = 120;

/// Number of timing fields in `FrameTimings`.
pub const TIMING_FIELDS: usize = 5;

/// Number of count fields in `FrameCounts`.
pub const COUNT_FIELDS: usize = 6;

/// Time spent in each phase of one simulation step.
#[derive(Clone, Copy, Debug)]
pub struct FrameTimings {
    pub iterate: Duration,
    pub collide: Duration,
    pub attract_total: Duration,
    pub quadtree_build: Duration,
    pub quadtree_acc: Duration,
}

/// Sizes observed during one simulation step.
#[derive(Clone, Copy, Debug)]
pub struct FrameCounts {
    pub bodies: usize,
    pub quadtree_nodes_active: usize,
    pub collision_pairs: usize,
    pub collision_islands: usize,
    pub collision_island_max_pairs: usize,
    pub bonds: usize,
}

/// What the renderer shows: the current frame and the window averages.
#[derive(Clone, Copy, Debug)]
pub struct MetricsSnapshot {
    pub frame: usize,
    pub last: FrameTimings,
    pub avg: FrameTimings,
    pub counts_last: FrameCounts,
    pub counts_avg: FrameCounts,
}

/// Timing field `k` of `t`, in nanoseconds, in declaration order.
pub open spec fn timing(t: FrameTimings, k: int) -> nat {
    if k == 0 {
        t.iterate@
    } else if k == 1 {
        t.collide@
    } else if k == 2 {
        t.attract_total@
    } else if k == 3 {
        t.quadtree_build@
    } else {
        t.quadtree_acc@
    }
}

/// Count field `k` of `c`, in declaration order.
pub open spec fn count(c: FrameCounts, k: int) -> nat {
    if k == 0 {
        c.bodies as nat
    } else if k == 1 {
        c.quadtree_nodes_active as nat
    } else if k == 2 {
        c.collision_pairs as nat
    } else if k == 3 {
        c.collision_islands as nat
    } else if k == 4 {
        c.collision_island_max_pairs as nat
    } else {
        c.bonds as nat
    }
}

/// Every timing of `t` is zero.
pub open spec fn timings_zero(t: FrameTimings) -> bool {
    forall|k: int| 0 <= k < TIMING_FIELDS ==> #[trigger] timing(t, k) == 0
}

/// Every count of `c` is zero.
pub open spec fn counts_zero(c: FrameCounts) -> bool {
    forall|k: int| 0 <= k < COUNT_FIELDS ==> #[trigger] count(c, k) == 0
}

/// The sum of `f` over the items of `s`.
pub open spec fn seq_sum<T>(s: Seq<T>, f: spec_fn(T) -> nat) -> nat
    decreases s.len(),
{
    if s.len() == 0 {
        0
    } else {
        f(s[0]) + seq_sum(s.drop_first(), f)
    }
}

/// Timing field `k` summed over `s`.
pub open spec fn timing_sum(s: Seq<FrameTimings>, k: int) -> nat {
    seq_sum(s, |t: FrameTimings| timing(t, k))
}

/// Count field `k` summed over `s`.
pub open spec fn count_sum(s: Seq<FrameCounts>, k: int) -> nat {
    seq_sum(s, |c: FrameCounts| count(c, k))
}

/// The last `w` items of `s` (all of `s` when it is shorter).
pub open spec fn windowed<T>(s: Seq<T>, w: nat) -> Seq<T> {
    if s.len() > w {
        s.subrange(s.len() - w, s.len() as int)
    } else {
        s
    }
}

/// The divisor used for the timing averages of a window of `len` frames:
/// `max(len, 1)` taken as a `u32`.
pub open spec fn avg_denom(len: nat) -> nat {
    (if len == 0 {
        1
    } else {
        len
    }) % 0x1_0000_0000
}

/// The window after one more frame is the window of the whole history with
/// that frame added: however many frames were recorded, the window holds
/// exactly the last `w` of them (all of them while there are fewer), so its
/// length never exceeds `w`.
pub proof fn lemma_window_of_history<T>(history: Seq<T>, x: T, w: nat)
    requires
        w >= 1,
    ensures
        windowed(windowed(history, w).push(x), w) == windowed(history.push(x), w),
        windowed(history.push(x), w).len() <= w,
        windowed(history.push(x), w).last() == x,
{
    let h = history.push(x);
    let win = windowed(history, w);
    if history.len() > w {
        assert(windowed(win.push(x), w) =~= windowed(h, w));
    } else if history.len() == w {
        assert(windowed(win.push(x), w) =~= windowed(h, w));
    } else {
        assert(win == history);
    }
}

/// Adding one item at the end adds its value to the sum.
pub proof fn lemma_seq_sum_push<T>(s: Seq<T>, x: T, f: spec_fn(T) -> nat)
    ensures
        seq_sum(s.push(x), f) == seq_sum(s, f) + f(x),
    decreases s.len(),
{
    assert(s.push(x)[0] == if s.len() == 0 {
        x
    } else {
        s[0]
    });
    if s.len() == 0 {
        assert(s.push(x).drop_first() =~= Seq::<T>::empty());
        assert(seq_sum(Seq::<T>::empty(), f) == 0);
    } else {
        lemma_seq_sum_push(s.drop_first(), x, f);
        assert(s.push(x).drop_first() =~= s.drop_first().push(x));
    }
}

impl FrameTimings {
    /// All timings zero.
    pub fn zero() -> (t: FrameTimings)
        ensures
            timings_zero(t),
    {
        FrameTimings {
            iterate: Duration::zero(),
            collide: Duration::zero(),
            attract_total: Duration::zero(),
            quadtree_build: Duration::zero(),
            quadtree_acc: Duration::zero(),
        }
    }

    /// Time of one full step: iterate, collide and attract together.
    pub fn total(&self) -> (d: Duration)
        requires
            self.iterate@ + self.collide@ + self.attract_total@ <= max_nanos(),
        ensures
            d@ == self.iterate@ + self.collide@ + self.attract_total@,
    {
        self.iterate.plus(self.collide).plus(self.attract_total)
    }

    /// Resets every timing to zero.
    pub fn clear(&mut self)
        ensures
            timings_zero(*final(self)),
    {
        *self = Self::zero();
    }

    /// Field-wise sum; every sum must fit.
    fn plus(self, rhs: FrameTimings) -> (t: FrameTimings)
        requires
            forall|k: int| 0 <= k < TIMING_FIELDS ==> timing(self, k) + timing(rhs, k) <= max_nanos(),
        ensures
            forall|k: int|
                0 <= k < TIMING_FIELDS ==> #[trigger] timing(t, k) == timing(self, k) + timing(rhs, k),
    {
        assert(timing(self, 0) + timing(rhs, 0) <= max_nanos());
        assert(timing(self, 1) + timing(rhs, 1) <= max_nanos());
        assert(timing(self, 2) + timing(rhs, 2) <= max_nanos());
        assert(timing(self, 3) + timing(rhs, 3) <= max_nanos());
        assert(timing(self, 4) + timing(rhs, 4) <= max_nanos());
        FrameTimings {
            iterate: self.iterate.plus(rhs.iterate),
            collide: self.collide.plus(rhs.collide),
            attract_total: self.attract_total.plus(rhs.attract_total),
            quadtree_build: self.quadtree_build.plus(rhs.quadtree_build),
            quadtree_acc: self.quadtree_acc.plus(rhs.quadtree_acc),
        }
    }

    /// Field-wise difference; no field of `rhs` may exceed that of `self`.
    fn minus(self, rhs: FrameTimings) -> (t: FrameTimings)
        requires
            forall|k: int| 0 <= k < TIMING_FIELDS ==> timing(self, k) >= timing(rhs, k),
        ensures
            forall|k: int|
                0 <= k < TIMING_FIELDS ==> #[trigger] timing(t, k) == timing(self, k) - timing(rhs, k),
    {
        assert(timing(self, 0) >= timing(rhs, 0));
        assert(timing(self, 1) >= timing(rhs, 1));
        assert(timing(self, 2) >= timing(rhs, 2));
        assert(timing(self, 3) >= timing(rhs, 3));
        assert(timing(self, 4) >= timing(rhs, 4));
        FrameTimings {
            iterate: self.iterate.minus(rhs.iterate),
            collide: self.collide.minus(rhs.collide),
            attract_total: self.attract_total.minus(rhs.attract_total),
            quadtree_build: self.quadtree_build.minus(rhs.quadtree_build),
            quadtree_acc: self.quadtree_acc.minus(rhs.quadtree_acc),
        }
    }

    /// Field-wise division by `d`, rounded down.
    fn div_u32(self, d: u32) -> (t: FrameTimings)
        requires
            d > 0,
        ensures
            forall|k: int|
                0 <= k < TIMING_FIELDS ==> #[trigger] timing(t, k) == timing(self, k) / (d as nat),
    {
        FrameTimings {
            iterate: self.iterate.div_u32(d),
            collide: self.collide.div_u32(d),
            attract_total: self.attract_total.div_u32(d),
            quadtree_build: self.quadtree_build.div_u32(d),
            quadtree_acc: self.quadtree_acc.div_u32(d),
        }
    }
}

impl Default for FrameTimings {
    fn default() -> (t: FrameTimings)
        ensures
            timings_zero(t),
    {
        FrameTimings::zero()
    }
}

impl FrameCounts {
    /// All counts zero.
    pub fn zero() -> (c: FrameCounts)
        ensures
            counts_zero(c),
    {
        FrameCounts {
            bodies: 0,
            quadtree_nodes_active: 0,
            collision_pairs: 0,
            collision_islands: 0,
            collision_island_max_pairs: 0,
            bonds: 0,
        }
    }

    /// Resets every count to zero.
    pub fn clear(&mut self)
        ensures
            counts_zero(*final(self)),
    {
        *self = Self::zero();
    }

    /// Field-wise sum; every sum must fit in a `usize`.
    fn plus(self, rhs: FrameCounts) -> (c: FrameCounts)
        requires
            forall|k: int| 0 <= k < COUNT_FIELDS ==> count(self, k) + count(rhs, k) <= usize::MAX,
        ensures
            forall|k: int|
                0 <= k < COUNT_FIELDS ==> #[trigger] count(c, k) == count(self, k) + count(rhs, k),
    {
        assert(count(self, 0) + count(rhs, 0) <= usize::MAX);
        assert(count(self, 1) + count(rhs, 1) <= usize::MAX);
        assert(count(self, 2) + count(rhs, 2) <= usize::MAX);
        assert(count(self, 3) + count(rhs, 3) <= usize::MAX);
        assert(count(self, 4) + count(rhs, 4) <= usize::MAX);
        assert(count(self, 5) + count(rhs, 5) <= usize::MAX);
        FrameCounts {
            bodies: self.bodies + rhs.bodies,
            quadtree_nodes_active: self.quadtree_nodes_active + rhs.quadtree_nodes_active,
            collision_pairs: self.collision_pairs + rhs.collision_pairs,
            collision_islands: self.collision_islands + rhs.collision_islands,
            collision_island_max_pairs: self.collision_island_max_pairs
                + rhs.collision_island_max_pairs,
            bonds: self.bonds + rhs.bonds,
        }
    }

    /// Field-wise difference; no field of `rhs` may exceed that of `self`.
    fn minus(self, rhs: FrameCounts) -> (c: FrameCounts)
        requires
            forall|k: int| 0 <= k < COUNT_FIELDS ==> count(self, k) >= count(rhs, k),
        ensures
            forall|k: int|
                0 <= k < COUNT_FIELDS ==> #[trigger] count(c, k) == count(self, k) - count(rhs, k),
    {
        assert(count(self, 0) >= count(rhs, 0));
        assert(count(self, 1) >= count(rhs, 1));
        assert(count(self, 2) >= count(rhs, 2));
        assert(count(self, 3) >= count(rhs, 3));
        assert(count(self, 4) >= count(rhs, 4));
        assert(count(self, 5) >= count(rhs, 5));
        FrameCounts {
            bodies: self.bodies - rhs.bodies,
            quadtree_nodes_active: self.quadtree_nodes_active - rhs.quadtree_nodes_active,
            collision_pairs: self.collision_pairs - rhs.collision_pairs,
            collision_islands: self.collision_islands - rhs.collision_islands,
            collision_island_max_pairs: self.collision_island_max_pairs
                - rhs.collision_island_max_pairs,
            bonds: self.bonds - rhs.bonds,
        }
    }
}

impl Default for FrameCounts {
    fn default() -> (c: FrameCounts)
        ensures
            counts_zero(c),
    {
        FrameCounts::zero()
    }
}

impl MetricsSnapshot {
    /// Frame 0 with every timing and count zero.
    pub fn zero() -> (s: MetricsSnapshot)
        ensures
            s.frame == 0,
            timings_zero(s.last),
            timings_zero(s.avg),
            counts_zero(s.counts_last),
            counts_zero(s.counts_avg),
    {
        MetricsSnapshot {
            frame: 0,
            last: FrameTimings::zero(),
            avg: FrameTimings::zero(),
            counts_last: FrameCounts::zero(),
            counts_avg: FrameCounts::zero(),
        }
    }
}

impl Default for MetricsSnapshot {
    fn default() -> (s: MetricsSnapshot)
        ensures
            s.frame == 0,
            timings_zero(s.last),
            timings_zero(s.avg),
            counts_zero(s.counts_last),
            counts_zero(s.counts_avg),
    {
        MetricsSnapshot::zero()
    }
}

/// Records the timings and counts of each frame and keeps their averages over
/// the last `window` frames.
#[derive(Debug)]
pub struct Metrics {
    window: usize,
    frames: VecDeque<FrameTimings>,
    counts: VecDeque<FrameCounts>,
    sum: FrameTimings,
    sum_counts: FrameCounts,
    snapshot: MetricsSnapshot,
}

impl Metrics {
    /// How many recent frames the averages cover.
    pub closed spec fn window_size(self) -> nat {
        self.window as nat
    }

    /// The timings of the frames in the window, oldest first.
    pub closed spec fn frames(self) -> Seq<FrameTimings> {
        self.frames@
    }

    /// The counts of the frames in the window, oldest first.
    pub closed spec fn counts(self) -> Seq<FrameCounts> {
        self.counts@
    }

    /// The current snapshot.
    pub closed spec fn snap(self) -> MetricsSnapshot {
        self.snapshot
    }

    /// The window is non-empty, holds at most `window` frames, and the running
    /// sums are the sums of what it holds.
    pub closed spec fn wf(self) -> bool {
        &&& self.window >= 1
        &&& self.frames@.len() <= self.window
        &&& self.counts@.len() == self.frames@.len()
        &&& forall|k: int|
            0 <= k < TIMING_FIELDS ==> #[trigger] timing(self.sum, k) == timing_sum(self.frames@, k)
        &&& forall|k: int|
            0 <= k < COUNT_FIELDS ==> #[trigger] count(self.sum_counts, k) == count_sum(
                self.counts@,
                k,
            )
    }

    /// Empty metrics averaging over `window` frames (at least one).
    pub fn new(window: usize) -> (m: Metrics)
        ensures
            m.wf(),
            m.window_size() == if window == 0 {
                1
            } else {
                window
            },
            m.frames() == Seq::<FrameTimings>::empty(),
            m.counts() == Seq::<FrameCounts>::empty(),
            m.snap().frame == 0,
            timings_zero(m.snap().last),
            timings_zero(m.snap().avg),
            counts_zero(m.snap().counts_last),
            counts_zero(m.snap().counts_avg),
    {
        let m = Metrics {
            window: window.max(1),
            frames: VecDeque::new(),
            counts: VecDeque::new(),
            sum: FrameTimings::zero(),
            sum_counts: FrameCounts::zero(),
            snapshot: MetricsSnapshot::zero(),
        };
        assert forall|k: int| 0 <= k < TIMING_FIELDS implies #[trigger] timing(m.sum, k)
            == timing_sum(m.frames@, k) by {}
        assert forall|k: int| 0 <= k < COUNT_FIELDS implies #[trigger] count(m.sum_counts, k)
            == count_sum(m.counts@, k) by {}
        m
    }

    /// Starts frame `frame`: its timings and counts start at zero.
    pub fn begin_frame(&mut self, frame: usize)
        requires
            old(self).wf(),
        ensures
            final(self).wf(),
            final(self).window_size() == old(self).window_size(),
            final(self).frames() == old(self).frames(),
            final(self).counts() == old(self).counts(),
            final(self).snap().frame == frame,
            timings_zero(final(self).snap().last),
            counts_zero(final(self).snap().counts_last),
            final(self).snap().avg == old(self).snap().avg,
            final(self).snap().counts_avg == old(self).snap().counts_avg,
    {
        self.snapshot.frame = frame;
        self.snapshot.last.clear();
        self.snapshot.counts_last.clear();
    }

    /// Ends the current frame: its timings and counts join the window, the
    /// oldest frame leaves it when it is full, and the timing averages are
    /// recomputed over the window.
    ///
    /// The averaged counts are left as they are: they are taken in floating
    /// point by the caller from `window_counts_sum` and `window_len`.
    pub fn finish_frame(&mut self)
        requires
            old(self).wf(),
            forall|k: int|
                0 <= k < TIMING_FIELDS ==> timing_sum(old(self).frames(), k) + timing(
                    old(self).snap().last,
                    k,
                ) <= max_nanos(),
            forall|k: int|
                0 <= k < COUNT_FIELDS ==> count_sum(old(self).counts(), k) + count(
                    old(self).snap().counts_last,
                    k,
                ) <= usize::MAX,
            avg_denom(
                windowed(
                    old(self).frames().push(old(self).snap().last),
                    old(self).window_size(),
                ).len(),
            ) != 0,
        ensures
            final(self).wf(),
            final(self).window_size() == old(self).window_size(),
            final(self).frames() == windowed(
                old(self).frames().push(old(self).snap().last),
                old(self).window_size(),
            ),
            final(self).counts() == windowed(
                old(self).counts().push(old(self).snap().counts_last),
                old(self).window_size(),
            ),
            final(self).snap().frame == old(self).snap().frame,
            final(self).snap().last == old(self).snap().last,
            final(self).snap().counts_last == old(self).snap().counts_last,
            final(self).snap().counts_avg == old(self).snap().counts_avg,
            forall|k: int|
                0 <= k < TIMING_FIELDS ==> #[trigger] timing(final(self).snap().avg, k) == timing_sum(
                    final(self).frames(),
                    k,
                ) / avg_denom(final(self).frames().len()),
    {
        let last = self.snapshot.last;
        let last_counts = self.snapshot.counts_last;
        let ghost all_frames = self.frames@.push(last);
        let ghost all_counts = self.counts@.push(last_counts);

        proof {
            assert forall|k: int| 0 <= k < TIMING_FIELDS implies timing(self.sum, k) + #[trigger] timing(
                last,
                k,
            ) <= max_nanos() by {
                assert(timing_sum(old(self).frames(), k) + timing(old(self).snap().last, k)
                    <= max_nanos());
            }
            assert forall|k: int| 0 <= k < COUNT_FIELDS implies count(self.sum_counts, k) + #[trigger] count(
                last_counts,
                k,
            ) <= usize::MAX by {
                assert(count_sum(old(self).counts(), k) + count(old(self).snap().counts_last, k)
                    <= usize::MAX);
            }
            assert forall|k: int| 0 <= k < TIMING_FIELDS implies #[trigger] timing_sum(all_frames, k)
                == timing(self.sum, k) + timing(last, k) by {
                lemma_seq_sum_push(self.frames@, last, |t: FrameTimings| timing(t, k));
            }
            assert forall|k: int| 0 <= k < COUNT_FIELDS implies #[trigger] count_sum(all_counts, k)
                == count(self.sum_counts, k) + count(last_counts, k) by {
                lemma_seq_sum_push(self.counts@, last_counts, |c: FrameCounts| count(c, k));
            }
        }

        self.frames.push_back(last);
        self.counts.push_back(last_counts);
        self.sum = self.sum.plus(last);
        self.sum_counts = self.sum_counts.plus(last_counts);

        let ghost mut dropped: int = 0;
        while self.frames.len() > self.window
            invariant
                self.window == old(self).window,
                self.window >= 1,
                self.snapshot == old(self).snapshot,
                0 <= dropped <= 1,
                all_frames.len() <= self.window + 1,
                dropped == 1 ==> all_frames.len() == self.window + 1,
                self.frames@ == all_frames.subrange(dropped, all_frames.len() as int),
                self.counts@ == all_counts.subrange(dropped, all_counts.len() as int),
                all_counts.len() == all_frames.len(),
                forall|k: int|
                    0 <= k < TIMING_FIELDS ==> #[trigger] timing(self.sum, k) == timing_sum(
                        self.frames@,
                        k,
                    ),
                forall|k: int|
                    0 <= k < COUNT_FIELDS ==> #[trigger] count(self.sum_counts, k) == count_sum(
                        self.counts@,
                        k,
                    ),
            decreases self.frames@.len(),
        {
            let ghost before_frames = self.frames@;
            let ghost before_counts = self.counts@;
            if let Some(old) = self.frames.pop_front() {
                proof {
                    assert(self.frames@ =~= before_frames.drop_first());
                    assert forall|k: int| 0 <= k < TIMING_FIELDS implies #[trigger] timing(
                        self.sum,
                        k,
                    ) >= timing(old, k) by {}
                }
                self.sum = self.sum.minus(old);
            }
            if let Some(old) = self.counts.pop_front() {
                proof {
                    assert(self.counts@ =~= before_counts.drop_first());
                    assert forall|k: int| 0 <= k < COUNT_FIELDS implies #[trigger] count(
                        self.sum_counts,
                        k,
                    ) >= count(old, k) by {}
                }
                self.sum_counts = self.sum_counts.minus(old);
            }
            proof {
                dropped = dropped + 1;
                assert(self.frames@ =~= all_frames.subrange(dropped, all_frames.len() as int));
                assert(self.counts@ =~= all_counts.subrange(dropped, all_counts.len() as int));
            }
        }
        proof {
            if dropped == 0 {
                assert(all_frames.subrange(0, all_frames.len() as int) =~= all_frames);
                assert(all_counts.subrange(0, all_counts.len() as int) =~= all_counts);
            }
        }

        let len: usize = self.frames.len();
        let denom: u32 = ((len.max(1) as u64) % 0x1_0000_0000) as u32;
        self.snapshot.avg = self.sum.div_u32(denom);
    }

    /// Whether `finish_frame` can run on these metrics: with the current
    /// frame added, every timing sum of the window fits a `Duration`, every
    /// count sum fits a `usize`, and the averaging divisor is not zero.
    pub fn finish_frame_fits(&self) -> (ok: bool)
        requires
            self.wf(),
        ensures
            ok <==> ({
                &&& forall|k: int|
                    0 <= k < TIMING_FIELDS ==> timing_sum(self.frames(), k) + timing(
                        self.snap().last,
                        k,
                    ) <= max_nanos()
                &&& forall|k: int|
                    0 <= k < COUNT_FIELDS ==> count_sum(self.counts(), k) + count(
                        self.snap().counts_last,
                        k,
                    ) <= usize::MAX
                &&& avg_denom(
                    windowed(self.frames().push(self.snap().last), self.window_size()).len(),
                ) != 0
            }),
    {
        let last = self.snapshot.last;
        let c = self.snapshot.counts_last;
        let s = self.sum_counts;
        let times_fit = self.sum.iterate.checked_plus(last.iterate).is_some()
            && self.sum.collide.checked_plus(last.collide).is_some()
            && self.sum.attract_total.checked_plus(last.attract_total).is_some()
            && self.sum.quadtree_build.checked_plus(last.quadtree_build).is_some()
            && self.sum.quadtree_acc.checked_plus(last.quadtree_acc).is_some();
        let counts_fit = s.bodies.checked_add(c.bodies).is_some()
            && s.quadtree_nodes_active.checked_add(c.quadtree_nodes_active).is_some()
            && s.collision_pairs.checked_add(c.collision_pairs).is_some()
            && s.collision_islands.checked_add(c.collision_islands).is_some()
            && s.collision_island_max_pairs.checked_add(c.collision_island_max_pairs).is_some()
            && s.bonds.checked_add(c.bonds).is_some();
        let len = self.frames.len();
        let new_len: usize = if len < self.window {
            len + 1
        } else {
            self.window
        };
        let denom_ok = (new_len as u64) % 0x1_0000_0000 != 0;
        proof {
            let pushed = self.frames@.push(last);
            assert(windowed(pushed, self.window as nat).len() == new_len);
            assert(timing(self.sum, 0) == timing_sum(self.frames@, 0));
            assert(timing(self.sum, 1) == timing_sum(self.frames@, 1));
            assert(timing(self.sum, 2) == timing_sum(self.frames@, 2));
            assert(timing(self.sum, 3) == timing_sum(self.frames@, 3));
            assert(timing(self.sum, 4) == timing_sum(self.frames@, 4));
            assert(count(self.sum_counts, 0) == count_sum(self.counts@, 0));
            assert(count(self.sum_counts, 1) == count_sum(self.counts@, 1));
            assert(count(self.sum_counts, 2) == count_sum(self.counts@, 2));
            assert(count(self.sum_counts, 3) == count_sum(self.counts@, 3));
            assert(count(self.sum_counts, 4) == count_sum(self.counts@, 4));
            assert(count(self.sum_counts, 5) == count_sum(self.counts@, 5));
            if forall|k: int|
                0 <= k < TIMING_FIELDS ==> timing_sum(self.frames(), k) + timing(last, k)
                    <= max_nanos() {
                assert(timing_sum(self.frames(), 0) + timing(last, 0) <= max_nanos());
                assert(timing_sum(self.frames(), 1) + timing(last, 1) <= max_nanos());
                assert(timing_sum(self.frames(), 2) + timing(last, 2) <= max_nanos());
                assert(timing_sum(self.frames(), 3) + timing(last, 3) <= max_nanos());
                assert(timing_sum(self.frames(), 4) + timing(last, 4) <= max_nanos());
            }
            if forall|k: int|
                0 <= k < COUNT_FIELDS ==> count_sum(self.counts(), k) + count(c, k)
                    <= usize::MAX {
                assert(count_sum(self.counts(), 0) + count(c, 0) <= usize::MAX);
                assert(count_sum(self.counts(), 1) + count(c, 1) <= usize::MAX);
                assert(count_sum(self.counts(), 2) + count(c, 2) <= usize::MAX);
                assert(count_sum(self.counts(), 3) + count(c, 3) <= usize::MAX);
                assert(count_sum(self.counts(), 4) + count(c, 4) <= usize::MAX);
                assert(count_sum(self.counts(), 5) + count(c, 5) <= usize::MAX);
            }
        }
        times_fit && counts_fit && denom_ok
    }

    /// A copy of the current snapshot.
    pub fn snapshot(&self) -> (s: MetricsSnapshot)
        ensures
            s == self.snap(),
    {
        self.snapshot
    }

    /// Mutable access to the current snapshot, where a step records its
    /// timings and counts.
    pub fn snapshot_mut(&mut self) -> (s: &mut MetricsSnapshot)
        ensures
            *s == old(self).snap(),
            final(self).snap() == *final(s),
            final(self).window_size() == old(self).window_size(),
            final(self).frames() == old(self).frames(),
            final(self).counts() == old(self).counts(),
            old(self).wf() ==> final(self).wf(),
    {
        &mut self.snapshot
    }

    /// The counts summed over the frames in the window.
    pub fn window_counts_sum(&self) -> (c: FrameCounts)
        requires
            self.wf(),
        ensures
            forall|k: int|
                0 <= k < COUNT_FIELDS ==> #[trigger] count(c, k) == count_sum(self.counts(), k),
    {
        self.sum_counts
    }

    /// The number of frames in the window.
    pub fn window_len(&self) -> (n: usize)
        requires
            self.wf(),
        ensures
            n == self.frames().len(),
            n == self.counts().len(),
    {
        self.frames.len()
    }
}

impl Default for Metrics {
    fn default() -> (m: Metrics)
        ensures
            m.wf(),
            m.window_size() == DEFAULT_WINDOW,
            m.frames() == Seq::<FrameTimings>::empty(),
            m.counts() == Seq::<FrameCounts>::empty(),
            m.snap().frame == 0,
            timings_zero(m.snap().last),
            timings_zero(m.snap().avg),
            counts_zero(m.snap().counts_last),
            counts_zero(m.snap().counts_avg),
    {
        Metrics::new(DEFAULT_WINDOW)
    }
}

} // verus!
