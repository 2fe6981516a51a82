//! Statistics of a simulated walk: how often every beat is heard, how many
//! jumps go where, how often playback ran off the physical end, and the
//! longest stretch confined to a small part of the track.

use vstd::prelude::*;
use crate::planner::Step;

verus! {

/// Beats in the observation window for local confinement.
pub const RECENT_WINDOW: usize = 64;

/// Tally of a simulated walk over a track of `visits.len()` beats.
pub struct Simulation {
    /// How often every beat was planned, saturating at `u32::MAX`.
    pub visits: Vec<u32>,
    /// Jumps other than restarts.
    pub jumps: usize,
    /// Jumps to an earlier beat.
    pub backward: usize,
    /// Backward jumps spanning at least a quarter of the track.
    pub long_backward: usize,
    /// Restarts after actually playing the last beat.
    pub wraps: usize,
    /// Longest confinement to a small range of beats, in beats.
    pub longest_local_run: usize,
    /// Consecutive steps whose window was confined.
    pub local_run: usize,
    /// The most recent beats, oldest first.
    pub recent: Vec<usize>,
    /// The beat planned last.
    pub previous_beat: Option<usize>,
}

/// Largest entry (0 for an empty sequence).
pub open spec fn max_beat(s: Seq<usize>) -> int
    decreases s.len(),
{
    if s.len() == 0 {
        0
    } else if s.len() == 1 || s.last() >= max_beat(s.drop_last()) {
        s.last() as int
    } else {
        max_beat(s.drop_last())
    }
}

/// Smallest entry (0 for an empty sequence).
pub open spec fn min_beat(s: Seq<usize>) -> int
    decreases s.len(),
{
    if s.len() == 0 {
        0
    } else if s.len() == 1 || s.last() <= min_beat(s.drop_last()) {
        s.last() as int
    } else {
        min_beat(s.drop_last())
    }
}

/// Widest distance between two beats of the window.
pub open spec fn spread(s: Seq<usize>) -> int {
    max_beat(s) - min_beat(s)
}

/// Windows spanning at most this many beats count as confined: a twelfth of
/// the track, and at least eight beats.
pub open spec fn locality(beat_count: int) -> int {
    if beat_count / 12 > 8 {
        beat_count / 12
    } else {
        8
    }
}

/// The window after `beat` was planned: the newest beat joins, the oldest
/// leaves once the window is over-full.
pub open spec fn slid_window(recent: Seq<usize>, beat: usize) -> Seq<usize> {
    let joined = recent.push(beat);
    if joined.len() > RECENT_WINDOW {
        joined.skip(1)
    } else {
        joined
    }
}

/// A jump is a restart when the previous beat was the last beat and the jump
/// lands on beat 0; a branch that replaces the last beat is an ordinary jump.
pub open spec fn is_restart(previous: Option<usize>, step: Step, beat_count: int) -> bool {
    &&& step.jumped_from is Some
    &&& step.beat == 0
    &&& if beat_count > 0 {
        previous == Some((beat_count - 1) as usize)
    } else {
        previous is None
    }
}

/// Whether the window is full and confined.
pub open spec fn is_confined(window: Seq<usize>, beat_count: int) -> bool {
    window.len() == RECENT_WINDOW && spread(window) <= locality(beat_count)
}

pub open spec fn one_if(b: bool) -> int {
    if b {
        1
    } else {
        0
    }
}

/// Counters can take one more step.
pub open spec fn has_room(sim: Simulation) -> bool {
    &&& sim.jumps < usize::MAX
    &&& sim.backward < usize::MAX
    &&& sim.long_backward < usize::MAX
    &&& sim.wraps < usize::MAX
    &&& sim.local_run + RECENT_WINDOW < usize::MAX
}

proof fn lemma_max_at_least_min(s: Seq<usize>)
    ensures
        max_beat(s) >= min_beat(s),
        s.len() > 0 ==> min_beat(s) >= 0,
    decreases s.len(),
{
    if s.len() > 1 {
        lemma_max_at_least_min(s.drop_last());
    }
}

fn max_min(s: &Vec<usize>) -> (r: (usize, usize))
    ensures
        r.0 == max_beat(s@),
        r.1 == min_beat(s@),
{
    let mut high: usize = 0;
    let mut low: usize = 0;
    let mut i: usize = 0;
    while i < s.len()
        invariant
            i <= s@.len(),
            high == max_beat(s@.take(i as int)),
            low == min_beat(s@.take(i as int)),
        decreases s@.len() - i,
    {
        proof {
            assert(s@.take(i + 1).drop_last() =~= s@.take(i as int));
            assert(s@.take(i + 1).last() == s@[i as int]);
        }
        if i == 0 || s[i] >= high {
            high = s[i];
        }
        if i == 0 || s[i] <= low {
            low = s[i];
        }
        i = i + 1;
    }
    assert(s@.take(i as int) =~= s@);
    proof {
        lemma_max_at_least_min(s@);
    }
    (high, low)
}

impl Simulation {
    /// An empty tally for a track of `beat_count` beats.
    pub fn new(beat_count: usize) -> (sim: Self)
        ensures
            sim.visits@ == Seq::new(beat_count as nat, |_i: int| 0u32),
            sim.jumps == 0 && sim.backward == 0 && sim.long_backward == 0 && sim.wraps == 0,
            sim.longest_local_run == 0 && sim.local_run == 0,
            sim.recent@.len() == 0,
            sim.previous_beat is None,
    {
        let visits = vec![0u32; beat_count];
        Simulation {
            visits,
            jumps: 0,
            backward: 0,
            long_backward: 0,
            wraps: 0,
            longest_local_run: 0,
            local_run: 0,
            recent: Vec::new(),
            previous_beat: None,
        }
    }

    /// Records one planned step.
    pub fn record(&mut self, step: Step)
        requires
            step.beat < old(self).visits@.len(),
            has_room(*old(self)),
        ensures
            ({
                let before = *old(self);
                let after = *final(self);
                let n = before.visits@.len() as int;
                let restart = is_restart(before.previous_beat, step, n);
                let jump = step.jumped_from is Some && !restart;
                let source = step.jumped_from.unwrap_or(0);
                let back = jump && step.beat < source;
                let window = slid_window(before.recent@, step.beat);
                let confined = is_confined(window, n);
                &&& after.visits@ == before.visits@.update(
                    step.beat as int,
                    if before.visits@[step.beat as int] < u32::MAX {
                        (before.visits@[step.beat as int] + 1) as u32
                    } else {
                        u32::MAX
                    },
                )
                &&& after.wraps == before.wraps + one_if(restart)
                &&& after.jumps == before.jumps + one_if(jump)
                &&& after.backward == before.backward + one_if(back)
                &&& after.long_backward == before.long_backward + one_if(
                    back && source - step.beat >= n / 4,
                )
                &&& after.previous_beat == Some(step.beat)
                &&& after.recent@ == window
                &&& after.local_run == if confined {
                    before.local_run + 1
                } else {
                    0
                }
                &&& after.longest_local_run == if confined && before.local_run + RECENT_WINDOW
                    > before.longest_local_run {
                    before.local_run + RECENT_WINDOW
                } else {
                    before.longest_local_run as int
                }
            }),
    {
        let n = self.visits.len();
        let count = self.visits[step.beat];
        self.visits.set(step.beat, if count < u32::MAX { count + 1 } else { u32::MAX });
        if let Some(source) = step.jumped_from {
            // A branch replacing the final beat with beat zero is a valid
            // jump, not a restart after actually playing the physical end.
            let last = if n > 0 {
                Some(n - 1)
            } else {
                None
            };
            let is_wrap = self.previous_beat == last && step.beat == 0;
            if is_wrap {
                self.wraps = self.wraps + 1;
            } else {
                self.jumps = self.jumps + 1;
                if step.beat < source {
                    self.backward = self.backward + 1;
                    if source - step.beat >= n / 4 {
                        self.long_backward = self.long_backward + 1;
                    }
                }
            }
        }
        self.previous_beat = Some(step.beat);
        self.recent.push(step.beat);
        if self.recent.len() > RECENT_WINDOW {
            self.recent.remove(0);
            proof {
                assert(self.recent@ =~= slid_window(old(self).recent@, step.beat));
            }
        }
        let (high, low) = max_min(&self.recent);
        let locality = if n / 12 > 8 {
            n / 12
        } else {
            8
        };
        if self.recent.len() == RECENT_WINDOW && high - low <= locality {
            self.local_run = self.local_run + 1;
            if self.local_run + (RECENT_WINDOW - 1) > self.longest_local_run {
                self.longest_local_run = self.local_run + (RECENT_WINDOW - 1);
            }
        } else {
            self.local_run = 0;
        }
    }
}

/// Visits to the first `k` beats.
pub open spec fn visits_before(visits: Seq<u32>, k: int) -> int
    decreases k,
{
    if k <= 0 {
        0
    } else {
        visits_before(visits, k - 1) + visits[k - 1]
    }
}

/// Visits to the `width` beats from `start`.
pub open spec fn window_visits(visits: Seq<u32>, start: int, width: int) -> int {
    visits_before(visits, start + width) - visits_before(visits, start)
}

/// Beats among the first `k` that were visited at all.
pub open spec fn covered_before(visits: Seq<u32>, k: int) -> int
    decreases k,
{
    if k <= 0 {
        0
    } else {
        covered_before(visits, k - 1) + one_if(visits[k - 1] > 0)
    }
}

/// Width of the window searched for the most visited part of a track of
/// `beat_count` beats: a twentieth of the track rounded up, at least eight
/// beats and at most the whole track.
pub open spec fn hot_width(beat_count: int) -> int {
    let twentieth = (beat_count + 19) / 20;
    let wide = if twentieth > 8 {
        twentieth
    } else {
        8
    };
    if wide < beat_count {
        wide
    } else {
        beat_count
    }
}

/// `start` begins the most visited window of `width` beats, the last such
/// window where several are visited equally often.
pub open spec fn is_hottest(visits: Seq<u32>, width: int, start: int) -> bool {
    &&& 0 <= start <= visits.len() - width
    &&& forall|t: int|
        0 <= t <= visits.len() - width ==> window_visits(visits, t, width) <= window_visits(
            visits,
            start,
            width,
        )
    &&& forall|t: int|
        start < t <= visits.len() - width ==> window_visits(visits, t, width) < window_visits(
            visits,
            start,
            width,
        )
}

proof fn lemma_visits_nonnegative(visits: Seq<u32>, k: int)
    requires
        0 <= k <= visits.len(),
    ensures
        0 <= visits_before(visits, k),
    decreases k,
{
    if k > 0 {
        lemma_visits_nonnegative(visits, k - 1);
    }
}

proof fn lemma_visits_monotone(visits: Seq<u32>, a: int, b: int)
    requires
        0 <= a <= b <= visits.len(),
    ensures
        0 <= visits_before(visits, a) <= visits_before(visits, b),
    decreases b - a,
{
    if a < b {
        lemma_visits_monotone(visits, a, b - 1);
    } else {
        lemma_visits_nonnegative(visits, a);
    }
}

proof fn lemma_covered_bound(visits: Seq<u32>, k: int)
    requires
        0 <= k,
    ensures
        0 <= covered_before(visits, k) <= k,
    decreases k,
{
    if k > 0 {
        lemma_covered_bound(visits, k - 1);
    }
}

impl Simulation {
    /// Beats visited at least once.
    pub fn covered_beats(&self) -> (count: usize)
        ensures
            count == covered_before(self.visits@, self.visits@.len() as int),
    {
        let mut count: usize = 0;
        let mut i: usize = 0;
        while i < self.visits.len()
            invariant
                i <= self.visits@.len(),
                count == covered_before(self.visits@, i as int),
            decreases self.visits@.len() - i,
        {
            proof {
                lemma_covered_bound(self.visits@, i as int);
            }
            if self.visits[i] > 0 {
                count = count + 1;
            }
            i = i + 1;
        }
        count
    }

    /// All visits together.
    pub fn total_visits(&self) -> (total: u64)
        requires
            visits_before(self.visits@, self.visits@.len() as int) <= u64::MAX,
        ensures
            total == visits_before(self.visits@, self.visits@.len() as int),
    {
        self.visits_between(0, self.visits.len())
    }

    /// Visits to the beats from `start` up to `end`.
    fn visits_between(&self, start: usize, end: usize) -> (total: u64)
        requires
            start <= end <= self.visits@.len(),
            visits_before(self.visits@, self.visits@.len() as int) <= u64::MAX,
        ensures
            total == window_visits(self.visits@, start as int, end - start),
    {
        let mut total: u64 = 0;
        let mut i: usize = start;
        while i < end
            invariant
                start <= i <= end <= self.visits@.len(),
                total == visits_before(self.visits@, i as int) - visits_before(
                    self.visits@,
                    start as int,
                ),
                visits_before(self.visits@, self.visits@.len() as int) <= u64::MAX,
            decreases end - i,
        {
            proof {
                lemma_visits_monotone(self.visits@, start as int, i as int + 1);
                lemma_visits_monotone(self.visits@, i as int + 1, self.visits@.len() as int);
                lemma_visits_monotone(self.visits@, 0, start as int);
            }
            total = total + self.visits[i] as u64;
            i = i + 1;
        }
        total
    }

    /// Visits to each quarter of the track: quarter `q` holds the beats from
    /// `q * n / 4` up to `(q + 1) * n / 4` for a track of `n` beats.
    pub fn quarter_visits(&self) -> (quarters: Vec<u64>)
        requires
            self.visits@.len() <= usize::MAX / 4,
            visits_before(self.visits@, self.visits@.len() as int) <= u64::MAX,
        ensures
            quarters@.len() == 4,
            forall|q: int|
                0 <= q < 4 ==> #[trigger] quarters@[q] == window_visits(
                    self.visits@,
                    q * self.visits@.len() / 4,
                    (q + 1) * self.visits@.len() / 4 - q * self.visits@.len() / 4,
                ),
    {
        let n = self.visits.len();
        let mut quarters: Vec<u64> = Vec::new();
        let mut q: usize = 0;
        while q < 4
            invariant
                q <= 4,
                n == self.visits@.len(),
                n <= usize::MAX / 4,
                quarters@.len() == q,
                visits_before(self.visits@, n as int) <= u64::MAX,
                forall|r: int|
                    0 <= r < q ==> #[trigger] quarters@[r] == window_visits(
                        self.visits@,
                        r * n / 4,
                        (r + 1) * n / 4 - r * n / 4,
                    ),
            decreases 4 - q,
        {
            assert(q * n <= (q + 1) * n <= 4 * n) by (nonlinear_arith)
                requires
                    q < 4,
            ;
            assert(q * n / 4 <= (q + 1) * n / 4 <= n) by (nonlinear_arith)
                requires
                    q * n <= (q + 1) * n <= 4 * n,
            ;
            let start = q * n / 4;
            let end = (q + 1) * n / 4;
            let total = self.visits_between(start, end);
            quarters.push(total);
            q = q + 1;
        }
        quarters
    }

    /// The most visited window of `hot_width` beats, the last one among
    /// equally visited windows: its start, its width and its visits. A track
    /// without beats reports a window at 0 without visits.
    pub fn hot_window(&self) -> (hot: (usize, usize, u64))
        requires
            visits_before(self.visits@, self.visits@.len() as int) <= u64::MAX,
        ensures
            hot.1 == hot_width(self.visits@.len() as int),
            self.visits@.len() == 0 ==> hot.0 == 0 && hot.2 == 0,
            self.visits@.len() > 0 ==> is_hottest(self.visits@, hot.1 as int, hot.0 as int)
                && hot.2 == window_visits(self.visits@, hot.0 as int, hot.1 as int),
    {
        let n = self.visits.len();
        let twentieth = n / 20 + if n % 20 > 0 {
            1
        } else {
            0
        };
        let wide = if twentieth > 8 {
            twentieth
        } else {
            8
        };
        let width = if wide < n {
            wide
        } else {
            n
        };
        if n == 0 {
            return (0, width, 0);
        }
        let ghost v = self.visits@;
        let mut current = self.visits_between(0, width);
        let mut best: usize = 0;
        let mut best_visits = current;
        let mut s: usize = 1;
        while s <= n - width
            invariant
                v == self.visits@,
                n == v.len(),
                1 <= width <= n,
                1 <= s <= n - width + 1,
                current == window_visits(v, s - 1, width as int),
                best < s,
                best_visits == window_visits(v, best as int, width as int),
                forall|t: int|
                    0 <= t < s ==> window_visits(v, t, width as int) <= best_visits,
                forall|t: int| best < t < s ==> window_visits(v, t, width as int) < best_visits,
                visits_before(v, n as int) <= u64::MAX,
            decreases n - width + 1 - s,
        {
            proof {
                lemma_visits_monotone(v, s as int - 1, s as int);
                lemma_visits_monotone(v, s as int, s + width - 1);
                lemma_visits_monotone(v, s + width, n as int);
                lemma_visits_monotone(v, 0, s as int - 1);
                assert(visits_before(v, s + width) == visits_before(v, s + width - 1) + v[s
                    + width - 1]);
                assert(visits_before(v, s as int) == visits_before(v, s as int - 1) + v[s - 1]);
            }
            current = current - self.visits[s - 1] as u64 + self.visits[s + width - 1] as u64;
            if current >= best_visits {
                best = s;
                best_visits = current;
            }
            s = s + 1;
        }
        (best, width, best_visits)
    }
}

} // verus!
