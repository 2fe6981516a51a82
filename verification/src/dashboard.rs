//! Bookkeeping of the live dashboard: which planned beats are queued for the
//! audio output, which one is audible, and the recent history.

use vstd::prelude::*;
use std::collections::VecDeque;
use crate::planner::Step;

verus! {

/// Beats kept queued ahead of the audio output.
pub const QUEUED_BEATS: usize = 8;

/// Beats kept in the history.
pub const HISTORY_LENGTH: usize = 256;

/// The direction of a jump from `source` to `destination`.
pub fn jump_direction(source: usize, destination: usize) -> (direction: &'static str)
    ensures
        direction@ == if destination < source {
            "backward"@
        } else {
            "forward"@
        },
{
    if destination < source {
        "backward"
    } else {
        "forward"
    }
}

/// A planned beat together with what the display shows about it.
#[derive(Clone, Copy, Debug)]
pub struct QueuedBeat<P> {
    pub step: Step,
    pub detail: P,
}

/// Beats handed to the audio output and not yet finished, the audible beat,
/// the finished beats (most recent first) and the number of finished jumps.
pub struct Timeline<P> {
    pub queue: VecDeque<QueuedBeat<P>>,
    pub live: Option<QueuedBeat<P>>,
    pub history: VecDeque<QueuedBeat<P>>,
    pub jump_count: u64,
}

/// The first `count` queued beats finished, most recent first.
pub open spec fn finished_recent_first<P>(queue: Seq<QueuedBeat<P>>, count: int) -> Seq<
    QueuedBeat<P>,
> {
    queue.take(count).reverse()
}

/// Number of jumps among the first `count` queued beats.
pub open spec fn jumps_among<P>(queue: Seq<QueuedBeat<P>>, count: int) -> nat
    decreases count,
{
    if count <= 0 {
        0
    } else {
        jumps_among(queue, count - 1) + if queue[count - 1].step.jumped_from is Some {
            1nat
        } else {
            0nat
        }
    }
}

/// A history cut to its `HISTORY_LENGTH` most recent entries.
pub open spec fn truncated_history<P>(full: Seq<QueuedBeat<P>>) -> Seq<QueuedBeat<P>> {
    if full.len() > HISTORY_LENGTH {
        full.take(HISTORY_LENGTH as int)
    } else {
        full
    }
}

/// How many queued beats have finished when the audio output still holds
/// `pending` of them: all but `max(pending, 1)`.
pub open spec fn finished_count(queued: int, pending: int) -> int {
    let keep = if pending > 1 {
        pending
    } else {
        1
    };
    if queued > keep {
        queued - keep
    } else {
        0
    }
}

/// The timeline after the audio output reports `pending` beats still queued.
/// Finished beats leave the queue in order, enter the history most recent
/// first (keeping `HISTORY_LENGTH` entries), and add their jumps to the
/// count; the audible beat becomes the first beat still queued or, with
/// none left, the last one finished. A timeline without an audible beat
/// takes the first queued beat, if any.
pub open spec fn settled<P>(
    queue: Seq<QueuedBeat<P>>,
    live: Option<QueuedBeat<P>>,
    history: Seq<QueuedBeat<P>>,
    jump_count: int,
    pending: int,
) -> (Seq<QueuedBeat<P>>, Option<QueuedBeat<P>>, Seq<QueuedBeat<P>>, int) {
    let done = finished_count(queue.len() as int, pending);
    let rest = queue.skip(done);
    let moved = if done == 0 {
        live
    } else if rest.len() > 0 {
        Some(rest[0])
    } else {
        Some(queue[done - 1])
    };
    let audible = if moved is None && rest.len() > 0 {
        Some(rest[0])
    } else {
        moved
    };
    let full = finished_recent_first(queue, done) + history;
    let kept = if done == 0 {
        history
    } else {
        truncated_history(full)
    };
    (rest, audible, kept, jump_count + jumps_among(queue, done))
}

impl<P: Copy> Timeline<P> {
    /// An empty timeline.
    pub fn new() -> (timeline: Self)
        ensures
            timeline.queue@.len() == 0,
            timeline.live is None,
            timeline.history@.len() == 0,
            timeline.jump_count == 0,
    {
        Timeline { queue: VecDeque::new(), live: None, history: VecDeque::new(), jump_count: 0 }
    }

    /// Appends a beat handed to the audio output.
    pub fn enqueue(&mut self, beat: QueuedBeat<P>)
        ensures
            final(self).queue@ == old(self).queue@.push(beat),
            final(self).live == old(self).live,
            final(self).history@ == old(self).history@,
            final(self).jump_count == old(self).jump_count,
    {
        self.queue.push_back(beat);
    }

    /// Brings the timeline up to date when the audio output still holds
    /// `pending` queued beats.
    pub fn settle(&mut self, pending: usize)
        requires
            old(self).jump_count + jumps_among(
                old(self).queue@,
                finished_count(old(self).queue@.len() as int, pending as int),
            ) <= u64::MAX,
        ensures
            ({
                let (queue, live, history, jumps) = settled(
                    old(self).queue@,
                    old(self).live,
                    old(self).history@,
                    old(self).jump_count as int,
                    pending as int,
                );
                &&& final(self).queue@ == queue
                &&& final(self).live == live
                &&& final(self).history@ == history
                &&& final(self).jump_count == jumps
            }),
    {
        let ghost queue0 = self.queue@;
        let ghost history0 = self.history@;
        let ghost done = finished_count(queue0.len() as int, pending as int);
        let keep = if pending > 1 {
            pending
        } else {
            1
        };
        let mut removed: usize = 0;
        let initial_len = self.queue.len();
        while self.queue.len() > keep
            invariant
                keep == if pending > 1 {
                    pending
                } else {
                    1
                },
                done == finished_count(queue0.len() as int, pending as int),
                removed <= done,
                self.queue@ == queue0.skip(removed as int),
                self.jump_count == old(self).jump_count + jumps_among(queue0, removed as int),
                old(self).jump_count + jumps_among(queue0, done) <= u64::MAX,
                removed == 0 ==> self.history@ == history0,
                removed > 0 ==> self.history@ == truncated_history(
                    finished_recent_first(queue0, removed as int) + history0,
                ),
                queue0.len() == initial_len,
                removed == 0 ==> self.live == old(self).live,
                removed > 0 ==> self.live == if self.queue@.len() > 0 {
                    Some(self.queue@[0])
                } else {
                    Some(queue0[removed - 1])
                },
            decreases self.queue@.len(),
        {
            let finished = self.queue.pop_front().unwrap();
            proof {
                assert(queue0.skip(removed as int + 1) =~= queue0.skip(removed as int).skip(1));
                assert(finished == queue0[removed as int]);
                lemma_jumps_step(queue0, removed as int + 1);
                lemma_jumps_monotone(queue0, removed as int + 1, done);
            }
            if finished.step.jumped_from.is_some() {
                self.jump_count = self.jump_count + 1;
            }
            self.history.push_front(finished);
            self.history.truncate(HISTORY_LENGTH);
            proof {
                let before = finished_recent_first(queue0, removed as int) + history0;
                let after = finished_recent_first(queue0, removed as int + 1) + history0;
                assert(queue0.take(removed as int + 1) =~= queue0.take(removed as int).push(
                    finished,
                ));
                assert(finished_recent_first(queue0, removed as int + 1) =~= seq![finished]
                    + finished_recent_first(queue0, removed as int)) by {
                    let a = queue0.take(removed as int + 1).reverse();
                    let b = seq![finished] + queue0.take(removed as int).reverse();
                    assert forall|i: int| 0 <= i < a.len() implies a[i] == b[i] by {}
                }
                assert(after =~= seq![finished] + before);
                if removed > 0 {
                    let cut = truncated_history(before);
                    assert(truncated_history(seq![finished] + cut) =~= truncated_history(
                        seq![finished] + before,
                    ));
                }
                assert(removed < done);
            }
            self.live = if self.queue.len() > 0 {
                Some(self.queue[0])
            } else {
                Some(finished)
            };
            removed = removed + 1;
        }
        if self.live.is_none() && self.queue.len() > 0 {
            self.live = Some(self.queue[0]);
        }
        proof {
            assert(removed == done);
        }
    }
}

proof fn lemma_jumps_step<P>(queue: Seq<QueuedBeat<P>>, count: int)
    requires
        count > 0,
    ensures
        jumps_among(queue, count) == jumps_among(queue, count - 1) + if queue[count
            - 1].step.jumped_from is Some {
            1nat
        } else {
            0nat
        },
{
}

proof fn lemma_jumps_monotone<P>(queue: Seq<QueuedBeat<P>>, a: int, b: int)
    requires
        a <= b,
    ensures
        jumps_among(queue, a) <= jumps_among(queue, b),
    decreases b - a,
{
    if a < b {
        lemma_jumps_monotone(queue, a, b - 1);
    }
}

/// Decimal digits of `n`.
pub open spec fn digit_count(n: nat) -> nat
    decreases n,
{
    if n < 10 {
        1
    } else {
        1 + digit_count(n / 10)
    }
}

proof fn lemma_digit_count_bound(n: nat)
    ensures
        digit_count(n) <= if n > 0 {
            n
        } else {
            1
        },
    decreases n,
{
    if n >= 10 {
        lemma_digit_count_bound(n / 10);
    }
}

/// Width of `n` written in decimal.
pub fn decimal_width(n: usize) -> (width: usize)
    ensures
        width == digit_count(n as nat),
{
    let mut width: usize = 1;
    let mut rest = n;
    proof {
        lemma_digit_count_bound(n as nat);
    }
    while rest >= 10
        invariant
            width + digit_count(rest as nat) == digit_count(n as nat) + 1,
            digit_count(n as nat) <= if n > 0 {
                n as nat
            } else {
                1
            },
        decreases rest,
    {
        assert(digit_count((rest / 10) as nat) >= 1);
        rest = rest / 10;
        width = width + 1;
    }
    width
}

/// Where the live stitch line sits in its panel: the recent history to the
/// left of the audible beat's marker, the queued beats to its right, each
/// side `side_width` cells wide.
#[derive(Clone, Copy, Debug)]
pub struct StitchLayout {
    /// Digits every beat number is padded to.
    pub number_width: usize,
    /// Column where the history side begins.
    pub history_x: u16,
    /// Column where the audible beat's marker begins.
    pub live_x: u16,
    /// Column where the queue side begins.
    pub queue_x: u16,
    /// Width of each side.
    pub side_width: u16,
    /// Width of the marker.
    pub marker_width: u16,
}

/// The smaller of two integers.
pub open spec fn least(a: int, b: int) -> int {
    if a <= b {
        a
    } else {
        b
    }
}

/// The larger of two integers.
pub open spec fn most(a: int, b: int) -> int {
    if a >= b {
        a
    } else {
        b
    }
}

/// The stitch line for a panel interior starting at column `inner_x` and
/// `inner_width` cells wide, for a track of `beat_count` beats. Beat numbers
/// are padded to the width of the last beat's number; the marker holds one
/// such number in brackets; the line takes four fifths of the width (at
/// least the marker), narrowed by one cell where needed to leave two equal
/// sides, and is centred.
pub fn stitch_layout(inner_x: u16, inner_width: u16, beat_count: usize) -> (layout: StitchLayout)
    requires
        inner_x + inner_width <= u16::MAX,
    ensures
        ({
            let number_width = digit_count(
                if beat_count > 0 {
                    (beat_count - 1) as nat
                } else {
                    0
                },
            );
            let marker = least(least(number_width + 2int, u16::MAX as int), inner_width as int);
            let wide = most(least(inner_width * 4, u16::MAX as int) / 5, marker);
            let stitch = if (wide - marker) % 2 != 0 {
                most(wide - 1, marker)
            } else {
                wide
            };
            let side = (stitch - marker) / 2;
            &&& layout.number_width == number_width
            &&& layout.marker_width == marker
            &&& layout.side_width == side
            &&& layout.history_x == inner_x + (inner_width - stitch) / 2
            &&& layout.live_x == layout.history_x + side
            &&& layout.queue_x == layout.live_x + marker
        }),
{
    let last_beat = if beat_count > 0 {
        beat_count - 1
    } else {
        0
    };
    let number_width = decimal_width(last_beat);
    proof {
        lemma_digit_count_bound(last_beat as nat);
    }
    let padded: u16 = if number_width < 65533 {
        (number_width + 2) as u16
    } else {
        u16::MAX
    };
    let marker = if padded < inner_width {
        padded
    } else {
        inner_width
    };
    let widened: u16 = if inner_width <= u16::MAX / 4 {
        inner_width * 4
    } else {
        u16::MAX
    };
    let wide = widened / 5;
    let mut stitch = if wide > marker {
        wide
    } else {
        marker
    };
    if (stitch - marker) % 2 != 0 {
        stitch = if stitch - 1 > marker {
            stitch - 1
        } else {
            marker
        };
    }
    let side = (stitch - marker) / 2;
    let history_x = inner_x + (inner_width - stitch) / 2;
    let live_x = history_x + side;
    let queue_x = live_x + marker;
    StitchLayout { number_width, history_x, live_x, queue_x, side_width: side, marker_width: marker }
}

/// Sum of a sequence of widths.
pub open spec fn total_width(widths: Seq<usize>) -> int
    decreases widths.len(),
{
    if widths.len() == 0 {
        0
    } else {
        total_width(widths.drop_last()) + widths.last()
    }
}

/// How many of the items, taken in order, fit side by side in `available`
/// cells: the longest run from the first whose widths add up to no more
/// than `available`.
pub fn fitting_count(widths: &Vec<usize>, available: usize) -> (count: usize)
    ensures
        count <= widths@.len(),
        total_width(widths@.take(count as int)) <= available,
        count < widths@.len() ==> total_width(widths@.take(count as int + 1)) > available,
{
    let mut count: usize = 0;
    let mut used: usize = 0;
    assert(widths@.take(0) =~= Seq::<usize>::empty());
    while count < widths.len()
        invariant
            count <= widths@.len(),
            used == total_width(widths@.take(count as int)),
            used <= available,
        decreases widths@.len() - count,
    {
        let width = widths[count];
        assert(widths@.take(count as int + 1).drop_last() =~= widths@.take(count as int));
        if width > available - used {
            return count;
        }
        used = used + width;
        count = count + 1;
    }
    assert(widths@.take(count as int) =~= widths@);
    count
}

/// A session length in seconds as hours, minutes within the hour and
/// seconds within the minute.
pub fn clock_fields(seconds: u64) -> (fields: (u64, u64, u64))
    ensures
        fields.0 == seconds / 3600,
        fields.1 == seconds / 60 % 60,
        fields.2 == seconds % 60,
{
    (seconds / 3600, seconds / 60 % 60, seconds % 60)
}

} // verus!
