//! Cutting one beat out of interleaved audio and fading its edges.
//!
//! A beat is played as the run of whole frames between its first and last
//! frame, clamped to the decoded audio. When playback jumps into or out of a
//! beat, its first or last few milliseconds are faded linearly so that the
//! seam does not click: the gain of a faded frame is a fraction whose
//! numerator this module computes and whose denominator is `fade_divisor`.

use vstd::prelude::*;

verus! {

/// Length of each edge fade, in milliseconds.
pub const FADE_MILLISECONDS: u32 = 2;

/// The interleaved sample range of one beat and the length of its fades.
#[derive(Clone, Copy, Debug)]
pub struct BeatWindow {
    /// Index of the first sample of the beat.
    pub start: usize,
    /// Index one past the last sample of the beat.
    pub end: usize,
    /// Samples per frame.
    pub channels: usize,
    /// Frames faded at each faded edge.
    pub fade_frames: usize,
}

/// Frames in the fade for a sample rate, before it is limited by the beat.
pub open spec fn nominal_fade(sample_rate: u32) -> int {
    (sample_rate * FADE_MILLISECONDS) as int / 1000
}

/// The smaller of two integers.
pub open spec fn smaller(a: int, b: int) -> int {
    if a <= b {
        a
    } else {
        b
    }
}

impl BeatWindow {
    /// Whole frames in the window.
    pub open spec fn frames(self) -> int {
        (self.end - self.start) / self.channels as int
    }

    /// The window is a run of whole frames and its two fades do not overlap.
    pub open spec fn wf(self) -> bool {
        &&& self.channels > 0
        &&& self.start <= self.end
        &&& (self.end - self.start) % self.channels as int == 0
        &&& 2 * self.fade_frames <= self.frames()
    }

    /// The frame, counted from the start of the beat, that holds a sample.
    pub open spec fn frame_of(self, position: int) -> int {
        (position - self.start) / self.channels as int
    }

    /// Numerator of the fade-in gain of a frame, where it is faded in.
    pub open spec fn fade_in_gain(self, frame: int) -> Option<int> {
        if 0 <= frame < self.fade_frames {
            Some(frame)
        } else {
            None
        }
    }

    /// Numerator of the fade-out gain of a frame, where it is faded out.
    pub open spec fn fade_out_gain(self, frame: int) -> Option<int> {
        if self.frames() - self.fade_frames <= frame < self.frames() {
            Some(self.frames() - frame - 1)
        } else {
            None
        }
    }

    /// Number of whole frames in the window.
    pub fn frame_count(&self) -> (count: usize)
        requires
            self.wf(),
        ensures
            count == self.frames(),
    {
        (self.end - self.start) / self.channels
    }

    /// Samples of the window at or after `position`.
    pub fn remaining(&self, position: usize) -> (count: usize)
        ensures
            count == if position < self.end {
                self.end - position
            } else {
                0
            },
    {
        if position < self.end {
            self.end - position
        } else {
            0
        }
    }

    /// The denominator of every fade gain.
    pub fn fade_divisor(&self) -> (divisor: usize)
        ensures
            divisor == if self.fade_frames > 0 {
                self.fade_frames
            } else {
                1
            },
    {
        if self.fade_frames > 0 {
            self.fade_frames
        } else {
            1
        }
    }

    /// Numerators of the gains applied to the sample at `position`: the
    /// fade-in gain when `fade_in` is set and the fade-out gain when
    /// `fade_out` is set, each only where its fade covers the frame. A gain
    /// never exceeds one, and no frame is in both fades.
    pub fn fade_numerators(&self, position: usize, fade_in: bool, fade_out: bool) -> (gains: (
        Option<usize>,
        Option<usize>,
    ))
        requires
            self.wf(),
            self.start <= position < self.end,
        ensures
            match gains.0 {
                Some(g) => fade_in && self.fade_in_gain(self.frame_of(position as int)) == Some(
                    g as int,
                ),
                None => !fade_in || self.fade_in_gain(self.frame_of(position as int)) is None,
            },
            match gains.1 {
                Some(g) => fade_out && self.fade_out_gain(self.frame_of(position as int)) == Some(
                    g as int,
                ),
                None => !fade_out || self.fade_out_gain(self.frame_of(position as int)) is None,
            },
            gains.0 matches Some(g) ==> g < self.fade_frames,
            gains.1 matches Some(g) ==> g < self.fade_frames,
            !(gains.0 is Some && gains.1 is Some),
    {
        let frame = (position - self.start) / self.channels;
        let frame_count = (self.end - self.start) / self.channels;
        proof {
            let c = self.channels as int;
            let d = (self.end - self.start) as int;
            let p = (position - self.start) as int;
            vstd::arithmetic::div_mod::lemma_div_is_ordered(p, d, c);
            vstd::arithmetic::div_mod::lemma_fundamental_div_mod(d, c);
            vstd::arithmetic::div_mod::lemma_fundamental_div_mod(p, c);
            assert(frame < frame_count) by (nonlinear_arith)
                requires
                    p < d,
                    d % c == 0,
                    d == c * (d / c) + d % c,
                    p == c * (p / c) + p % c,
                    0 <= p % c,
                    frame == p / c,
                    frame_count == d / c,
                    c > 0,
            ;
        }
        let fade_in_gain = if fade_in && frame < self.fade_frames {
            Some(frame)
        } else {
            None
        };
        let fade_out_gain = if fade_out && frame >= frame_count - self.fade_frames {
            Some(frame_count - frame - 1)
        } else {
            None
        };
        (fade_in_gain, fade_out_gain)
    }
}

/// The window of a beat whose first frame is `start_frame` and whose end
/// frame is `end_frame`, in audio of `sample_count` interleaved samples with
/// `channels` samples per frame at `sample_rate` frames per second. Both
/// frames are clamped to the whole frames of the audio, and the end to no
/// earlier than the start. Each fade lasts `FADE_MILLISECONDS`, but at most
/// half the beat.
pub fn beat_window(
    start_frame: usize,
    end_frame: usize,
    sample_count: usize,
    channels: u16,
    sample_rate: u32,
) -> (window: BeatWindow)
    requires
        channels > 0,
        sample_rate * FADE_MILLISECONDS <= u32::MAX,
    ensures
        window.wf(),
        window.channels == channels,
        ({
            let frame_total = sample_count as int / channels as int;
            let first = smaller(start_frame as int, frame_total);
            let last = if end_frame < first {
                first
            } else {
                smaller(end_frame as int, frame_total)
            };
            &&& window.start == first * channels
            &&& window.end == last * channels
            &&& window.fade_frames == smaller(nominal_fade(sample_rate), (last - first) / 2)
        }),
        window.end <= sample_count,
{
    let channel_count = channels as usize;
    let frame_total = sample_count / channel_count;
    let first = if start_frame < frame_total {
        start_frame
    } else {
        frame_total
    };
    let last = if end_frame < first {
        first
    } else if end_frame < frame_total {
        end_frame
    } else {
        frame_total
    };
    let nominal = ((sample_rate * FADE_MILLISECONDS) / 1000) as usize;
    let half = (last - first) / 2;
    let fade_frames = if nominal < half {
        nominal
    } else {
        half
    };
    proof {
        let c = channel_count as int;
        vstd::arithmetic::div_mod::lemma_fundamental_div_mod(sample_count as int, c);
        assert(first * c <= last * c <= frame_total * c <= sample_count) by (nonlinear_arith)
            requires
                first <= last <= frame_total,
                c > 0,
                sample_count == c * frame_total + sample_count as int % c,
                sample_count as int % c >= 0,
        ;
        assert(last * c - first * c == (last - first) * c) by (nonlinear_arith);
        vstd::arithmetic::div_mod::lemma_mod_multiples_basic((last - first) as int, c);
        vstd::arithmetic::div_mod::lemma_div_multiples_vanish((last - first) as int, c);
    }
    let start = first * channel_count;
    let end = last * channel_count;
    let window = BeatWindow { start, end, channels: channel_count, fade_frames };
    proof {
        assert(window.frames() == last - first);
    }
    window
}

/// The fade-out mirrors the fade-in: the frame `k` frames before the end of
/// a beat gets the gain that the frame `k` frames after its start gets, and
/// a frame is never in both fades.
pub proof fn lemma_fades_mirror(window: BeatWindow, k: int)
    requires
        window.wf(),
        0 <= k < window.frames(),
    ensures
        window.fade_out_gain(window.frames() - 1 - k) == window.fade_in_gain(k),
        !(window.fade_in_gain(k) is Some && window.fade_out_gain(k) is Some),
{
}

} // verus!
