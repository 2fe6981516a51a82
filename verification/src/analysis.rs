//! The parts of audio analysis that do not depend on sample values: the
//! parameters and failures, and the bookkeeping of the beat grid (which
//! snapped positions become beats, which spectral frames each beat covers,
//! and which beats remain once silence is trimmed from the ends).

use vstd::prelude::*;

verus! {

/// Why a track could not be analysed.
#[derive(Clone, Debug, PartialEq, Eq)]
pub enum AnalysisError {
    /// The audio is shorter than two seconds.
    TooShort,
    /// The analysis parameters cannot describe a spectral frame grid.
    InvalidConfig,
    /// The spectral transform failed, with its message.
    Fft(String),
}

pub open spec fn is_power_of_two(n: nat) -> bool
    decreases n,
{
    if n == 1 {
        true
    } else if n == 0 || n % 2 == 1 {
        false
    } else {
        is_power_of_two(n / 2)
    }
}

/// Frames must span at least 64 samples and a power of two (the transform
/// size), and consecutive frames must be at least one sample apart.
pub open spec fn frame_layout_ok(frame_size: nat, hop_size: nat) -> bool {
    frame_size >= 64 && is_power_of_two(frame_size) && hop_size > 0
}

fn power_of_two(n: usize) -> (r: bool)
    ensures
        r == is_power_of_two(n as nat),
{
    let mut m = n;
    while m > 1 && m % 2 == 0
        invariant
            is_power_of_two(m as nat) == is_power_of_two(n as nat),
        decreases m,
    {
        m = m / 2;
    }
    m == 1
}

/// Whether the frame size and hop size describe a usable frame grid.
pub fn frame_layout_is_valid(frame_size: usize, hop_size: usize) -> (valid: bool)
    ensures
        valid == frame_layout_ok(frame_size as nat, hop_size as nat),
{
    frame_size >= 64 && power_of_two(frame_size) && hop_size > 0
}

impl AnalysisError {
    /// A human-readable description of the failure.
    pub fn message(&self) -> (text: String)
        ensures
            text@ == match self {
                AnalysisError::TooShort => "audio is too short; at least two seconds are required"@,
                AnalysisError::InvalidConfig => "invalid analysis configuration"@,
                AnalysisError::Fft(detail) => "FFT failed: "@ + detail@,
            },
    {
        match self {
            AnalysisError::TooShort => String::from_str(
                "audio is too short; at least two seconds are required",
            ),
            AnalysisError::InvalidConfig => String::from_str("invalid analysis configuration"),
            AnalysisError::Fft(detail) => {
                let mut text = String::from_str("FFT failed: ");
                text.append(detail.as_str());
                text
            },
        }
    }
}

/// Positions kept from snapped beat positions taken in order: each one that
/// lies after the last one kept.
pub open spec fn increasing_run(snapped: Seq<usize>) -> Seq<usize>
    decreases snapped.len(),
{
    if snapped.len() == 0 {
        Seq::empty()
    } else {
        let kept = increasing_run(snapped.drop_last());
        if kept.len() == 0 || snapped.last() > kept.last() {
            kept.push(snapped.last())
        } else {
            kept
        }
    }
}

/// The beat grid from snapped positions: the increasing run, with a beat at
/// frame zero added in front when the first one lies more than half a period
/// (`half_period` frames, rounded down) into the track.
pub open spec fn beat_grid_of(snapped: Seq<usize>, half_period: usize) -> Seq<usize> {
    let kept = increasing_run(snapped);
    if kept.len() > 0 && kept[0] > half_period {
        seq![0usize] + kept
    } else {
        kept
    }
}

/// The positions are strictly increasing.
pub open spec fn strictly_increasing(s: Seq<usize>) -> bool {
    forall|i: int, j: int| 0 <= i < j < s.len() ==> s[i] < s[j]
}

proof fn lemma_increasing_run(snapped: Seq<usize>)
    ensures
        strictly_increasing(increasing_run(snapped)),
        increasing_run(snapped).len() <= snapped.len(),
        forall|i: int|
            0 <= i < increasing_run(snapped).len() ==> snapped.contains(
                #[trigger] increasing_run(snapped)[i],
            ),
    decreases snapped.len(),
{
    if snapped.len() > 0 {
        let rest = snapped.drop_last();
        lemma_increasing_run(rest);
        let kept = increasing_run(rest);
        assert forall|i: int|
            0 <= i < increasing_run(snapped).len() implies snapped.contains(
            #[trigger] increasing_run(snapped)[i],
        ) by {
            if i < kept.len() {
                let k = kept[i];
                let w = choose|w: int| 0 <= w < rest.len() && rest[w] == k;
                assert(snapped[w] == k);
            } else {
                assert(snapped[snapped.len() - 1] == snapped.last());
            }
        }
    }
}

/// The beat grid from the positions snapped to each predicted beat, in
/// order; see `beat_grid_of`. The grid is strictly increasing and made of
/// snapped positions, except for an added beat at zero.
pub fn beat_grid(snapped: &Vec<usize>, half_period: usize) -> (grid: Vec<usize>)
    ensures
        grid@ == beat_grid_of(snapped@, half_period),
        strictly_increasing(grid@),
        forall|i: int|
            0 <= i < grid@.len() ==> #[trigger] grid@[i] == 0 || snapped@.contains(grid@[i]),
{
    let mut kept: Vec<usize> = Vec::new();
    let mut i: usize = 0;
    assert(snapped@.take(0) =~= Seq::<usize>::empty());
    while i < snapped.len()
        invariant
            i <= snapped@.len(),
            kept@ == increasing_run(snapped@.take(i as int)),
        decreases snapped@.len() - i,
    {
        proof {
            assert(snapped@.take(i as int + 1).drop_last() =~= snapped@.take(i as int));
        }
        let position = snapped[i];
        if kept.len() == 0 || position > kept[kept.len() - 1] {
            kept.push(position);
        }
        i = i + 1;
    }
    proof {
        assert(snapped@.take(i as int) =~= snapped@);
        lemma_increasing_run(snapped@);
    }
    if kept.len() > 0 && kept[0] > half_period {
        let mut grid: Vec<usize> = Vec::new();
        grid.push(0);
        grid.append(&mut kept);
        proof {
            let run = increasing_run(snapped@);
            assert(grid@ =~= seq![0usize] + run);
            assert forall|a: int, b: int| 0 <= a < b < grid@.len() implies grid@[a] < grid@[b] by {
                if a > 0 {
                    assert(run[a - 1] < run[b - 1]);
                } else if b > 1 {
                    assert(run[0] < run[b - 1]);
                }
            }
            assert forall|a: int| 0 <= a < grid@.len() implies #[trigger] grid@[a] == 0
                || snapped@.contains(grid@[a]) by {
                if a > 0 {
                    assert(grid@[a] == run[a - 1]);
                }
            }
        }
        grid
    } else {
        kept
    }
}

/// The spectral frames of one beat: those from `start` up to `end`, and the
/// attack, the frames from `start` up to `attack_end`.
#[derive(Clone, Copy, Debug, PartialEq, Eq, Structural)]
pub struct BeatFrames {
    pub start: usize,
    pub end: usize,
    pub attack_end: usize,
}

/// The frames of beat `i` of a grid over `frame_count` frames: from its
/// position to the next beat's (the last beat runs to the end), at least one
/// frame and within the track; its attack is the first third of them, at
/// least one frame.
pub open spec fn beat_frames_of(grid: Seq<usize>, frame_count: int, i: int) -> BeatFrames {
    let start = grid[i] as int;
    let next = if i + 1 < grid.len() {
        grid[i + 1] as int
    } else {
        frame_count
    };
    let widened = if next > start + 1 {
        next
    } else {
        start + 1
    };
    let end = if widened < frame_count {
        widened
    } else {
        frame_count
    };
    let third = (end - start) / 3;
    BeatFrames {
        start: start as usize,
        end: end as usize,
        attack_end: (start + if third > 1 {
            third
        } else {
            1
        }) as usize,
    }
}

/// The frames of every beat of a grid whose positions are frames of a track
/// of `frame_count` frames.
pub fn beat_frame_ranges(grid: &Vec<usize>, frame_count: usize) -> (ranges: Vec<BeatFrames>)
    requires
        forall|i: int| 0 <= i < grid@.len() ==> #[trigger] grid@[i] < frame_count,
    ensures
        ranges@.len() == grid@.len(),
        forall|i: int|
            0 <= i < grid@.len() ==> #[trigger] ranges@[i] == beat_frames_of(
                grid@,
                frame_count as int,
                i,
            ),
        forall|i: int|
            0 <= i < grid@.len() ==> #[trigger] ranges@[i].start < ranges@[i].attack_end
                <= ranges@[i].end <= frame_count,
{
    let mut ranges: Vec<BeatFrames> = Vec::new();
    let mut i: usize = 0;
    while i < grid.len()
        invariant
            i <= grid@.len(),
            ranges@.len() == i,
            forall|k: int| 0 <= k < grid@.len() ==> #[trigger] grid@[k] < frame_count,
            forall|k: int|
                0 <= k < i ==> #[trigger] ranges@[k] == beat_frames_of(
                    grid@,
                    frame_count as int,
                    k,
                ),
            forall|k: int|
                0 <= k < i ==> #[trigger] ranges@[k].start < ranges@[k].attack_end
                    <= ranges@[k].end <= frame_count,
        decreases grid@.len() - i,
    {
        let start = grid[i];
        let next = if i + 1 < grid.len() {
            grid[i + 1]
        } else {
            frame_count
        };
        let widened = if next > start + 1 {
            next
        } else {
            start + 1
        };
        let end = if widened < frame_count {
            widened
        } else {
            frame_count
        };
        let third = (end - start) / 3;
        let attack = if third > 1 {
            third
        } else {
            1
        };
        let range = BeatFrames { start, end, attack_end: start + attack };
        proof {
            assert(range == beat_frames_of(grid@, frame_count as int, i as int));
        }
        ranges.push(range);
        i = i + 1;
    }
    ranges
}

/// Beat `i` is the first audible beat.
pub open spec fn is_first_audible(audible: Seq<bool>, i: int) -> bool {
    &&& 0 <= i < audible.len()
    &&& audible[i]
    &&& forall|k: int| 0 <= k < i ==> !audible[k]
}

/// Beat `i` is the last audible beat.
pub open spec fn is_last_audible(audible: Seq<bool>, i: int) -> bool {
    &&& 0 <= i < audible.len()
    &&& audible[i]
    &&& forall|k: int| i < k < audible.len() ==> !audible[k]
}

/// Where the audible part of a track lies: the first and the last beat that
/// is audible, if any is.
pub open spec fn audible_span(audible: Seq<bool>) -> Option<(int, int)> {
    if exists|i: int| 0 <= i < audible.len() && audible[i] {
        Some(
            (
                choose|i: int| is_first_audible(audible, i),
                choose|i: int| is_last_audible(audible, i),
            ),
        )
    } else {
        None
    }
}

/// Trimming removes silent beats only, and only from the ends: every beat
/// outside the kept span is silent, the span starts and ends with audible
/// beats, and with no audible beat nothing is kept.
pub proof fn lemma_only_silent_ends_are_trimmed(audible: Seq<bool>)
    ensures
        match audible_span(audible) {
            None => forall|i: int| 0 <= i < audible.len() ==> !audible[i],
            Some((first, last)) => {
                &&& 0 <= first <= last < audible.len()
                &&& audible[first] && audible[last]
                &&& forall|i: int| 0 <= i < audible.len() && (i < first || i > last) ==> !audible[i]
            },
        },
{
    if exists|i: int| 0 <= i < audible.len() && audible[i] {
        let w = choose|i: int| 0 <= i < audible.len() && audible[i];
        lemma_first_audible_exists(audible, w);
        lemma_last_audible_exists(audible, w);
        let first = choose|i: int| is_first_audible(audible, i);
        let last = choose|i: int| is_last_audible(audible, i);
        assert(is_first_audible(audible, first));
        assert(is_last_audible(audible, last));
        assert(first <= last) by {
            if first > last {
                assert(!audible[first]);
            }
        }
    }
}

proof fn lemma_first_audible_exists(audible: Seq<bool>, w: int)
    requires
        0 <= w < audible.len(),
        audible[w],
    ensures
        exists|i: int| is_first_audible(audible, i),
    decreases w,
{
    if exists|k: int| 0 <= k < w && audible[k] {
        let k = choose|k: int| 0 <= k < w && audible[k];
        lemma_first_audible_exists(audible, k);
    } else {
        assert(is_first_audible(audible, w));
    }
}

proof fn lemma_last_audible_exists(audible: Seq<bool>, w: int)
    requires
        0 <= w < audible.len(),
        audible[w],
    ensures
        exists|i: int| is_last_audible(audible, i),
    decreases audible.len() - w,
{
    if exists|k: int| w < k < audible.len() && audible[k] {
        let k = choose|k: int| w < k < audible.len() && audible[k];
        lemma_last_audible_exists(audible, k);
    } else {
        assert(is_last_audible(audible, w));
    }
}

/// The first and the last audible beat, given which beats are audible.
pub fn audible_range(audible: &Vec<bool>) -> (range: Option<(usize, usize)>)
    ensures
        match range {
            None => forall|i: int| 0 <= i < audible@.len() ==> !audible@[i],
            Some((first, last)) => {
                &&& first <= last < audible@.len()
                &&& audible@[first as int] && audible@[last as int]
                &&& forall|k: int| 0 <= k < first ==> !audible@[k]
                &&& forall|k: int| last < k < audible@.len() ==> !audible@[k]
            },
        },
{
    let mut first: usize = 0;
    while first < audible.len() && !audible[first]
        invariant
            first <= audible@.len(),
            forall|k: int| 0 <= k < first ==> !audible@[k],
        decreases audible@.len() - first,
    {
        first = first + 1;
    }
    if first == audible.len() {
        return None;
    }
    let mut last: usize = audible.len() - 1;
    while !audible[last]
        invariant
            first <= last < audible@.len(),
            audible@[first as int],
            forall|k: int| last < k < audible@.len() ==> !audible@[k],
        decreases last,
    {
        last = last - 1;
    }
    Some((first, last))
}

/// Keeps the beats from the first audible one to the last, in order, with
/// the silent beats between them; with no audible beat, keeps none.
pub fn keep_audible<T>(beats: &mut Vec<T>, audible: &Vec<bool>)
    requires
        audible@.len() == old(beats)@.len(),
    ensures
        match audible_span(audible@) {
            None => final(beats)@.len() == 0,
            Some((first, last)) => final(beats)@ == old(beats)@.subrange(first, last + 1),
        },
{
    match audible_range(audible) {
        None => {
            beats.clear();
            proof {
                assert(!(exists|i: int| 0 <= i < audible@.len() && audible@[i]));
            }
        },
        Some((first, last)) => {
            proof {
                let f = first as int;
                let l = last as int;
                assert(is_first_audible(audible@, f));
                assert(is_last_audible(audible@, l));
                let (cf, cl) = audible_span(audible@)->0;
                assert(is_first_audible(audible@, cf));
                assert(is_last_audible(audible@, cl));
                assert(cf == f);
                assert(cl == l);
            }
            let ghost before = beats@;
            let count = beats.len();
            assert(last < count);
            beats.truncate(last + 1);
            let kept = beats.split_off(first);
            *beats = kept;
            proof {
                assert(beats@ =~= before.subrange(first as int, last + 1));
            }
        },
    }
}

} // verus!
