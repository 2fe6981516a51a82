use eternal::slicing::{BeatWindow, FADE_MILLISECONDS, beat_window};

/// Frame index of a time in seconds, as the player rounds it.
fn frame(seconds: f64, sample_rate: u32) -> usize {
    (seconds * f64::from(sample_rate)).round() as usize
}

/// The beat between `start` and `start + duration` seconds with its edges
/// faded as requested, computed sample by sample from the window.
fn stream(samples: &[f32], window: &BeatWindow, fade_in: bool, fade_out: bool) -> Vec<f32> {
    let divisor = window.fade_divisor() as f32;
    (window.start..window.end)
        .map(|position| {
            let mut sample = samples[position];
            let (gain_in, gain_out) = window.fade_numerators(position, fade_in, fade_out);
            if let Some(numerator) = gain_in {
                sample *= numerator as f32 / divisor;
            }
            if let Some(numerator) = gain_out {
                sample *= numerator as f32 / divisor;
            }
            sample
        })
        .collect()
}

/// The same beat, cut out whole and then faded frame by frame from both ends.
fn materialise(samples: &[f32], window: &BeatWindow, fade_in: bool, fade_out: bool) -> Vec<f32> {
    let channels = window.channels;
    let mut beat = samples[window.start..window.end].to_vec();
    let fade_frames = window.fade_frames;
    for frame in 0..fade_frames {
        let gain = frame as f32 / window.fade_divisor() as f32;
        for channel in 0..channels {
            if fade_in {
                beat[frame * channels + channel] *= gain;
            }
            if fade_out {
                let end = beat.len() - (frame + 1) * channels + channel;
                beat[end] *= gain;
            }
        }
    }
    beat
}

fn window_for(samples: usize, start: f64, duration: f64) -> BeatWindow {
    beat_window(frame(start, 1_000), frame(start + duration, 1_000), samples, 2, 1_000)
}

#[test]
fn extracts_interleaved_beat_and_fades_edges() {
    let audio = vec![1.0f32; 200];
    let window = window_for(audio.len(), 0.01, 0.05);
    let samples = stream(&audio, &window, true, true);
    assert_eq!(samples.len(), 100);
    assert!(samples[0].abs() < f32::EPSILON);
    assert!(samples[99].abs() < f32::EPSILON);
    assert!((samples[50] - 1.0).abs() < f32::EPSILON);
}

#[test]
fn sequential_beats_are_not_faded() {
    let audio = vec![1.0f32; 200];
    let window = window_for(audio.len(), 0.01, 0.05);
    let samples = stream(&audio, &window, false, false);
    assert!(
        samples
            .iter()
            .all(|sample| (*sample - 1.0).abs() < f32::EPSILON)
    );
}

#[test]
fn shared_source_matches_materialised_samples() {
    let audio: Vec<f32> = (0..400).map(|sample| sample as f32 / 400.0).collect();
    let window = window_for(audio.len(), 0.01, 0.05);
    for (fade_in, fade_out) in [(false, false), (true, false), (false, true), (true, true)] {
        let expected = materialise(&audio, &window, fade_in, fade_out);
        let actual = stream(&audio, &window, fade_in, fade_out);
        assert_eq!(actual, expected);
    }
}

#[test]
fn window_covers_whole_frames_and_fades_two_milliseconds() {
    assert_eq!(FADE_MILLISECONDS, 2);
    let window = beat_window(10, 60, 200, 2, 1_000);
    assert_eq!((window.start, window.end, window.channels), (20, 120, 2));
    assert_eq!(window.fade_frames, 2);
    assert_eq!(window.frame_count(), 50);
    assert_eq!(window.fade_divisor(), 2);
    assert_eq!(window.remaining(20), 100);
    assert_eq!(window.remaining(119), 1);
    assert_eq!(window.remaining(120), 0);
    assert_eq!(window.remaining(500), 0);
}

#[test]
fn window_is_clamped_to_the_audio() {
    // The end lies past the audio: it stops at the last whole frame.
    let window = beat_window(90, 130, 201, 2, 1_000);
    assert_eq!((window.start, window.end), (180, 200));
    assert_eq!(window.fade_frames, 2);
    // The start lies past the audio: the window is empty.
    let window = beat_window(150, 170, 200, 2, 1_000);
    assert_eq!((window.start, window.end, window.fade_frames), (200, 200, 0));
    assert_eq!(window.fade_divisor(), 1);
    // The end lies before the start: the window is empty.
    let window = beat_window(40, 30, 200, 2, 1_000);
    assert_eq!((window.start, window.end), (80, 80));
}

#[test]
fn short_beats_fade_at_most_half_each() {
    // 44.1 kHz fades 88 frames, but a beat of 101 frames allows only 50.
    let window = beat_window(0, 101, 1_000, 1, 44_100);
    assert_eq!(window.fade_frames, 50);
    let window = beat_window(0, 1_000, 1_000, 1, 44_100);
    assert_eq!(window.fade_frames, 88);
}

#[test]
fn fade_numerators_ramp_in_and_out() {
    let window = beat_window(0, 10, 10, 1, 2_000);
    assert_eq!(window.fade_frames, 4);
    let gains: Vec<(Option<usize>, Option<usize>)> = (0..10)
        .map(|position| window.fade_numerators(position, true, true))
        .collect();
    assert_eq!(gains[0], (Some(0), None));
    assert_eq!(gains[3], (Some(3), None));
    assert_eq!(gains[4], (None, None));
    assert_eq!(gains[5], (None, None));
    assert_eq!(gains[6], (None, Some(3)));
    assert_eq!(gains[9], (None, Some(0)));
    // The fade-out mirrors the fade-in.
    for k in 0..10 {
        assert_eq!(gains[9 - k].1, gains[k].0);
    }
    assert_eq!(window.fade_numerators(0, false, true), (None, None));
    assert_eq!(window.fade_numerators(9, true, false), (None, None));
}
