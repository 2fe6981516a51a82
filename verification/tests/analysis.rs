use eternal::analysis::{
    AnalysisError, BeatFrames, audible_range, beat_frame_ranges, beat_grid, frame_layout_is_valid,
    keep_audible,
};

#[test]
fn frame_layouts_need_power_of_two_frames_and_a_hop() {
    assert!(frame_layout_is_valid(2_048, 512));
    assert!(frame_layout_is_valid(64, 1));
    assert!(!frame_layout_is_valid(32, 8));
    assert!(!frame_layout_is_valid(2_000, 512));
    assert!(!frame_layout_is_valid(2_048, 0));
    assert!(!frame_layout_is_valid(0, 512));
}

#[test]
fn analysis_errors_describe_themselves() {
    assert_eq!(
        AnalysisError::TooShort.message(),
        "audio is too short; at least two seconds are required"
    );
    assert_eq!(
        AnalysisError::InvalidConfig.message(),
        "invalid analysis configuration"
    );
    assert_eq!(
        AnalysisError::Fft("bad length".to_string()).message(),
        "FFT failed: bad length"
    );
}

#[test]
fn beat_grid_keeps_increasing_snaps() {
    // A snap that does not move past the previous beat is dropped.
    assert_eq!(beat_grid(&vec![3, 14, 14, 12, 24, 35], 5), vec![3, 14, 24, 35]);
    assert_eq!(beat_grid(&vec![], 5), Vec::<usize>::new());
}

#[test]
fn beat_grid_adds_a_beat_at_zero_after_a_late_start() {
    // Half of a 10.5-frame period rounds down to 5 frames.
    assert_eq!(beat_grid(&vec![6, 16], 5), vec![0, 6, 16]);
    assert_eq!(beat_grid(&vec![5, 16], 5), vec![5, 16]);
    assert_eq!(beat_grid(&vec![0, 16], 0), vec![0, 16]);
}

#[test]
fn beats_cover_the_frames_up_to_the_next_beat() {
    let ranges = beat_frame_ranges(&vec![0, 9, 10, 19], 20);
    assert_eq!(
        ranges,
        vec![
            BeatFrames { start: 0, end: 9, attack_end: 3 },
            BeatFrames { start: 9, end: 10, attack_end: 10 },
            BeatFrames { start: 10, end: 19, attack_end: 13 },
            BeatFrames { start: 19, end: 20, attack_end: 20 },
        ]
    );
    // A repeated position still covers one frame.
    let ranges = beat_frame_ranges(&vec![4, 4], 8);
    assert_eq!(ranges[0], BeatFrames { start: 4, end: 5, attack_end: 5 });
    assert_eq!(ranges[1], BeatFrames { start: 4, end: 8, attack_end: 5 });
}

#[test]
fn audible_range_spans_first_to_last_audible_beat() {
    assert_eq!(
        audible_range(&vec![false, false, true, false, true, false]),
        Some((2, 4))
    );
    assert_eq!(audible_range(&vec![true]), Some((0, 0)));
    assert_eq!(audible_range(&vec![false, false]), None);
    assert_eq!(audible_range(&vec![]), None);
}

#[test]
fn silent_beats_are_trimmed_only_from_track_boundaries() {
    let loudness = [-180.0f32, -70.0, -12.0, -80.0, -18.0, -75.0];
    // A beat is audible above the peak loudness less 40 dB, but never at or
    // below -60 dB.
    let peak = loudness.iter().copied().fold(f32::NEG_INFINITY, f32::max);
    let threshold = (peak - 40.0).max(-60.0);
    let audible: Vec<bool> = loudness.iter().map(|value| *value > threshold).collect();
    let mut beats: Vec<(usize, f64, f32)> = loudness
        .into_iter()
        .enumerate()
        .map(|(index, loudness_db)| (index, index as f64, loudness_db))
        .collect();

    keep_audible(&mut beats, &audible);
    for (index, beat) in beats.iter_mut().enumerate() {
        beat.0 = index;
    }

    assert_eq!(beats.len(), 3);
    assert!((beats[0].1 - 2.0).abs() < f64::EPSILON);
    assert!((beats[1].2 - -80.0).abs() < f32::EPSILON);
    assert!((beats[2].1 - 4.0).abs() < f64::EPSILON);
    assert_eq!(
        beats.iter().map(|beat| beat.0).collect::<Vec<_>>(),
        vec![0, 1, 2]
    );
}

#[test]
fn a_track_without_audible_beats_keeps_none() {
    let mut beats = vec![1, 2, 3];
    keep_audible(&mut beats, &vec![false, false, false]);
    assert!(beats.is_empty());
}
