use eternal::dashboard::{
    HISTORY_LENGTH, QueuedBeat, Timeline, clock_fields, decimal_width, fitting_count,
    jump_direction, stitch_layout,
};
use eternal::planner::Step;

fn beat(beat: usize, jumped_from: Option<usize>) -> QueuedBeat<f32> {
    QueuedBeat {
        step: Step { beat, jumped_from },
        detail: 0.5,
    }
}

#[test]
fn jump_directions_are_named() {
    assert_eq!(jump_direction(10, 3), "backward");
    assert_eq!(jump_direction(3, 10), "forward");
    assert_eq!(jump_direction(4, 4), "forward");
}

#[test]
fn finished_beats_move_to_history_and_count_jumps() {
    let mut timeline: Timeline<f32> = Timeline::new();
    timeline.enqueue(beat(0, None));
    timeline.enqueue(beat(1, None));
    timeline.enqueue(beat(7, Some(1)));
    timeline.enqueue(beat(8, None));
    timeline.settle(2);
    assert_eq!(timeline.queue.len(), 2);
    assert_eq!(timeline.queue[0].step.beat, 7);
    assert_eq!(timeline.live.map(|item| item.step.beat), Some(7));
    assert_eq!(
        timeline.history.iter().map(|item| item.step.beat).collect::<Vec<_>>(),
        vec![1, 0]
    );
    assert_eq!(timeline.jump_count, 0);
    timeline.settle(0);
    assert_eq!(timeline.queue.len(), 1);
    assert_eq!(timeline.jump_count, 1);
    assert_eq!(timeline.live.map(|item| item.step.beat), Some(8));
    assert_eq!(
        timeline.history.iter().map(|item| item.step.beat).collect::<Vec<_>>(),
        vec![7, 1, 0]
    );
}

#[test]
fn first_queued_beat_becomes_audible() {
    let mut timeline: Timeline<f32> = Timeline::new();
    timeline.settle(0);
    assert!(timeline.live.is_none());
    timeline.enqueue(beat(3, None));
    timeline.settle(5);
    assert_eq!(timeline.live.map(|item| item.step.beat), Some(3));
    assert_eq!(timeline.queue.len(), 1);
}

#[test]
fn history_keeps_the_most_recent_beats() {
    let mut timeline: Timeline<f32> = Timeline::new();
    for index in 0..HISTORY_LENGTH + 10 {
        timeline.enqueue(beat(index, None));
    }
    timeline.settle(1);
    assert_eq!(timeline.history.len(), HISTORY_LENGTH);
    assert_eq!(timeline.history[0].step.beat, HISTORY_LENGTH + 8);
    assert_eq!(timeline.queue.len(), 1);
    assert_eq!(timeline.live.map(|item| item.step.beat), Some(HISTORY_LENGTH + 9));
}

#[test]
fn decimal_widths_count_digits() {
    assert_eq!(decimal_width(0), 1);
    assert_eq!(decimal_width(9), 1);
    assert_eq!(decimal_width(10), 2);
    assert_eq!(decimal_width(499), 3);
    assert_eq!(decimal_width(12_345), 5);
    assert_eq!(decimal_width(usize::MAX), usize::MAX.to_string().len());
}

#[test]
fn stitch_line_is_centred_with_equal_sides() {
    let layout = stitch_layout(2, 80, 500);
    assert_eq!(layout.number_width, 3);
    assert_eq!(layout.marker_width, 5);
    // Four fifths of 80 is 64, narrowed to 63 for equal sides of 29.
    assert_eq!(layout.side_width, 29);
    assert_eq!(layout.history_x, 10);
    assert_eq!(layout.live_x, 39);
    assert_eq!(layout.queue_x, 44);
}

#[test]
fn stitch_marker_never_exceeds_the_panel() {
    let layout = stitch_layout(7, 3, 1_000);
    assert_eq!(layout.number_width, 3);
    assert_eq!(layout.marker_width, 3);
    assert_eq!(layout.side_width, 0);
    assert_eq!((layout.history_x, layout.live_x, layout.queue_x), (7, 7, 10));
    let layout = stitch_layout(0, 0, 0);
    assert_eq!(layout.number_width, 1);
    assert_eq!((layout.marker_width, layout.side_width, layout.history_x), (0, 0, 0));
}

#[test]
fn stitch_width_saturates_on_very_wide_panels() {
    let layout = stitch_layout(0, u16::MAX, 10);
    assert_eq!(layout.marker_width, 3);
    assert_eq!(layout.side_width, 6_552);
    assert_eq!(layout.history_x, 26_214);
}

#[test]
fn items_fit_while_their_widths_add_up() {
    assert_eq!(fitting_count(&vec![4, 3, 3, 3], 10), 3);
    assert_eq!(fitting_count(&vec![4, 3, 3, 3], 13), 4);
    assert_eq!(fitting_count(&vec![4, 3, 3, 3], 3), 0);
    assert_eq!(fitting_count(&vec![], 5), 0);
    assert_eq!(fitting_count(&vec![usize::MAX, 1], usize::MAX), 1);
}

#[test]
fn session_length_splits_into_clock_fields() {
    assert_eq!(clock_fields(0), (0, 0, 0));
    assert_eq!(clock_fields(59), (0, 0, 59));
    assert_eq!(clock_fields(3_725), (1, 2, 5));
    assert_eq!(clock_fields(90_061), (25, 1, 1));
}
