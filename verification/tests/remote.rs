use eternal::remote::{ControlCommand, PropertyChange, Published, player_method, reported_position};
use eternal::session::PlaybackStatus;

#[test]
fn first_snapshot_announces_readiness_and_status() {
    let mut published = Published::new();
    assert!(!published.ready);
    assert_eq!(published.status, PlaybackStatus::Stopped);
    let changes = published.publish(PlaybackStatus::Playing, false);
    assert_eq!(
        changes,
        vec![
            PropertyChange::CanPlay,
            PropertyChange::CanPause,
            PropertyChange::Status(PlaybackStatus::Playing),
        ]
    );
    assert!(published.ready);
    assert_eq!(published.status, PlaybackStatus::Playing);
}

#[test]
fn republishing_the_same_state_announces_nothing() {
    let mut published = Published::new();
    published.publish(PlaybackStatus::Playing, false);
    assert!(published.publish(PlaybackStatus::Playing, false).is_empty());
    assert_eq!(
        published.publish(PlaybackStatus::Playing, true),
        vec![PropertyChange::Volume]
    );
    assert_eq!(
        published.publish(PlaybackStatus::Paused, true),
        vec![
            PropertyChange::Status(PlaybackStatus::Paused),
            PropertyChange::Volume,
        ]
    );
}

#[test]
fn a_stopped_first_snapshot_only_announces_readiness() {
    let mut published = Published::new();
    assert_eq!(
        published.publish(PlaybackStatus::Stopped, false),
        vec![PropertyChange::CanPlay, PropertyChange::CanPause]
    );
}

#[test]
fn position_advances_only_while_playing() {
    assert_eq!(reported_position(2_500_999, 1_000_000, true), 3_500);
    assert_eq!(reported_position(2_500_999, 1_000_000, false), 2_500);
    assert_eq!(reported_position(999, 0, true), 0);
}

#[test]
fn position_saturates_at_the_largest_time() {
    let huge: u128 = 18_446_744_073_709_551_615_999_999_999;
    assert_eq!(reported_position(huge, 0, false), i64::MAX);
    assert_eq!(reported_position(huge, u128::MAX, false), i64::MAX);
}

#[test]
fn control_commands_call_the_player_methods() {
    assert_eq!(player_method(ControlCommand::Play), Some("Play"));
    assert_eq!(player_method(ControlCommand::Pause), Some("Pause"));
    assert_eq!(player_method(ControlCommand::Toggle), Some("PlayPause"));
    assert_eq!(player_method(ControlCommand::Status), None);
}
