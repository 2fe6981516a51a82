use eternal::session::{AudioAction, Command, Playback, PlaybackStatus, SessionClock};

const SECOND: u128 = 1_000_000_000;

/// A moment well after the start of the timeline.
const EPOCH: u128 = 1_000 * SECOND;

#[test]
fn session_clock_does_not_advance_while_paused() {
    let started = EPOCH;
    let clock = SessionClock {
        started,
        paused_at: Some(started + 5 * SECOND),
        paused_for: 0,
    };
    assert_eq!(clock.elapsed_at(started + 20 * SECOND), 5 * SECOND);
}

#[test]
fn session_clock_excludes_completed_pauses() {
    let started = EPOCH;
    let clock = SessionClock {
        started,
        paused_at: None,
        paused_for: 7 * SECOND,
    };
    assert_eq!(clock.elapsed_at(started + 20 * SECOND), 13 * SECOND);
}

/// Tracks whether the audio output plays, as the transport actions drive it.
fn drive(playing: &mut bool, action: AudioAction) {
    match action {
        AudioAction::Keep => {}
        AudioAction::Play => *playing = true,
        AudioAction::Pause => *playing = false,
    }
}

#[test]
fn pause_and_play_are_idempotent_and_update_audio_and_clock() {
    let mut playing = true;
    let mut now = EPOCH;
    let mut playback = Playback::new(now);
    now += SECOND;
    drive(&mut playing, playback.apply(Command::Pause, now).audio);
    let paused_at = playback.clock.paused_at;
    let elapsed = playback.elapsed(now);
    now += SECOND;
    drive(&mut playing, playback.apply(Command::Pause, now).audio);
    assert!(!playing);
    assert_eq!(playback.status, PlaybackStatus::Paused);
    assert_eq!(playback.clock.paused_at, paused_at);
    assert_eq!(playback.elapsed(now), elapsed);
    now += SECOND;
    drive(&mut playing, playback.apply(Command::Play, now).audio);
    let paused_for = playback.clock.paused_for;
    now += SECOND;
    drive(&mut playing, playback.apply(Command::Play, now).audio);
    assert!(playing);
    assert_eq!(playback.status, PlaybackStatus::Playing);
    assert_eq!(playback.clock.paused_for, paused_for);
    drive(&mut playing, playback.apply(Command::Toggle, now).audio);
    assert!(!playing);
    drive(&mut playing, playback.apply(Command::Toggle, now).audio);
    assert!(playing);
}

#[test]
fn stop_resets_clock_and_pause_does_not_resume_a_stopped_player() {
    let mut playing = true;
    let mut now = EPOCH;
    let mut playback = Playback::new(now);
    now += 3 * SECOND;
    let transport = playback.apply(Command::Stop, now);
    drive(&mut playing, transport.audio);
    assert!(transport.reset);
    assert_eq!(playback.elapsed(now), 0);
    assert!(!playback.apply(Command::Stop, now).reset);
    now += SECOND;
    drive(&mut playing, playback.apply(Command::Pause, now).audio);
    assert_eq!(playback.status, PlaybackStatus::Stopped);
    assert!(!playing);
    drive(&mut playing, playback.apply(Command::Play, now).audio);
    assert!(playing);
}

#[test]
fn resuming_adds_the_pause_to_completed_pauses() {
    let mut clock = SessionClock::new(EPOCH);
    clock.pause(EPOCH + 4 * SECOND);
    clock.pause(EPOCH + 6 * SECOND);
    assert_eq!(clock.paused_at, Some(EPOCH + 4 * SECOND));
    clock.resume(EPOCH + 9 * SECOND);
    assert_eq!(clock.paused_at, None);
    assert_eq!(clock.paused_for, 5 * SECOND);
    assert_eq!(clock.elapsed_at(EPOCH + 12 * SECOND), 7 * SECOND);
    clock.resume(EPOCH + 20 * SECOND);
    assert_eq!(clock.paused_for, 5 * SECOND);
}

#[test]
fn clock_reads_zero_before_its_start() {
    let clock = SessionClock::new(EPOCH);
    assert_eq!(clock.elapsed_at(EPOCH - SECOND), 0);
    let clock = SessionClock {
        started: EPOCH,
        paused_at: None,
        paused_for: 30 * SECOND,
    };
    assert_eq!(clock.elapsed_at(EPOCH + 10 * SECOND), 0);
}

#[test]
fn toggle_from_stopped_plays_and_resumes_the_clock() {
    let mut playback = Playback::new(EPOCH);
    playback.apply(Command::Stop, EPOCH + SECOND);
    let transport = playback.apply(Command::Toggle, EPOCH + 3 * SECOND);
    assert_eq!(transport.audio, AudioAction::Play);
    assert!(!transport.reset);
    assert_eq!(playback.status, PlaybackStatus::Playing);
    assert_eq!(playback.clock.paused_for, 2 * SECOND);
    assert_eq!(playback.elapsed(EPOCH + 10 * SECOND), 7 * SECOND);
}

#[test]
fn resumed_clock_runs_on_from_its_reading() {
    let mut clock = SessionClock::new(10);
    assert_eq!(clock.elapsed_at(20), 10);
    assert_eq!(clock.elapsed_at(35), 25);
    clock.pause(40);
    assert_eq!(clock.elapsed_at(40), 30);
    assert_eq!(clock.elapsed_at(100), 30);
    clock.resume(100);
    assert_eq!(clock.paused_at, None);
    assert_eq!(clock.paused_for, 60);
    assert_eq!(clock.elapsed_at(120), 50);
}
