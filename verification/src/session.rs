//! Playback transport state: play, pause, toggle and stop commands, and the
//! session clock that counts only the time spent playing.
//!
//! Moments are nanoseconds on a monotonic timeline; durations are
//! nanoseconds as well and never exceed `MAX_DURATION_NANOS`.

use vstd::prelude::*;

verus! {

/// The longest representable duration, in nanoseconds.
pub const MAX_DURATION_NANOS: u128 = 18_446_744_073_709_551_615_999_999_999;

/// Time from `earlier` to `later`, or zero when `earlier` is the later one.
pub open spec fn time_between(later: int, earlier: int) -> int {
    if later > earlier {
        later - earlier
    } else {
        0
    }
}

/// `a - b`, or zero when `b` is larger.
pub open spec fn minus_or_zero(a: int, b: int) -> int {
    if a > b {
        a - b
    } else {
        0
    }
}

/// Session time that excludes pauses.
#[derive(Clone, Copy, Debug, PartialEq, Eq, Structural)]
pub struct SessionClock {
    /// When the session started.
    pub started: u128,
    /// When the current pause began, if the clock is paused.
    pub paused_at: Option<u128>,
    /// Total length of the completed pauses.
    pub paused_for: u128,
}

/// Length of the pause in progress at `now`.
pub open spec fn current_pause(clock: SessionClock, now: int) -> int {
    match clock.paused_at {
        Some(paused_at) => time_between(now, paused_at as int),
        None => 0,
    }
}

/// Playing time of the session at `now`: the time since the start, less the
/// completed pauses and the pause in progress.
pub open spec fn elapsed_of(clock: SessionClock, now: int) -> int {
    minus_or_zero(
        time_between(now, clock.started as int),
        clock.paused_for + current_pause(clock, now),
    )
}

/// Measuring at `now` stays within the representable durations.
pub open spec fn can_measure(clock: SessionClock, now: int) -> bool {
    clock.paused_for + current_pause(clock, now) <= MAX_DURATION_NANOS
}

/// Ending the pause in progress at `now` stays within the representable
/// durations.
pub open spec fn can_resume(clock: SessionClock, now: int) -> bool {
    match clock.paused_at {
        Some(paused_at) => clock.paused_for + time_between(now, paused_at as int)
            <= MAX_DURATION_NANOS,
        None => true,
    }
}

pub open spec fn paused_clock(clock: SessionClock, now: u128) -> SessionClock {
    match clock.paused_at {
        Some(_) => clock,
        None => SessionClock { paused_at: Some(now), ..clock },
    }
}

pub open spec fn resumed_clock(clock: SessionClock, now: u128) -> SessionClock {
    match clock.paused_at {
        Some(paused_at) => SessionClock {
            paused_at: None,
            paused_for: (clock.paused_for + time_between(now as int, paused_at as int)) as u128,
            ..clock
        },
        None => clock,
    }
}

fn saturating_gap(later: u128, earlier: u128) -> (gap: u128)
    ensures
        gap == time_between(later as int, earlier as int),
{
    if later > earlier {
        later - earlier
    } else {
        0
    }
}

impl SessionClock {
    /// A clock that starts running at `now`.
    pub fn new(now: u128) -> (clock: Self)
        ensures
            clock == (SessionClock { started: now, paused_at: None, paused_for: 0 }),
    {
        SessionClock { started: now, paused_at: None, paused_for: 0 }
    }

    /// Starts a pause at `now`, unless one is in progress.
    pub fn pause(&mut self, now: u128)
        ensures
            *final(self) == paused_clock(*old(self), now),
    {
        if self.paused_at.is_none() {
            self.paused_at = Some(now);
        }
    }

    /// Ends the pause in progress at `now`, adding its length to the completed
    /// pauses.
    pub fn resume(&mut self, now: u128)
        requires
            can_resume(*old(self), now as int),
        ensures
            *final(self) == resumed_clock(*old(self), now),
    {
        if let Some(paused_at) = self.paused_at {
            self.paused_at = None;
            self.paused_for = self.paused_for + saturating_gap(now, paused_at);
        }
    }

    /// Playing time of the session at `now`.
    pub fn elapsed_at(&self, now: u128) -> (elapsed: u128)
        requires
            can_measure(*self, now as int),
        ensures
            elapsed == elapsed_of(*self, now as int),
    {
        let pause = match self.paused_at {
            Some(paused_at) => saturating_gap(now, paused_at),
            None => 0,
        };
        let since_start = saturating_gap(now, self.started);
        let excluded = self.paused_for + pause;
        if since_start > excluded {
            since_start - excluded
        } else {
            0
        }
    }
}

/// Transport state of the player.
#[derive(Clone, Copy, Debug, PartialEq, Eq, Structural)]
pub enum PlaybackStatus {
    Playing,
    Paused,
    Stopped,
}

/// A transport command from the terminal or the desktop media controls.
#[derive(Clone, Copy, Debug, PartialEq, Eq, Structural)]
pub enum Command {
    Play,
    Pause,
    Toggle,
    Stop,
}

/// What the audio output must do after a command.
#[derive(Clone, Copy, Debug, PartialEq, Eq, Structural)]
pub enum AudioAction {
    Keep,
    Play,
    Pause,
}

/// The effect of a command: the audio action, and whether the stream must be
/// reset to its beginning.
#[derive(Clone, Copy, Debug, PartialEq, Eq, Structural)]
pub struct Transport {
    pub audio: AudioAction,
    pub reset: bool,
}

/// Transport status and session clock.
#[derive(Clone, Copy, Debug, PartialEq, Eq, Structural)]
pub struct Playback {
    pub status: PlaybackStatus,
    pub clock: SessionClock,
}

/// The status a command asks for; `None` when the command is ignored (a pause
/// never resumes or alters a stopped player).
pub open spec fn requested_status(status: PlaybackStatus, command: Command) -> Option<
    PlaybackStatus,
> {
    match command {
        Command::Pause => if status == PlaybackStatus::Stopped {
            None
        } else {
            Some(PlaybackStatus::Paused)
        },
        Command::Toggle => if status == PlaybackStatus::Playing {
            Some(PlaybackStatus::Paused)
        } else {
            Some(PlaybackStatus::Playing)
        },
        Command::Play => Some(PlaybackStatus::Playing),
        Command::Stop => Some(PlaybackStatus::Stopped),
    }
}

/// The command changes the status.
pub open spec fn changes_status(playback: Playback, command: Command) -> bool {
    match requested_status(playback.status, command) {
        Some(status) => status != playback.status,
        None => false,
    }
}

/// The playback after `command` at `now`, and its transport effect. Starting
/// to play resumes the clock; stopping restarts the clock, paused at its
/// start; pausing pauses it.
pub open spec fn apply_of(playback: Playback, command: Command, now: u128) -> (Playback, Transport) {
    if !changes_status(playback, command) {
        (playback, Transport { audio: AudioAction::Keep, reset: false })
    } else {
        let status = requested_status(playback.status, command).unwrap();
        if status == PlaybackStatus::Playing {
            (
                Playback { status, clock: resumed_clock(playback.clock, now) },
                Transport { audio: AudioAction::Play, reset: false },
            )
        } else if status == PlaybackStatus::Stopped {
            (
                Playback {
                    status,
                    clock: SessionClock { started: now, paused_at: Some(now), paused_for: 0 },
                },
                Transport { audio: AudioAction::Pause, reset: true },
            )
        } else {
            (
                Playback { status, clock: paused_clock(playback.clock, now) },
                Transport { audio: AudioAction::Pause, reset: false },
            )
        }
    }
}

/// Applying `command` at `now` stays within the representable durations.
pub open spec fn can_apply(playback: Playback, command: Command, now: u128) -> bool {
    changes_status(playback, command) && requested_status(playback.status, command)
        == Some(PlaybackStatus::Playing) ==> can_resume(playback.clock, now as int)
}

impl Playback {
    /// A session that starts playing at `now`.
    pub fn new(now: u128) -> (playback: Self)
        ensures
            playback == (Playback {
                status: PlaybackStatus::Playing,
                clock: SessionClock { started: now, paused_at: None, paused_for: 0 },
            }),
    {
        Playback { status: PlaybackStatus::Playing, clock: SessionClock::new(now) }
    }

    /// Playing time of the session at `now`.
    pub fn elapsed(&self, now: u128) -> (elapsed: u128)
        requires
            can_measure(self.clock, now as int),
        ensures
            elapsed == elapsed_of(self.clock, now as int),
    {
        self.clock.elapsed_at(now)
    }

    /// Applies a transport command at `now`. The returned `reset` is true
    /// exactly when the stream must restart from its beginning.
    pub fn apply(&mut self, command: Command, now: u128) -> (transport: Transport)
        requires
            can_apply(*old(self), command, now),
        ensures
            (*final(self), transport) == apply_of(*old(self), command, now),
    {
        let status = match command {
            Command::Pause => {
                if self.status == PlaybackStatus::Stopped {
                    return Transport { audio: AudioAction::Keep, reset: false };
                }
                PlaybackStatus::Paused
            },
            Command::Toggle => {
                if self.status == PlaybackStatus::Playing {
                    PlaybackStatus::Paused
                } else {
                    PlaybackStatus::Playing
                }
            },
            Command::Play => PlaybackStatus::Playing,
            Command::Stop => PlaybackStatus::Stopped,
        };
        if status == self.status {
            return Transport { audio: AudioAction::Keep, reset: false };
        }
        self.status = status;
        if status == PlaybackStatus::Playing {
            self.clock.resume(now);
            Transport { audio: AudioAction::Play, reset: false }
        } else {
            if status == PlaybackStatus::Stopped {
                self.clock = SessionClock::new(now);
                self.clock.paused_at = Some(self.clock.started);
            } else {
                self.clock.pause(now);
            }
            Transport { audio: AudioAction::Pause, reset: status == PlaybackStatus::Stopped }
        }
    }
}

/// Whether the audio output plays after `action`, given whether it played
/// before.
pub open spec fn audio_plays_after(playing: bool, action: AudioAction) -> bool {
    match action {
        AudioAction::Keep => playing,
        AudioAction::Play => true,
        AudioAction::Pause => false,
    }
}

/// The session clock stands still while paused: at any moment after the
/// pause began it reads what it read when the pause began.
pub proof fn lemma_clock_stands_still_while_paused(clock: SessionClock, later: int)
    requires
        clock.paused_at matches Some(paused_at) && paused_at <= later,
    ensures
        elapsed_of(clock, later) == elapsed_of(clock, clock.paused_at.unwrap() as int),
{
}

/// The clock advances only while running: between two readings at `t1` and
/// `t2` after its start, a paused clock (paused no later than `t1`) reads the
/// same, and a running clock that has not been held at zero by its pauses
/// advances by exactly `t2 - t1`.
pub proof fn lemma_clock_advances_only_while_running(clock: SessionClock, t1: int, t2: int)
    requires
        clock.started <= t1 <= t2,
        clock.paused_at matches Some(p) ==> p <= t1,
    ensures
        clock.paused_at is Some ==> elapsed_of(clock, t2) == elapsed_of(clock, t1),
        clock.paused_at is None && t1 - clock.started >= clock.paused_for ==> elapsed_of(clock, t2)
            == elapsed_of(clock, t1) + (t2 - t1),
{
}

/// Resuming ends the pause in progress and adds it to the completed pauses;
/// from then on the clock runs on from the reading at the moment of resuming,
/// provided that reading was not held at zero by the pauses.
pub proof fn lemma_resumed_clock_runs_on(clock: SessionClock, now: u128, later: int)
    requires
        clock.started <= now,
        clock.paused_at matches Some(p) ==> p <= now,
        now <= later,
        can_resume(clock, now as int),
        time_between(now as int, clock.started as int) >= clock.paused_for + current_pause(
            clock,
            now as int,
        ),
    ensures
        resumed_clock(clock, now).paused_at is None,
        resumed_clock(clock, now).started == clock.started,
        resumed_clock(clock, now).paused_for == clock.paused_for + current_pause(
            clock,
            now as int,
        ),
        elapsed_of(resumed_clock(clock, now), later) == elapsed_of(clock, now as int) + (later
            - now),
{
}

/// Pausing a playing player, by `Pause` or by `Toggle`, pauses it and starts
/// a pause of the clock at that moment: from then on the clock reads what it
/// read when paused, until play resumes.
pub proof fn lemma_pausing_stops_the_clock(
    playback: Playback,
    command: Command,
    now: u128,
    later: int,
)
    requires
        playback.status == PlaybackStatus::Playing,
        playback.clock.paused_at is None,
        command == Command::Pause || command == Command::Toggle,
        now <= later,
    ensures
        apply_of(playback, command, now).0.status == PlaybackStatus::Paused,
        apply_of(playback, command, now).0.clock.paused_at == Some(now),
        apply_of(playback, command, now).1 == (Transport { audio: AudioAction::Pause, reset: false }),
        elapsed_of(apply_of(playback, command, now).0.clock, later) == elapsed_of(
            playback.clock,
            now as int,
        ),
{
}

/// Completed pauses are excluded: pausing a running clock at `pause_at` and
/// resuming it at `resume_at` takes exactly the pause's length off the
/// playing time.
pub proof fn lemma_completed_pauses_are_excluded(
    clock: SessionClock,
    pause_at: u128,
    resume_at: u128,
    now: int,
)
    requires
        clock.paused_at is None,
        pause_at <= resume_at,
        can_resume(paused_clock(clock, pause_at), resume_at as int),
    ensures
        elapsed_of(resumed_clock(paused_clock(clock, pause_at), resume_at), now) == minus_or_zero(
            time_between(now, clock.started as int),
            clock.paused_for + (resume_at - pause_at),
        ),
{
}

/// Play, pause and stop are idempotent: issuing the same command again, at
/// any later moment, changes nothing and asks nothing of the audio output.
pub proof fn lemma_repeated_command_changes_nothing(
    playback: Playback,
    command: Command,
    now: u128,
    later: u128,
)
    requires
        command != Command::Toggle,
    ensures
        apply_of(apply_of(playback, command, now).0, command, later) == (
            apply_of(playback, command, now).0,
            Transport { audio: AudioAction::Keep, reset: false },
        ),
{
}

/// Stopping resets the stream and the clock: afterwards the clock reads zero
/// whenever it is read, and a pause leaves the stopped player untouched.
pub proof fn lemma_stop_resets_session(playback: Playback, now: u128, later: u128, read_at: int)
    requires
        playback.status != PlaybackStatus::Stopped,
    ensures
        apply_of(playback, Command::Stop, now).1 == (Transport {
            audio: AudioAction::Pause,
            reset: true,
        }),
        elapsed_of(apply_of(playback, Command::Stop, now).0.clock, read_at) == 0,
        apply_of(apply_of(playback, Command::Stop, now).0, Command::Pause, later) == (
            apply_of(playback, Command::Stop, now).0,
            Transport { audio: AudioAction::Keep, reset: false },
        ),
{
}

/// The audio output follows the status: if it was playing exactly when the
/// status was `Playing`, it still is after any command.
pub proof fn lemma_audio_follows_status(
    playback: Playback,
    command: Command,
    now: u128,
    playing: bool,
)
    requires
        playing == (playback.status == PlaybackStatus::Playing),
    ensures
        audio_plays_after(playing, apply_of(playback, command, now).1.audio) == (apply_of(
            playback,
            command,
            now,
        ).0.status == PlaybackStatus::Playing),
{
}

} // verus!
