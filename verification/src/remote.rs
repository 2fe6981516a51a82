//! What the desktop media controls are told about the player: which
//! properties a newly published state changes, and the position they read.
//!
//! The controls read a snapshot of the player; publishing a new one announces
//! the properties that differ from the previous snapshot. Until the first
//! snapshot the player reports that it can neither play nor pause.

use vstd::prelude::*;
use crate::session::{MAX_DURATION_NANOS, PlaybackStatus};

verus! {

/// A property announced as changed.
#[derive(Clone, Copy, Debug, PartialEq, Eq, Structural)]
pub enum PropertyChange {
    /// The player can now play.
    CanPlay,
    /// The player can now pause.
    CanPause,
    /// The playback status, with its new value.
    Status(PlaybackStatus),
    /// The volume.
    Volume,
}

/// The last snapshot the controls were given.
#[derive(Clone, Copy, Debug, PartialEq, Eq, Structural)]
pub struct Published {
    /// Whether any snapshot was published yet.
    pub ready: bool,
    /// The playback status last published.
    pub status: PlaybackStatus,
}

/// The changes announced when a snapshot with `status` follows `before`:
/// readiness the first time, then the status where it differs, then the
/// volume where it differs.
pub open spec fn changes_between(
    before: Published,
    status: PlaybackStatus,
    volume_changed: bool,
) -> Seq<PropertyChange> {
    let readiness = if before.ready {
        Seq::empty()
    } else {
        seq![PropertyChange::CanPlay, PropertyChange::CanPause]
    };
    let with_status = if before.status != status {
        readiness.push(PropertyChange::Status(status))
    } else {
        readiness
    };
    if volume_changed {
        with_status.push(PropertyChange::Volume)
    } else {
        with_status
    }
}

impl Published {
    /// Nothing published yet: not ready, and stopped.
    pub fn new() -> (published: Self)
        ensures
            !published.ready,
            published.status == PlaybackStatus::Stopped,
    {
        Published { ready: false, status: PlaybackStatus::Stopped }
    }

    /// Publishes a snapshot with `status`, where `volume_changed` tells
    /// whether its volume differs from the last one published, and returns
    /// the changes to announce.
    pub fn publish(&mut self, status: PlaybackStatus, volume_changed: bool) -> (changes: Vec<
        PropertyChange,
    >)
        ensures
            changes@ == changes_between(*old(self), status, volume_changed),
            final(self).ready,
            final(self).status == status,
    {
        let mut changes: Vec<PropertyChange> = Vec::new();
        if !self.ready {
            changes.push(PropertyChange::CanPlay);
            changes.push(PropertyChange::CanPause);
        }
        if self.status != status {
            changes.push(PropertyChange::Status(status));
        }
        if volume_changed {
            changes.push(PropertyChange::Volume);
        }
        self.ready = true;
        self.status = status;
        proof {
            assert(changes@ =~= changes_between(*old(self), status, volume_changed));
        }
        changes
    }
}

/// A status change is always announced, with the new status, and only a
/// change is: on every snapshot, for every status, `Status(status)` is among
/// the changes exactly when `status` differs from the last one published, and
/// no other status is ever announced. Readiness is announced exactly on the
/// first snapshot, and the volume exactly when it changed.
pub proof fn lemma_status_changes_are_announced(
    before: Published,
    status: PlaybackStatus,
    volume_changed: bool,
)
    ensures
        changes_between(before, status, volume_changed).contains(PropertyChange::Status(status))
            <==> before.status != status,
        forall|other: PlaybackStatus|
            other != status ==> !changes_between(before, status, volume_changed).contains(
                PropertyChange::Status(other),
            ),
        changes_between(before, status, volume_changed).contains(PropertyChange::CanPlay)
            <==> !before.ready,
        changes_between(before, status, volume_changed).contains(PropertyChange::Volume)
            <==> volume_changed,
{
    let changes = changes_between(before, status, volume_changed);
    let readiness = if before.ready {
        Seq::<PropertyChange>::empty()
    } else {
        seq![PropertyChange::CanPlay, PropertyChange::CanPause]
    };
    if before.status != status {
        let with_status = readiness.push(PropertyChange::Status(status));
        assert(with_status[with_status.len() - 1] == PropertyChange::Status(status));
        assert(changes[with_status.len() - 1] == PropertyChange::Status(status));
    }
    if !before.ready {
        assert(changes[0] == PropertyChange::CanPlay);
    }
    if volume_changed {
        assert(changes[changes.len() - 1] == PropertyChange::Volume);
    }
}

/// Publishing the state already published, at the same volume, announces
/// nothing.
pub proof fn lemma_republishing_announces_nothing(published: Published, status: PlaybackStatus)
    requires
        published.ready,
        published.status == status,
    ensures
        changes_between(published, status, false).len() == 0,
{
}

/// The first snapshot announces that the player can play and pause, and
/// announces any other change after that.
pub proof fn lemma_first_snapshot_announces_readiness(
    status: PlaybackStatus,
    volume_changed: bool,
)
    ensures
        ({
            let changes = changes_between(
                Published { ready: false, status: PlaybackStatus::Stopped },
                status,
                volume_changed,
            );
            &&& changes.len() >= 2
            &&& changes[0] == PropertyChange::CanPlay
            &&& changes[1] == PropertyChange::CanPause
            &&& changes.contains(PropertyChange::Status(status)) <==> status
                != PlaybackStatus::Stopped
        }),
{
    let changes = changes_between(
        Published { ready: false, status: PlaybackStatus::Stopped },
        status,
        volume_changed,
    );
    if status != PlaybackStatus::Stopped {
        assert(changes[2] == PropertyChange::Status(status));
    } else {
        assert forall|i: int| 0 <= i < changes.len() implies changes[i]
            != PropertyChange::Status(status) by {}
    }
}

/// The position the controls read, in whole microseconds (at most
/// `i64::MAX`): the published position, plus the time since it was published
/// while the player is playing.
pub fn reported_position(position: u128, since_published: u128, playing: bool) -> (micros: i64)
    requires
        position + (if playing {
            since_published
        } else {
            0
        }) <= MAX_DURATION_NANOS,
    ensures
        ({
            let total = position + if playing {
                since_published as int
            } else {
                0
            };
            micros == if total / 1000 <= i64::MAX {
                total / 1000
            } else {
                i64::MAX as int
            }
        }),
{
    let total = if playing {
        position + since_published
    } else {
        position
    };
    let whole = total / 1000;
    if whole <= i64::MAX as u128 {
        whole as i64
    } else {
        i64::MAX
    }
}

/// A command sent from the command line to a running player.
#[derive(Clone, Copy, Debug, PartialEq, Eq, Structural)]
pub enum ControlCommand {
    /// Resume playback.
    Play,
    /// Pause playback.
    Pause,
    /// Toggle between playing and paused.
    Toggle,
    /// Ask for the playback status.
    Status,
}

/// The player method that carries out a command; `None` for the status
/// query, which reads properties instead.
pub fn player_method(command: ControlCommand) -> (method: Option<&'static str>)
    ensures
        match command {
            ControlCommand::Play => method matches Some(name) && name@ == "Play"@,
            ControlCommand::Pause => method matches Some(name) && name@ == "Pause"@,
            ControlCommand::Toggle => method matches Some(name) && name@ == "PlayPause"@,
            ControlCommand::Status => method is None,
        },
{
    match command {
        ControlCommand::Play => Some("Play"),
        ControlCommand::Pause => Some("Pause"),
        ControlCommand::Toggle => Some("PlayPause"),
        ControlCommand::Status => None,
    }
}

} // verus!
