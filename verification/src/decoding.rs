//! The decisions made while an audio file is decoded packet by packet: which
//! packets contribute samples, which are skipped, and when decoding fails.
//!
//! Reading packets and decoding them is the caller's work; it reports what
//! each packet turned out to be and performs the action it is given back.

use vstd::prelude::*;

verus! {

/// The sample rate and channel layout (a mask with one bit per channel) of
/// decoded audio.
#[derive(Clone, Copy, Debug, PartialEq, Eq, Structural)]
pub struct SignalSpec {
    pub rate: u32,
    pub channel_mask: u32,
}

/// What became of one packet of the file.
#[derive(Clone, Copy, Debug, PartialEq, Eq, Structural)]
pub enum Packet {
    /// The packet belongs to another track of the file.
    OtherTrack,
    /// The packet held corrupt data that the decoder could skip.
    Corrupt,
    /// The decoder failed for another reason.
    Failed,
    /// The packet decoded to samples in this format.
    Decoded(SignalSpec),
}

/// What to do with a packet.
#[derive(Clone, Copy, Debug, PartialEq, Eq, Structural)]
pub enum Action {
    /// Ignore the packet and read the next one.
    Skip,
    /// Append the decoded samples and read the next packet.
    Append,
    /// Stop: the decoder failed.
    FailDecoder,
    /// Stop: the format differs from that of the earlier packets.
    FailFormatChanged,
}

/// The format of the samples decoded so far, if any were.
#[derive(Clone, Copy, Debug, PartialEq, Eq, Structural)]
pub struct Decoding {
    pub spec: Option<SignalSpec>,
}

/// The action for `packet` after decoding with `decoding`, and the state
/// after it.
pub open spec fn step_of(decoding: Decoding, packet: Packet) -> (Action, Decoding) {
    match packet {
        Packet::OtherTrack => (Action::Skip, decoding),
        Packet::Corrupt => (Action::Skip, decoding),
        Packet::Failed => (Action::FailDecoder, decoding),
        Packet::Decoded(spec) => match decoding.spec {
            Some(previous) => if previous == spec {
                (Action::Append, decoding)
            } else {
                (Action::FailFormatChanged, decoding)
            },
            None => (Action::Append, Decoding { spec: Some(spec) }),
        },
    }
}

impl Decoding {
    /// Nothing decoded yet.
    pub fn new() -> (decoding: Self)
        ensures
            decoding.spec is None,
    {
        Decoding { spec: None }
    }

    /// Decides what to do with the next packet: packets of other tracks and
    /// corrupt packets are skipped, any other decoder failure stops decoding,
    /// and decoded samples are appended as long as their format is that of
    /// the first decoded packet; a different format stops decoding.
    pub fn accept(&mut self, packet: Packet) -> (action: Action)
        ensures
            (action, *final(self)) == step_of(*old(self), packet),
    {
        match packet {
            Packet::OtherTrack => Action::Skip,
            Packet::Corrupt => Action::Skip,
            Packet::Failed => Action::FailDecoder,
            Packet::Decoded(spec) => match self.spec {
                Some(previous) => {
                    if previous == spec {
                        Action::Append
                    } else {
                        Action::FailFormatChanged
                    }
                },
                None => {
                    self.spec = Some(spec);
                    Action::Append
                },
            },
        }
    }

    /// The format of the decoded audio once the file is read to its end;
    /// `None` when no packet decoded, which leaves the format unknown.
    pub fn finish(&self) -> (spec: Option<SignalSpec>)
        ensures
            spec == self.spec,
    {
        self.spec
    }
}

/// What each kind of packet does, in every decoding state: a decoder failure
/// other than corrupt data always stops decoding; packets of other tracks and
/// corrupt packets are always skipped and change nothing; samples are only
/// ever appended for a decoded packet, and the first one always is.
pub proof fn lemma_packet_outcomes(decoding: Decoding, packet: Packet)
    ensures
        packet == Packet::Failed ==> step_of(decoding, packet) == (Action::FailDecoder, decoding),
        packet == Packet::OtherTrack || packet == Packet::Corrupt ==> step_of(decoding, packet)
            == (Action::Skip, decoding),
        step_of(decoding, packet).0 == Action::Append ==> packet is Decoded,
        step_of(decoding, packet).0 == Action::FailFormatChanged ==> packet is Decoded
            && decoding.spec is Some && packet != Packet::Decoded(decoding.spec.unwrap()),
        forall|spec: SignalSpec|
            decoding.spec is None && packet == Packet::Decoded(spec) ==> #[trigger] step_of(
                decoding,
                Packet::Decoded(spec),
            ) == (Action::Append, Decoding { spec: Some(spec) }),
{
}

/// Once a packet has decoded, every later packet that is appended has the
/// same format, and the recorded format never changes.
pub proof fn lemma_format_is_fixed_by_the_first_packet(decoding: Decoding, packet: Packet)
    requires
        decoding.spec is Some,
    ensures
        step_of(decoding, packet).1 == decoding,
        step_of(decoding, packet).0 == Action::Append ==> packet == Packet::Decoded(
            decoding.spec.unwrap(),
        ),
{
}

} // verus!
