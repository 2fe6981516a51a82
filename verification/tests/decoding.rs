use eternal::decoding::{Action, Decoding, Packet, SignalSpec};

const STEREO: SignalSpec = SignalSpec {
    rate: 44_100,
    channel_mask: 0b11,
};

#[test]
fn packets_of_other_tracks_and_corrupt_packets_are_skipped() {
    let mut decoding = Decoding::new();
    assert_eq!(decoding.accept(Packet::OtherTrack), Action::Skip);
    assert_eq!(decoding.accept(Packet::Corrupt), Action::Skip);
    assert_eq!(decoding.spec, None);
    assert_eq!(decoding.finish(), None);
}

#[test]
fn the_first_decoded_packet_fixes_the_format() {
    let mut decoding = Decoding::new();
    assert_eq!(decoding.accept(Packet::Decoded(STEREO)), Action::Append);
    assert_eq!(decoding.accept(Packet::Corrupt), Action::Skip);
    assert_eq!(decoding.accept(Packet::Decoded(STEREO)), Action::Append);
    assert_eq!(decoding.finish(), Some(STEREO));
}

#[test]
fn a_format_change_stops_decoding() {
    let mut decoding = Decoding::new();
    decoding.accept(Packet::Decoded(STEREO));
    let mono = SignalSpec {
        rate: 44_100,
        channel_mask: 0b1,
    };
    assert_eq!(decoding.accept(Packet::Decoded(mono)), Action::FailFormatChanged);
    let faster = SignalSpec {
        rate: 48_000,
        channel_mask: 0b11,
    };
    assert_eq!(decoding.accept(Packet::Decoded(faster)), Action::FailFormatChanged);
    assert_eq!(decoding.finish(), Some(STEREO));
}

#[test]
fn other_decoder_failures_stop_decoding() {
    let mut decoding = Decoding::new();
    assert_eq!(decoding.accept(Packet::Failed), Action::FailDecoder);
}
