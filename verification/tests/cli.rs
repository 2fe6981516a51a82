use eternal::cli::validate_invocation;

const MESSAGE: &str = "control commands cannot be combined with a file, --threshold, or --seed";

#[test]
fn control_commands_alone_are_accepted() {
    // `eternal pause`
    assert_eq!(validate_invocation(true, false, false, false), Ok(()));
}

#[test]
fn playback_with_file_and_flags_is_accepted() {
    // `eternal song.mp3 --threshold 0.5 --seed 42`
    assert_eq!(validate_invocation(false, true, true, true), Ok(()));
    assert_eq!(validate_invocation(false, true, false, false), Ok(()));
}

#[test]
fn playback_arguments_on_control_commands_are_rejected() {
    // `eternal --seed 42 pause`
    assert_eq!(
        validate_invocation(true, false, false, true),
        Err(MESSAGE.to_string())
    );
    assert_eq!(
        validate_invocation(true, false, true, false),
        Err(MESSAGE.to_string())
    );
    assert_eq!(
        validate_invocation(true, true, false, false),
        Err(MESSAGE.to_string())
    );
}
