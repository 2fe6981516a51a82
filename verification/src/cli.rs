//! Rules of the command line that do not depend on how it is parsed.

use vstd::prelude::*;

verus! {

/// Control commands act on a running player; a file, `--threshold` or
/// `--seed` only make sense when starting one.
pub open spec fn invocation_ok(has_command: bool, has_input: bool, has_threshold: bool, has_seed: bool) -> bool {
    !(has_command && (has_input || has_threshold || has_seed))
}

/// Checks that a control command comes without playback arguments.
pub fn validate_invocation(has_command: bool, has_input: bool, has_threshold: bool, has_seed: bool) -> (checked: Result<(), String>)
    ensures
        checked is Ok == invocation_ok(has_command, has_input, has_threshold, has_seed),
        checked matches Err(message) ==> message@
            == "control commands cannot be combined with a file, --threshold, or --seed"@,
{
    if has_command && (has_input || has_threshold || has_seed) {
        return Err(
            String::from_str("control commands cannot be combined with a file, --threshold, or --seed"),
        );
    }
    Ok(())
}

} // verus!
