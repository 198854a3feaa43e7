//! The decisions of an interactive replay session: what auto-play does when
//! its delay has passed, and the playback speeds.
use vstd::prelude::*;

verus! {

/// What auto-play does once its delay has passed.
#[derive(Debug, Clone, Copy, PartialEq, Eq, Structural)]
pub enum AutoStep {
    /// Load the following file of the playlist.
    NextFile,
    /// Go back to the first file of the playlist.
    FirstFile,
    /// Step the game forward (which wraps or stops at its end by its own looping setting).
    Step,
}

/// The step that auto-play takes: within a game it steps; at the end of a game
/// it moves to the following file if there is one, back to the first file when
/// looping over a playlist of several files, and otherwise leaves the step to
/// the game.
pub fn auto_step(at_end: bool, has_next_file: bool, looping: bool, single_file: bool) -> (r:
    AutoStep)
    ensures
        r == (if !at_end {
            AutoStep::Step
        } else if has_next_file {
            AutoStep::NextFile
        } else if looping && !single_file {
            AutoStep::FirstFile
        } else {
            AutoStep::Step
        }),
{
    if !at_end {
        AutoStep::Step
    } else if has_next_file {
        AutoStep::NextFile
    } else if looping && !single_file {
        AutoStep::FirstFile
    } else {
        AutoStep::Step
    }
}

/// The playback speed that follows `speed`: 1, 2, 3, then back to 1.
pub fn next_speed(speed: u64) -> (r: u64)
    ensures
        r == if speed >= 3 {
            1int
        } else {
            speed + 1
        },
{
    if speed >= 3 {
        1
    } else {
        speed + 1
    }
}

/// The auto-play delay in milliseconds at playback speed `speed`.
pub fn auto_play_delay_ms(speed: u64) -> (r: u64)
    ensures
        r == if speed == 2 {
            1500u64
        } else if speed == 3 {
            500u64
        } else {
            3000u64
        },
{
    match speed {
        2 => 1500,
        3 => 500,
        _ => 3000,
    }
}

} // verus!
