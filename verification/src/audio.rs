//! What an audio plugin is told before it starts.

use vstd::prelude::*;

verus! {

/// The options of an audio plugin.
#[derive(Clone, Copy, PartialEq, Eq, Debug)]
pub struct FmodOptions {
    /// Whether the sources that ask for it are played when the engine
    /// starts.
    pub play_on_start: bool,
}

impl Default for FmodOptions {
    /// Sources are played at the start unless the caller says otherwise.
    fn default() -> (options: Self)
        ensures
            options.play_on_start,
    {
        FmodOptions { play_on_start: true }
    }
}

} // verus!
