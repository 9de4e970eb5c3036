use vstd::prelude::*;

verus! {

/// How much a run reports besides its result.
#[derive(Clone, Copy, Debug, PartialEq, Eq, Structural)]
pub enum Level {
    /// Errors only.
    Error,
    /// Errors and progress information.
    Info,
}

/// The reporting level for a run: errors only when `quiet`, progress
/// information as well otherwise.
pub fn init(quiet: bool) -> (r: Level)
    ensures
        r == (if quiet {
            Level::Error
        } else {
            Level::Info
        }),
{
    if quiet {
        Level::Error
    } else {
        Level::Info
    }
}

impl Level {
    /// Messages at information level are shown.
    pub fn shows_info(self) -> (r: bool)
        ensures
            r == (self == Level::Info),
    {
        match self {
            Level::Error => false,
            Level::Info => true,
        }
    }
}

} // verus!
