//! The settings that a program built on this library starts with.

use vstd::prelude::*;

verus! {

/// What the command line and the configuration file can set.
#[derive(Clone, Debug)]
pub struct Args {
    /// Where the configuration file lies, if not at its usual place.
    pub config: Option<String>,
    /// How talkative the log is: each step adds detail.
    pub verbose: u8,
}

impl Default for Args {
    /// No configuration file named, and a quiet log.
    fn default() -> (args: Args)
        ensures
            args.config is None,
            args.verbose == 0,
    {
        Args { config: None, verbose: 0 }
    }
}

} // verus!
