//! The command-line options of each command, as plain values.
use vstd::prelude::*;

verus! {

/// `build`: where the templates are and where the site goes.
pub struct BuildArgs {
    pub input: String,
    pub output: String,
}

/// `serve`: as `build`, and the port to listen on.
pub struct ServeArgs {
    pub input: String,
    pub output: String,
    pub port: u16,
}

/// `init`: where to scaffold a project, and whether to write nothing.
pub struct InitArgs {
    pub path: String,
    pub dry_run: bool,
}

/// `watch`: where the templates are and where the site goes.
pub struct WatchArgs {
    pub input: String,
    pub output: String,
}

impl BuildArgs {
    /// The options of the build that `serve` runs first.
    pub fn of_serve(a: &ServeArgs) -> (r: BuildArgs)
        ensures
            r.input@ == a.input@,
            r.output@ == a.output@,
    {
        BuildArgs { input: a.input.clone(), output: a.output.clone() }
    }
}

} // verus!
