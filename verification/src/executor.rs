//! What is handed to the shell, and on which host.

use crate::error::Error;
use crate::os::Os;
use crate::target::path::TargetPath;
use vstd::prelude::*;

verus! {

/// One run of a command: everything that spawning it takes.
#[derive(Debug)]
pub struct Execution {
    /// The target whose command this is.
    pub path: TargetPath,
    /// The command, rendered.
    pub command: String,
    /// The working directory, relative to the root; empty for the root.
    pub dir: String,
    /// The platform that the command needs, if it needs one.
    pub runs_on: Option<Os>,
}

/// Whether a command that needs `runs_on` may run on `host`.
pub open spec fn admits(host: Os, runs_on: Option<Os>) -> bool {
    match runs_on {
        Some(os) => os == host,
        None => true,
    }
}

/// Stands in front of the shell: it knows the host, and lets through what
/// may run there.
#[derive(Debug)]
pub struct Executor {
    host: Os,
}

impl Executor {
    /// The platform of the host.
    pub closed spec fn spec_host(&self) -> Os {
        self.host
    }

    /// An executor for the host `host`.
    pub fn new(host: Os) -> (r: Executor)
        ensures
            r.spec_host() == host,
    {
        Executor { host }
    }

    /// The platform of the host.
    pub fn host(&self) -> (r: Os)
        ensures
            r == self.spec_host(),
    {
        self.host
    }

    /// Passes `e` on, unchanged, if the host is the platform that it needs
    /// or it needs none; refuses it otherwise.
    pub fn execute(&self, e: Execution) -> (r: Result<Execution, Error>)
        ensures
            admits(self.spec_host(), e.runs_on) ==> r == Ok::<Execution, Error>(e),
            !admits(self.spec_host(), e.runs_on) ==> (r matches Err(
                Error::UnsupportedPlatform { required, host },
            ) && Some(required) == e.runs_on && host == self.spec_host()),
    {
        match e.runs_on {
            Some(required) => {
                if required == self.host {
                    Ok(e)
                } else {
                    Err(Error::UnsupportedPlatform { required, host: self.host })
                }
            },
            None => Ok(e),
        }
    }
}

} // verus!
