//! What can go wrong between a selector and a finished run.

use crate::os::Os;
use crate::target::output::Output;
use crate::target::path::TargetPath;
use vstd::prelude::*;

verus! {

/// A failure of the engine. Every one of them ends the run, but for
/// `MissingOutput`, which tells the builder what to build next.
#[derive(Debug)]
pub enum Error {
    /// An address, selector, output reference or platform name is malformed.
    InvalidFormat,
    /// No target of this name is declared in its definition file, or the
    /// target is built and has not made an output that a command asked of
    /// it.
    UnknownTarget(TargetPath),
    /// The definition file at `path` could not be read or understood.
    DefinitionError { path: String, cause: String },
    /// A command refers to an output that no target has produced so far.
    MissingOutput(Output),
    /// The command of `target` did not end well; `code` is its exit code,
    /// where it has one.
    BuildFailed { target: TargetPath, code: Option<i32> },
    /// `target` declares the output `slot` at `path`, and no file is there
    /// after its command has run.
    MissingOutputFile { target: TargetPath, slot: String, path: String },
    /// The command needs the platform `required`, and the host is `host`.
    UnsupportedPlatform { required: Os, host: Os },
    /// The path of an output cannot be written as text into a command.
    NonUtf8Path(Output),
    /// The selector took no target at all.
    NoTargetsMatched,
    /// The builder was told something that answers nothing it asked for.
    UnexpectedEvent,
}

} // verus!
