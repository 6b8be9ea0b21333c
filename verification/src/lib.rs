//! The resolution engine of a demand-driven task runner.
//!
//! Targets are declared in definition files scattered over a directory tree
//! and addressed as `//dir/name`. A run takes a selector, finds the targets
//! that it selects, and builds each of them: first what the target names as
//! its prerequisites, then whatever its command refers to and is not built
//! yet, then the command itself, whose outputs are recorded for the commands
//! that come later.
//!
//! * [`target`] holds the addresses, the output references, the selectors
//!   and what a definition file declares.
//! * [`command`] parses a command into literal text and output references,
//!   and renders it against the outputs recorded so far.
//! * [`outputs`] and [`reader`] are the two tables of a run: where the
//!   outputs lie, and what the definition files that were read declare.
//! * [`builder`] decides what happens next. It reads no file and runs no
//!   command itself: it asks for that, one request at a time.
//! * [`executor`], [`os`] and [`reporting`] say what may run on the host and
//!   what a run tells of its progress.
//!
//! Every function here is verified against its contract; the few places
//! where a contract is taken on trust are marked as such.

pub mod builder;
pub mod command;
pub mod error;
pub mod executor;
pub mod os;
pub mod outputs;
pub mod reader;
pub mod reporting;
pub mod target;
pub mod text;
