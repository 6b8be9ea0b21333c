//! What a run says of its progress.

use crate::target::path::TargetPath;
use vstd::prelude::*;
use vstd::string::*;

verus! {

/// How a run reports.
#[derive(Debug, Clone, Copy)]
pub struct Options {
    /// Say nothing of progress.
    pub quiet: bool,
}

/// Hears of the progress of a run. Each method does nothing unless a
/// reporter says otherwise.
pub trait Reporter {
    /// The command of `task` is about to run.
    fn begin_execute(&self, task: &TargetPath) {
    }

    /// The command of `task` has ended, after `secs` seconds and `millis`
    /// milliseconds more.
    fn finish_execute(&self, task: &TargetPath, secs: u64, millis: u32) {
    }

    /// Every target that was asked for is built.
    fn finish_top_level(&self) {
    }
}

/// The reporter that says nothing.
#[derive(Debug, Clone, Copy)]
pub struct Quiet;

impl Reporter for Quiet {

}

/// The ten digits, in order.
pub open spec fn digits() -> Seq<char> {
    "0123456789"@
}

/// The decimal numeral of `n`, without leading zeros.
pub open spec fn decimal(n: nat) -> Seq<char>
    decreases n,
{
    if n < 10 {
        seq![digits()[n as int]]
    } else {
        decimal(n / 10).push(digits()[(n % 10) as int])
    }
}

/// The line that announces the command of the target at `task`.
pub open spec fn begin_text(task: Seq<char>) -> Seq<char> {
    "Running "@ + task
}

/// The line that reports the end of the command of the target at `task`:
/// the seconds, a point, and the milliseconds as they are, without padding.
pub open spec fn finish_text(task: Seq<char>, secs: nat, millis: nat) -> Seq<char> {
    "Finish  "@ + task + " in "@ + decimal(secs) + "."@ + decimal(millis) + "s"@
}

/// Writes `n` in decimal.
pub fn numeral(n: u64) -> (r: String)
    ensures
        r@ == decimal(n as nat),
    decreases n,
{
    proof {
        reveal_strlit("0123456789");
    }
    let d = (n % 10) as usize;
    let last = "0123456789".substring_char(d, d + 1);
    if n < 10 {
        String::from_str(last)
    } else {
        let mut out = numeral(n / 10);
        out.append(last);
        out
    }
}

/// The line that announces the command of `task`.
pub fn begin_line(task: &TargetPath) -> (r: String)
    ensures
        r@ == begin_text(task@),
{
    let mut out = String::from_str("Running ");
    out.append(task.to_string().as_str());
    out
}

/// The line that reports the end of the command of `task`.
pub fn finish_line(task: &TargetPath, secs: u64, millis: u32) -> (r: String)
    ensures
        r@ == finish_text(task@, secs as nat, millis as nat),
{
    let mut out = String::from_str("Finish  ");
    out.append(task.to_string().as_str());
    out.append(" in ");
    out.append(numeral(secs).as_str());
    out.append(".");
    out.append(numeral(millis as u64).as_str());
    out.append("s");
    out
}

} // verus!
