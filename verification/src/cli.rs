//! The commands of the command line: what each computes from its arguments.
//!
//! Reading the arguments, evaluating the logarithmic scale and writing the
//! results are the caller's part; what is to be evaluated and what is to be
//! written is decided here.

use vstd::prelude::*;
use crate::interval::IntervalError;
use crate::sequence::Breakpoint;

pub mod interval;
pub mod listing;
pub mod range;

pub use interval::SubComInterval;
pub use range::Range;

verus! {

/// One of the subcommands, with its arguments.
#[derive(Debug)]
pub enum Command {
    Range(Range),
    Interval(SubComInterval),
}

/// What a command hands back to be written.
#[derive(Debug)]
pub enum Output {
    /// Integers, to be written as they are.
    Numbers(Vec<i64>),
    /// Fenceposts, to be evaluated and written.
    Fenceposts(Vec<Breakpoint>),
}

impl Command {
    /// Runs the subcommand. `positions` are the places on the logarithmic
    /// scale of the numbers that a `Range` is given, in their order.
    pub fn run(&self, positions: &[u64]) -> (r: Result<Output, IntervalError>)
        ensures
            match self {
                Command::Range(cmd) => match cmd.spec_interval() {
                    Err(e) => r == Err::<Output, IntervalError>(e),
                    Ok(interval) => r matches Ok(Output::Numbers(numbers)) && numbers@
                        == cmd.spec_run(interval, positions@),
                },
                Command::Interval(cmd) => match cmd.spec_interval() {
                    Err(e) => r == Err::<Output, IntervalError>(e),
                    Ok(interval) => r matches Ok(Output::Fenceposts(fenceposts)) && fenceposts@
                        == interval.fenceposts().skip(1),
                },
            },
    {
        match self {
            Command::Range(cmd) => match cmd.run(positions) {
                Ok(numbers) => Ok(Output::Numbers(numbers)),
                Err(e) => Err(e),
            },
            Command::Interval(cmd) => match cmd.run() {
                Ok(fenceposts) => Ok(Output::Fenceposts(fenceposts)),
                Err(e) => Err(e),
            },
        }
    }
}

/// The command line as a whole.
#[derive(Debug)]
pub struct Root {
    cmd: Command,
}

impl Root {
    /// The subcommand that was given.
    pub closed spec fn cmd(&self) -> Command {
        self.cmd
    }

    /// The command line that consists of `cmd`.
    pub fn new(cmd: Command) -> (r: Self)
        ensures
            r.cmd() == cmd,
    {
        Self { cmd }
    }

    /// Runs the subcommand that was given; see [`Command::run`].
    pub fn execute(&self, positions: &[u64]) -> (r: Result<Output, IntervalError>)
        ensures
            match self.cmd() {
                Command::Range(cmd) => match cmd.spec_interval() {
                    Err(e) => r == Err::<Output, IntervalError>(e),
                    Ok(interval) => r matches Ok(Output::Numbers(numbers)) && numbers@
                        == cmd.spec_run(interval, positions@),
                },
                Command::Interval(cmd) => match cmd.spec_interval() {
                    Err(e) => r == Err::<Output, IntervalError>(e),
                    Ok(interval) => r matches Ok(Output::Fenceposts(fenceposts)) && fenceposts@
                        == interval.fenceposts().skip(1),
                },
            },
    {
        self.cmd.run(positions)
    }
}

} // verus!
