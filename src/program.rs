//! Running a whole program: a fresh environment, the output lines, the first error.
use vstd::prelude::*;
use crate::block::{run_block, run_from, Outcome};
use crate::env::Env;
use crate::error::RfError;
use crate::stmt::lines;
use crate::text::chars_of;
use crate::validate::{balanced, validate_rf_syntax};
use crate::value::Value;

verus! {

/// How many iterations a conditional loop may run before the run stops.
pub const LOOP_LIMIT: u64 = 0xffff_ffff_ffff_ffff;

/// What a program run printed, and the error that stopped it, if any.
pub struct RunResult {
    pub output: Vec<String>,
    pub error: Option<RfError>,
}

/// How a program ends when run from the start against an empty environment.
pub open spec fn program_outcome(code: Seq<char>) -> Outcome {
    run_from(code, 0, Map::<Seq<char>, Value>::empty(), Seq::empty(), LOOP_LIMIT as nat)
}

impl RunResult {
    /// Whether this is what running `code` gives: the lines printed, in order, and the
    /// error that ended the run.
    pub open spec fn reports(self, o: Outcome) -> bool {
        match o {
            Outcome::Done(_, l) => self.error is None && lines(self.output@) == l,
            Outcome::Failed(e, _, l) => self.error == Some(e) && lines(self.output@) == l,
        }
    }
}

/// Runs a program against a fresh environment. Execution stops at the first error; the
/// lines printed before it are kept.
pub fn run(code: &str) -> (r: RunResult)
    ensures
        r.reports(program_outcome(code@)),
{
    let s = chars_of(code);
    let mut env = Env::new();
    let mut output: Vec<String> = Vec::new();
    assert(lines(output@) =~= Seq::<Seq<char>>::empty());
    let res = run_block(&s, &mut env, &mut output, LOOP_LIMIT);
    RunResult {
        output,
        error: match res {
            Ok(()) => None,
            Err(e) => Some(e),
        },
    }
}

/// Checks the structure of a program, then runs it. A program that fails the check is
/// not run and prints nothing.
pub fn run_program(code: &str) -> (r: RunResult)
    ensures
        balanced(code@) ==> r.reports(program_outcome(code@)),
        !balanced(code@) ==> r.output@.len() == 0 && (r.error matches Some(RfError::UnmatchedClose { .. }) || r.error matches Some(RfError::UnclosedOpen { .. })),
{
    match validate_rf_syntax(code) {
        Err(e) => RunResult { output: Vec::new(), error: Some(e) },
        Ok(()) => run(code),
    }
}

/// Two runs of the same source, each against a fresh environment, print the same lines
/// and end the same way: nothing carries over from one run to the next.
pub proof fn lemma_runs_repeat(code: Seq<char>, first: RunResult, second: RunResult)
    requires
        first.reports(program_outcome(code)),
        second.reports(program_outcome(code)),
    ensures
        lines(first.output@) == lines(second.output@),
        first.error == second.error,
{
}

} // verus!
