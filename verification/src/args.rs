//! The run options the orchestration honours, and the outcome a run
//! reports.

use vstd::prelude::*;

use crate::fs_model::string_is;

verus! {

/// The two independent options of a run.
pub struct Args {
    pub dry_run: bool,
    pub check: bool,
}

impl Default for Args {
    fn default() -> (r: Self)
        ensures
            r.dry_run == false && r.check == false,
    {
        Args { dry_run: false, check: false }
    }
}

/// What a full run reports.
#[derive(Clone, Copy, PartialEq, Eq, Structural, Debug)]
pub enum RunOutcome {
    /// No package root was discovered: a failure, not a clean run.
    NotFound,
    /// Package roots exist but no flat module is eligible.
    Clean,
    /// Under `check`, the given number of candidates is pending.
    Pending(usize),
    /// The given number of candidates was reported as migrated.
    Migrated(usize),
}

proof fn lemma_flags_differ()
    ensures
        "--dry-run"@ != "--check"@,
{
    broadcast use vstd::string::group_string_axioms;

    reveal_strlit("--dry-run");
    reveal_strlit("--check");
    assert("--dry-run"@.len() == 9);
    assert("--check"@.len() == 7);
}

impl Args {
    /// Folds one command-line token into the options; anything but the
    /// two recognized flags is ignored.
    pub fn with_arg(self, arg: String) -> (r: Self)
        ensures
            r.dry_run == (self.dry_run || arg@ == "--dry-run"@),
            r.check == (self.check || arg@ == "--check"@),
    {
        proof {
            lemma_flags_differ();
        }
        if string_is(&arg, "--dry-run") {
            Args { dry_run: true, check: self.check }
        } else if string_is(&arg, "--check") {
            Args { dry_run: self.dry_run, check: true }
        } else {
            self
        }
    }

    /// Whether the run must leave the tree untouched: `check` implies a
    /// dry run.
    pub fn dry_run(&self) -> (r: bool)
        ensures
            r == (self.dry_run || self.check),
    {
        self.dry_run || self.check
    }
}

/// The outcome of a run, from what discovery and scanning found and from
/// the options: no roots is a failure of its own; no candidates is clean;
/// pending under `check`; migrated otherwise.
pub fn run_outcome(found_packages: bool, candidate_count: usize, args: &Args) -> (r: RunOutcome)
    ensures
        r == (if !found_packages {
            RunOutcome::NotFound
        } else if candidate_count == 0 {
            RunOutcome::Clean
        } else if args.check {
            RunOutcome::Pending(candidate_count)
        } else {
            RunOutcome::Migrated(candidate_count)
        }),
{
    if !found_packages {
        RunOutcome::NotFound
    } else if candidate_count == 0 {
        RunOutcome::Clean
    } else if args.check {
        RunOutcome::Pending(candidate_count)
    } else {
        RunOutcome::Migrated(candidate_count)
    }
}

} // verus!
