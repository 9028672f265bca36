//! Batch summary with per-file error recovery.

use crate::util::pair::{PairResult, PairView};
use crate::util::text::{dec, dec_string, with_number};
use vstd::prelude::*;
use vstd::string::StringExecFns;

verus! {

/// Outcome counts for a batch run.
#[derive(Debug, Clone, Copy, PartialEq, Eq, Structural)]
pub struct BatchSummary {
    pub attempted: usize,
    pub succeeded: usize,
    pub failed: usize,
    pub skipped: usize,
}

/// The number of jobs among the first `n` that succeeded.
pub open spec fn successes(outcomes: Seq<bool>, n: nat) -> nat
    decreases n,
{
    if n == 0 {
        0
    } else {
        successes(outcomes, (n - 1) as nat) + if outcomes[n - 1] {
            1nat
        } else {
            0nat
        }
    }
}

/// The number of files that the first `n` ambiguous basenames leave out.
pub open spec fn ambiguous_files(ambiguous: Seq<(Seq<char>, Seq<Seq<char>>)>, n: nat) -> nat
    decreases n,
{
    if n == 0 {
        0
    } else {
        ambiguous_files(ambiguous, (n - 1) as nat) + ambiguous[n - 1].1.len()
    }
}

/// The number of files that a pairing leaves out.
pub open spec fn skipped_files(pairing: PairView) -> nat {
    pairing.unpaired_charts.len() + pairing.unpaired_audio.len() + ambiguous_files(
        pairing.ambiguous,
        pairing.ambiguous.len(),
    )
}

/// The files of the pairing that are left out, at most as many as can be counted.
pub open spec fn skipped_of(pairing: Option<&PairResult>) -> nat {
    match pairing {
        None => 0,
        Some(p) => if skipped_files(p@) <= usize::MAX {
            skipped_files(p@)
        } else {
            usize::MAX as nat
        },
    }
}

fn count_skipped(pairing: &PairResult) -> (n: usize)
    ensures
        n == skipped_of(Some(pairing)),
{
    let mut n: usize = pairing.unpaired_charts.len().saturating_add(pairing.unpaired_audio.len());
    let mut i: usize = 0;
    let ghost first = pairing@.unpaired_charts.len() + pairing@.unpaired_audio.len();
    let ghost all = pairing@.ambiguous;
    while i < pairing.ambiguous.len()
        invariant
            i <= pairing.ambiguous@.len(),
            all == pairing@.ambiguous,
            n == (if first + ambiguous_files(all, i as nat) <= usize::MAX {
                first + ambiguous_files(all, i as nat)
            } else {
                usize::MAX as nat
            }),
        decreases pairing.ambiguous@.len() - i,
    {
        assert(all[i as int].1.len() == pairing.ambiguous@[i as int].1@.len());
        n = n.saturating_add(pairing.ambiguous[i].1.len());
        i = i + 1;
    }
    n
}

/// Sum up a batch run: `outcomes` says of each job whether it succeeded.
///
/// Jobs go on past per-file errors. Unpaired/ambiguous files from
/// `pair_result` (if provided) are counted as skipped.
pub fn run_batch(outcomes: &Vec<bool>, pair_result: Option<&PairResult>) -> (summary: BatchSummary)
    ensures
        summary.attempted == outcomes@.len(),
        summary.succeeded == successes(outcomes@, outcomes@.len()),
        summary.succeeded + summary.failed == summary.attempted,
        summary.skipped == skipped_of(pair_result),
{
    let skipped: usize = match pair_result {
        Some(p) => count_skipped(p),
        None => 0,
    };
    let mut succeeded: usize = 0;
    let mut i: usize = 0;
    while i < outcomes.len()
        invariant
            i <= outcomes@.len(),
            succeeded == successes(outcomes@, i as nat),
            succeeded <= i,
        decreases outcomes@.len() - i,
    {
        if outcomes[i] {
            succeeded = succeeded + 1;
        }
        i = i + 1;
    }
    BatchSummary {
        attempted: outcomes.len(),
        succeeded,
        failed: outcomes.len() - succeeded,
        skipped,
    }
}

impl BatchSummary {
    /// The summary in words.
    pub fn message(&self) -> (text: String)
        ensures
            text@ == "batch complete: "@ + dec(self.attempted as nat) + " attempted, "@ + dec(
                self.succeeded as nat,
            ) + " succeeded, "@ + dec(self.failed as nat) + " failed, "@ + dec(self.skipped as nat)
                + " skipped"@,
    {
        with_number("batch complete: ", self.attempted as u128, " attempted, ").concat(
            dec_string(self.succeeded as u128).as_str(),
        ).concat(" succeeded, ").concat(dec_string(self.failed as u128).as_str()).concat(
            " failed, ",
        ).concat(dec_string(self.skipped as u128).as_str()).concat(" skipped")
    }

    /// The exit code of the run: 1 where a file failed, else 0.
    pub fn exit_code(&self) -> (code: u8)
        ensures
            code == (if self.failed > 0 {
                1u8
            } else {
                0u8
            }),
    {
        if self.failed > 0 {
            1
        } else {
            0
        }
    }
}

} // verus!
