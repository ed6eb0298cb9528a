//! The orchestrator's decisions, as pure functions.
//!
//! A run loads bids, derives allocations, loads the ledger, reconciles,
//! and then either stops (no work), prints the plan (dry run), or executes
//! the transfers and appends one ledger record per receipt.  The file
//! reads, console output and transfer dispatch happen outside this
//! library; everything the run decides or computes is here.

use vstd::prelude::*;

use crate::allocate::{derive_allocations, spec_derive_allocations};
use crate::ledger::{parse_transaction_infos, spec_parse_transaction_infos};
use crate::reconcile::{apply_previous_transactions, reconciled, record_amounts};
use crate::records::{Allocation, AllocationV, DistributeError, TransactionInfoV};
use crate::schedule::{parse_bids, spec_parse_bids};

verus! {

/// What a run does once the remaining work is known.
#[derive(Debug, Clone, Copy, PartialEq, Eq, Structural)]
pub enum RunAction {
    /// Nothing remains to disburse: report and stop successfully.
    NoWork,
    /// Work remains but the dry-run flag is set: only print the plan;
    /// no transfer is dispatched and nothing is appended to the ledger.
    PrintOnly,
    /// Work remains: dispatch the transfers, then append the ledger.
    Execute,
}

/// Decides what a run does with the reconciled remainder: stop when it is
/// empty, only print under the dry-run flag, execute otherwise.
pub fn decide_action(allocations: &Vec<Allocation>, dry_run: bool) -> (a: RunAction)
    ensures
        (a == RunAction::NoWork) == (allocations@.len() == 0),
        (a == RunAction::PrintOnly) == (allocations@.len() > 0 && dry_run),
        (a == RunAction::Execute) == (allocations@.len() > 0 && !dry_run),
{
    if allocations.len() == 0 {
        RunAction::NoWork
    } else if dry_run {
        RunAction::PrintOnly
    } else {
        RunAction::Execute
    }
}

/// What planning a run returns: the reconciled remainder of the bid
/// schedule against the ledger, or the first error met — a malformed bid
/// row, a bad rate, an unrepresentable conversion, then a malformed ledger
/// row.
pub open spec fn spec_plan_distribution(
    bids_csv: Seq<u8>,
    ledger_csv: Option<Seq<u8>>,
    rate: int,
) -> Result<Seq<AllocationV>, DistributeError> {
    match spec_parse_bids(bids_csv) {
        None => Err(DistributeError::MalformedRow),
        Some(bids) => match spec_derive_allocations(bids, rate) {
            Err(e) => Err(e),
            Ok(allocs) => {
                let history = match ledger_csv {
                    Some(l) => spec_parse_transaction_infos(l),
                    None => Some(Seq::<TransactionInfoV>::empty()),
                };
                match history {
                    None => Err(DistributeError::MalformedRow),
                    Some(h) => Ok(reconciled(allocs, record_amounts(h))),
                }
            },
        },
    }
}

/// The compute spine of a run: parses the bid schedule, derives the
/// allocations at the conversion rate, parses the ledger (a missing ledger
/// file is an empty history), and reconciles.  Returns the remaining work
/// list, pruned of settled allocations, or the run's fatal error.
pub fn plan_distribution(
    bids_csv: &Vec<u8>,
    ledger_csv: &Option<Vec<u8>>,
    dollars_per_sol: u64,
) -> (r: Result<Vec<Allocation>, DistributeError>)
    ensures
        match r {
            Ok(allocs) => spec_plan_distribution(
                bids_csv@,
                match ledger_csv {
                    Some(l) => Some(l@),
                    None => None,
                },
                dollars_per_sol as int,
            ) == Ok::<Seq<AllocationV>, DistributeError>(allocs.deep_view()),
            Err(e) => spec_plan_distribution(
                bids_csv@,
                match ledger_csv {
                    Some(l) => Some(l@),
                    None => None,
                },
                dollars_per_sol as int,
            ) == Err::<Seq<AllocationV>, DistributeError>(e),
        },
        forall|i: int|
            r is Ok ==> 0 <= i < r.unwrap()@.len() ==> #[trigger] r.unwrap().deep_view()[i].amount
                > 0,
{
    let bids = match parse_bids(bids_csv) {
        Ok(bs) => bs,
        Err(e) => {
            return Err(e);
        },
    };
    let mut allocations = match derive_allocations(&bids, dollars_per_sol) {
        Ok(a) => a,
        Err(e) => {
            return Err(e);
        },
    };
    let history = match ledger_csv {
        Some(l) => match parse_transaction_infos(l) {
            Ok(h) => h,
            Err(e) => {
                return Err(e);
            },
        },
        None => Vec::new(),
    };
    proof {
        if ledger_csv is None {
            assert(history.deep_view() =~= Seq::<TransactionInfoV>::empty());
        }
    }
    apply_previous_transactions(&mut allocations, &history);
    Ok(allocations)
}

} // verus!
