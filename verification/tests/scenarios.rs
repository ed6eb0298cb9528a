use token_distributor::amounts::AMOUNT_SCALE;
use token_distributor::ledger::{plan_append, serialize_transaction_infos};
use token_distributor::orchestrate::{decide_action, plan_distribution, RunAction};
use token_distributor::records::{Allocation, TransactionInfo};
use token_distributor::reconcile::apply_previous_transactions;
use token_distributor::schedule::parse_bids;
use token_distributor::allocate::derive_allocations;

fn owed(recipient: &str, amount: u64) -> Allocation {
    Allocation { recipient: recipient.as_bytes().to_vec(), amount }
}

fn record(recipient: &str, amount: u64, signature: &str) -> TransactionInfo {
    TransactionInfo {
        recipient: recipient.as_bytes().to_vec(),
        amount,
        signature: signature.as_bytes().to_vec(),
    }
}

#[test]
fn empty_ledger_leaves_allocations_whole() {
    // bids (A, $100), (B, $50) at $10 per unit against an empty ledger
    let bids_csv = b"bid_amount_dollars,primary_address\n100,A\n50,B\n".to_vec();
    let bids = parse_bids(&bids_csv).unwrap();
    assert_eq!(bids.len(), 2);
    assert_eq!(bids[0].bid_amount_dollars, 100 * AMOUNT_SCALE);
    assert_eq!(bids[1].bid_amount_dollars, 50 * AMOUNT_SCALE);
    let mut allocations = derive_allocations(&bids, 10 * AMOUNT_SCALE).unwrap();
    assert_eq!(allocations, vec![owed("A", 10 * AMOUNT_SCALE), owed("B", 5 * AMOUNT_SCALE)]);
    let history: Vec<TransactionInfo> = vec![];
    apply_previous_transactions(&mut allocations, &history);
    assert_eq!(allocations, vec![owed("A", 10 * AMOUNT_SCALE), owed("B", 5 * AMOUNT_SCALE)]);
}

#[test]
fn one_record_settles_the_first_allocation() {
    // the record is not tied to A, but A is first in positional order
    let mut allocations = vec![owed("A", 10 * AMOUNT_SCALE), owed("B", 5 * AMOUNT_SCALE)];
    let history = vec![record("A", 10 * AMOUNT_SCALE, "r1")];
    apply_previous_transactions(&mut allocations, &history);
    assert_eq!(allocations, vec![owed("B", 5 * AMOUNT_SCALE)]);
}

#[test]
fn over_payment_is_discarded_without_error() {
    // the record exceeds the whole allocation total; everything is pruned
    let mut allocations = vec![owed("A", 10 * AMOUNT_SCALE), owed("B", 5 * AMOUNT_SCALE)];
    let history = vec![record("A", 100 * AMOUNT_SCALE, "r1")];
    apply_previous_transactions(&mut allocations, &history);
    assert_eq!(allocations, Vec::<Allocation>::new());
}

#[test]
fn dry_run_only_prints() {
    let work = vec![owed("A", 10 * AMOUNT_SCALE)];
    assert_eq!(decide_action(&work, true), RunAction::PrintOnly);
    assert_eq!(decide_action(&work, false), RunAction::Execute);
}

#[test]
fn no_work_stops_the_run() {
    let empty: Vec<Allocation> = vec![];
    assert_eq!(decide_action(&empty, true), RunAction::NoWork);
    assert_eq!(decide_action(&empty, false), RunAction::NoWork);
}

#[test]
fn first_append_creates_with_header_and_no_backup() {
    let fresh = plan_append(false);
    assert!(!fresh.make_backup);
    assert!(fresh.write_header);
    let existing = plan_append(true);
    assert!(existing.make_backup);
    assert!(!existing.write_header);
    let rows = vec![record("A", 10 * AMOUNT_SCALE, "r1")];
    let with_header = serialize_transaction_infos(&rows, true);
    assert_eq!(with_header, b"recipient,amount,signature\nA,10.000000000,r1\n".to_vec());
    let headerless = serialize_transaction_infos(&rows, false);
    assert_eq!(headerless, b"A,10.000000000,r1\n".to_vec());
}

#[test]
fn partial_consumption_carries_the_debit_on() {
    // 7 consumes X (5) whole and takes 2 more from Y
    let mut allocations = vec![owed("X", 5), owed("Y", 10)];
    let history = vec![record("X", 7, "r1")];
    apply_previous_transactions(&mut allocations, &history);
    assert_eq!(allocations, vec![owed("Y", 8)]);
}

#[test]
fn zero_amount_record_changes_nothing() {
    let mut allocations = vec![owed("X", 5), owed("Y", 10)];
    let history = vec![record("X", 0, "r1")];
    apply_previous_transactions(&mut allocations, &history);
    assert_eq!(allocations, vec![owed("X", 5), owed("Y", 10)]);
}

#[test]
fn full_replay_is_idempotent() {
    // reconcile, ledger everything that survived, reconcile again: empty
    let bids_csv = b"bid_amount_dollars,primary_address\n100,A\n50,B\n25,C\n".to_vec();
    let bids = parse_bids(&bids_csv).unwrap();
    let mut first = derive_allocations(&bids, 10 * AMOUNT_SCALE).unwrap();
    let mut history = vec![record("A", 4 * AMOUNT_SCALE, "r1")];
    apply_previous_transactions(&mut first, &history);
    for (i, a) in first.iter().enumerate() {
        let receipt = format!("s{}", i);
        history.push(record(
            &String::from_utf8(a.recipient.clone()).unwrap(),
            a.amount,
            &receipt,
        ));
    }
    let mut second = derive_allocations(&bids, 10 * AMOUNT_SCALE).unwrap();
    apply_previous_transactions(&mut second, &history);
    assert_eq!(second, Vec::<Allocation>::new());
}

#[test]
fn totals_are_conserved() {
    // the sum drops by exactly the ledgered sum, never below zero
    let mut allocations = vec![owed("A", 10), owed("B", 5), owed("C", 3)];
    let history = vec![record("A", 6, "r1"), record("B", 4, "r2")];
    apply_previous_transactions(&mut allocations, &history);
    let total: u64 = allocations.iter().map(|a| a.amount).sum();
    assert_eq!(total, 18 - 10);
}

#[test]
fn survivors_keep_their_relative_order() {
    let mut allocations = vec![owed("A", 1), owed("B", 5), owed("C", 2)];
    let history = vec![record("A", 1, "r1")];
    apply_previous_transactions(&mut allocations, &history);
    assert_eq!(allocations, vec![owed("B", 5), owed("C", 2)]);
}

#[test]
fn plan_distribution_runs_the_whole_pipeline() {
    let bids_csv = b"bid_amount_dollars,primary_address\n100,A\n50,B\n".to_vec();
    let ledger_csv = b"recipient,amount,signature\nA,10.000000000,r1\n".to_vec();
    let remaining = plan_distribution(&bids_csv, &Some(ledger_csv), 10 * AMOUNT_SCALE).unwrap();
    assert_eq!(remaining, vec![owed("B", 5 * AMOUNT_SCALE)]);
    let fresh = plan_distribution(&bids_csv, &None, 10 * AMOUNT_SCALE).unwrap();
    assert_eq!(fresh, vec![owed("A", 10 * AMOUNT_SCALE), owed("B", 5 * AMOUNT_SCALE)]);
}
