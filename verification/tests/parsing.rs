use token_distributor::allocate::derive_allocations;
use token_distributor::amounts::{format_amount, parse_amount, AMOUNT_SCALE};
use token_distributor::ledger::{parse_transaction_infos, serialize_transaction_infos};
use token_distributor::records::{Bid, DistributeError, TransactionInfo};
use token_distributor::schedule::parse_bids;

fn amount_of(text: &str) -> Option<u64> {
    parse_amount(&text.as_bytes().to_vec())
}

#[test]
fn whole_and_fractional_amounts_parse() {
    assert_eq!(amount_of("100"), Some(100 * AMOUNT_SCALE));
    assert_eq!(amount_of("0"), Some(0));
    assert_eq!(amount_of("2.5"), Some(2 * AMOUNT_SCALE + 500_000_000));
    assert_eq!(amount_of("0.000000001"), Some(1));
    assert_eq!(amount_of("10.000000005"), Some(10 * AMOUNT_SCALE + 5));
    assert_eq!(amount_of(".5"), Some(500_000_000));
    assert_eq!(amount_of("5."), Some(5 * AMOUNT_SCALE));
    assert_eq!(amount_of("18446744073.709551615"), Some(u64::MAX));
}

#[test]
fn malformed_amounts_are_rejected() {
    assert_eq!(amount_of(""), None);
    assert_eq!(amount_of("."), None);
    assert_eq!(amount_of("-5"), None);
    assert_eq!(amount_of("1e3"), None);
    assert_eq!(amount_of("1.2.3"), None);
    assert_eq!(amount_of("12a"), None);
    assert_eq!(amount_of("1.0123456789"), None);
    assert_eq!(amount_of("18446744073.709551616"), None);
    assert_eq!(amount_of("99999999999999999999999999"), None);
}

#[test]
fn amount_text_round_trips() {
    for v in [0u64, 1, 7, AMOUNT_SCALE, 10 * AMOUNT_SCALE + 5, u64::MAX] {
        let text = format_amount(v);
        assert_eq!(parse_amount(&text), Some(v));
    }
    assert_eq!(format_amount(10 * AMOUNT_SCALE + 5), b"10.000000005".to_vec());
    assert_eq!(format_amount(0), b"0.000000000".to_vec());
}

#[test]
fn bid_fields_are_trimmed() {
    let bids_csv = b"bid_amount_dollars,primary_address\n 100 ,  A  \n".to_vec();
    let bids = parse_bids(&bids_csv).unwrap();
    assert_eq!(bids.len(), 1);
    assert_eq!(bids[0].bid_amount_dollars, 100 * AMOUNT_SCALE);
    assert_eq!(bids[0].primary_address, b"A".to_vec());
}

#[test]
fn windows_line_endings_and_blank_lines_are_handled() {
    let bids_csv = b"bid_amount_dollars,primary_address\r\n100,A\r\n\r\n50,B\r\n".to_vec();
    let bids = parse_bids(&bids_csv).unwrap();
    assert_eq!(bids.len(), 2);
    assert_eq!(bids[0].primary_address, b"A".to_vec());
    assert_eq!(bids[1].primary_address, b"B".to_vec());
}

#[test]
fn empty_schedule_holds_no_bids() {
    assert_eq!(parse_bids(&Vec::new()).unwrap(), Vec::<Bid>::new());
    let header_only = b"bid_amount_dollars,primary_address\n".to_vec();
    assert_eq!(parse_bids(&header_only).unwrap(), Vec::<Bid>::new());
}

#[test]
fn malformed_bid_rows_abort_the_load() {
    let bad_amount = b"h\nabc,A\n".to_vec();
    assert_eq!(parse_bids(&bad_amount), Err(DistributeError::MalformedRow));
    let wrong_columns = b"h\n100,A,extra\n".to_vec();
    assert_eq!(parse_bids(&wrong_columns), Err(DistributeError::MalformedRow));
    let missing_address = b"h\n100\n".to_vec();
    assert_eq!(parse_bids(&missing_address), Err(DistributeError::MalformedRow));
}

#[test]
fn malformed_ledger_rows_abort_the_load() {
    let bad = b"recipient,amount,signature\nA,ten,r1\n".to_vec();
    assert_eq!(parse_transaction_infos(&bad), Err(DistributeError::MalformedRow));
    let wrong_columns = b"recipient,amount,signature\nA,1\n".to_vec();
    assert_eq!(parse_transaction_infos(&wrong_columns), Err(DistributeError::MalformedRow));
}

#[test]
fn ledger_rows_round_trip_through_serialization() {
    let rows = vec![
        TransactionInfo {
            recipient: b"A".to_vec(),
            amount: 10 * AMOUNT_SCALE,
            signature: b"r1".to_vec(),
        },
        TransactionInfo {
            recipient: b"B".to_vec(),
            amount: 2 * AMOUNT_SCALE + 500_000_000,
            signature: b"r2".to_vec(),
        },
    ];
    let text = serialize_transaction_infos(&rows, true);
    let back = parse_transaction_infos(&text).unwrap();
    assert_eq!(back, rows);
    // appending headerless rows to an existing ledger parses as one history
    let mut grown = text.clone();
    let more = vec![TransactionInfo {
        recipient: b"C".to_vec(),
        amount: 7,
        signature: b"r3".to_vec(),
    }];
    grown.extend_from_slice(&serialize_transaction_infos(&more, false));
    let all = parse_transaction_infos(&grown).unwrap();
    assert_eq!(all.len(), 3);
    assert_eq!(all[2], more[0]);
}

#[test]
fn zero_rate_is_rejected() {
    let bids = vec![Bid { bid_amount_dollars: AMOUNT_SCALE, primary_address: b"A".to_vec() }];
    assert_eq!(derive_allocations(&bids, 0), Err(DistributeError::ZeroRate));
}

#[test]
fn unrepresentable_conversion_is_rejected() {
    let bids = vec![Bid { bid_amount_dollars: u64::MAX, primary_address: b"A".to_vec() }];
    assert_eq!(derive_allocations(&bids, 1), Err(DistributeError::AmountOverflow));
}

#[test]
fn conversion_truncates_toward_zero() {
    // $1 at $3 per unit: 333333333.33… base units, truncated
    let bids = vec![Bid { bid_amount_dollars: AMOUNT_SCALE, primary_address: b"A".to_vec() }];
    let allocs = derive_allocations(&bids, 3 * AMOUNT_SCALE).unwrap();
    assert_eq!(allocs[0].amount, 333_333_333);
}
