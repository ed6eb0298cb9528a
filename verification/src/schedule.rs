//! The bid loader: parses the bid schedule.
//!
//! The schedule is a comma-separated table with a header row and two
//! columns: the requested amount (unsigned decimal, reference currency)
//! and the recipient's address.  Fields are trimmed of surrounding
//! whitespace.  A malformed row is fatal for the whole load; row order is
//! kept and duplicate recipients are not merged.

use vstd::prelude::*;

use crate::amounts::{parse_amount, spec_parse_amount};
use crate::records::{Bid, BidV, DistributeError};
use crate::table::{lines_of, split_bytes, split_on, trim_bytes, trimmed};

verus! {

/// The bid one schedule row denotes, if the row is well formed.
pub open spec fn bid_of_line(l: Seq<u8>) -> Option<BidV> {
    let fields = split_on(l, 44);
    if fields.len() == 2 {
        match spec_parse_amount(trimmed(fields[0])) {
            Some(v) => Some(BidV { amount: v as int, address: trimmed(fields[1]) }),
            None => None,
        }
    } else {
        None
    }
}

/// The bids a row list denotes: all rows well formed, in order, or nothing.
pub open spec fn bids_of_lines(ls: Seq<Seq<u8>>) -> Option<Seq<BidV>>
    decreases ls.len(),
{
    if ls.len() == 0 {
        Some(Seq::empty())
    } else {
        match (bid_of_line(ls[0]), bids_of_lines(ls.drop_first())) {
            (Some(b), Some(rest)) => Some(seq![b] + rest),
            _ => None,
        }
    }
}

/// What parsing a bid schedule returns: the bids of every row after the
/// header, in row order; an empty buffer holds no bids; any malformed row
/// fails the whole load.
pub open spec fn spec_parse_bids(s: Seq<u8>) -> Option<Seq<BidV>> {
    let ls = lines_of(s);
    if ls.len() == 0 {
        Some(Seq::empty())
    } else {
        bids_of_lines(ls.drop_first())
    }
}

/// Parsing distributes over row concatenation, all-or-nothing.
pub proof fn lemma_bids_append(a: Seq<Seq<u8>>, b: Seq<Seq<u8>>)
    ensures
        bids_of_lines(a + b) == match (bids_of_lines(a), bids_of_lines(b)) {
            (Some(x), Some(y)) => Some(x + y),
            _ => None::<Seq<BidV>>,
        },
    decreases a.len(),
{
    if a.len() == 0 {
        assert(a + b =~~= b);
        if bids_of_lines(b) is Some {
            assert(Seq::<BidV>::empty() + bids_of_lines(b).unwrap() =~= bids_of_lines(b).unwrap());
        }
    } else {
        assert((a + b)[0] == a[0]);
        assert((a + b).drop_first() =~~= a.drop_first() + b);
        lemma_bids_append(a.drop_first(), b);
        match (bid_of_line(a[0]), bids_of_lines(a.drop_first()), bids_of_lines(b)) {
            (Some(h), Some(x), Some(y)) => {
                assert(seq![h] + (x + y) =~= (seq![h] + x) + y);
            },
            _ => {},
        }
    }
}

/// Parses one schedule row.
fn parse_bid_line(l: &Vec<u8>) -> (r: Option<Bid>)
    ensures
        match r {
            Some(b) => bid_of_line(l@) == Some(b.deep_view()),
            None => bid_of_line(l@) is None,
        },
{
    let fields = split_bytes(l, 44);
    proof {
        assert(fields@.len() == split_on(l@, 44).len());
    }
    if fields.len() != 2 {
        return None;
    }
    let amount_field = trim_bytes(&fields[0]);
    let address = trim_bytes(&fields[1]);
    proof {
        assert(fields[0 as int]@ == split_on(l@, 44)[0]);
        assert(fields[1 as int]@ == split_on(l@, 44)[1]);
    }
    match parse_amount(&amount_field) {
        Some(v) => Some(Bid { bid_amount_dollars: v, primary_address: address }),
        None => None,
    }
}

/// Parses the whole bid schedule.  Returns the bids of every row after the
/// header, in row order, or [`DistributeError::MalformedRow`] exactly when
/// some row is malformed.
pub fn parse_bids(content: &Vec<u8>) -> (r: Result<Vec<Bid>, DistributeError>)
    ensures
        match r {
            Ok(bs) => spec_parse_bids(content@) == Some(bs.deep_view()),
            Err(e) => spec_parse_bids(content@) is None && e == DistributeError::MalformedRow,
        },
{
    let mut lines = crate::table::split_clean_lines(content);
    if lines.len() == 0 {
        let out: Vec<Bid> = Vec::new();
        proof {
            assert(out.deep_view() =~= Seq::<BidV>::empty());
        }
        return Ok(out);
    }
    let _header = lines.remove(0);
    let ghost rows = lines.deep_view();
    proof {
        assert(rows =~~= lines_of(content@).drop_first());
    }
    let mut out: Vec<Bid> = Vec::new();
    let mut k: usize = 0;
    proof {
        assert(rows.take(0) =~~= Seq::<Seq<u8>>::empty());
        assert(out.deep_view() =~= Seq::<BidV>::empty());
        assert(bids_of_lines(rows.take(0)) == Some(Seq::<BidV>::empty()));
        assert(Seq::<BidV>::empty() =~= out.deep_view());
    }
    while k < lines.len()
        invariant
            k <= lines@.len(),
            rows == lines.deep_view(),
            rows.len() == lines@.len(),
            lines_of(content@).len() > 0,
            rows == lines_of(content@).drop_first(),
            bids_of_lines(rows.take(k as int)) == Some(out.deep_view()),
        decreases lines@.len() - k,
    {
        let line = &lines[k];
        proof {
            assert(line@ == rows[k as int]);
        }
        match parse_bid_line(line) {
            Some(b) => {
                let ghost out_before = out.deep_view();
                out.push(b);
                proof {
                    assert(out.deep_view() =~= out_before.push(b.deep_view()));
                    assert(rows.take(k as int + 1) =~~= rows.take(k as int) + seq![rows[k as int]]);
                    lemma_bids_append(rows.take(k as int), seq![rows[k as int]]);
                    assert(seq![rows[k as int]][0] == rows[k as int]);
                    assert(seq![rows[k as int]].drop_first() =~~= Seq::<Seq<u8>>::empty());
                    assert(bids_of_lines(Seq::<Seq<u8>>::empty()) == Some(Seq::<BidV>::empty()));
                    assert(seq![b.deep_view()] + Seq::<BidV>::empty() =~= seq![b.deep_view()]);
                    assert(bids_of_lines(seq![rows[k as int]]) == Some(seq![b.deep_view()]));
                    assert(out_before + seq![b.deep_view()] =~= out_before.push(b.deep_view()));
                }
            },
            None => {
                proof {
                    assert(rows =~~= rows.take(k as int) + rows.skip(k as int));
                    lemma_bids_append(rows.take(k as int), rows.skip(k as int));
                    assert(rows.skip(k as int)[0] == rows[k as int]);
                    assert(bids_of_lines(rows.skip(k as int)) is None);
                }
                return Err(DistributeError::MalformedRow);
            },
        }
        k += 1;
    }
    proof {
        assert(rows.take(rows.len() as int) =~~= rows);
    }
    Ok(out)
}

} // verus!
