//! Deriving allocations from bids: one allocation per bid, in bid order,
//! at a uniform conversion rate.
//!
//! A bid asks for an amount of the reference currency; the allocation owes
//! `bid * AMOUNT_SCALE / rate` native base units (the quotient of the two
//! fixed-point values, carried to base-unit precision and truncated).

use vstd::prelude::*;

use crate::amounts::AMOUNT_SCALE;
use crate::records::{Allocation, AllocationV, Bid, BidV, DistributeError};
use crate::reconcile::copy_bytes;

verus! {

/// The native base units a bid converts to at a conversion rate.
pub open spec fn allocation_value(bid_amount: int, rate: int) -> int {
    bid_amount * (AMOUNT_SCALE as int) / rate
}

/// The allocation a bid derives to at a conversion rate.
pub open spec fn allocation_of(bid: BidV, rate: int) -> AllocationV {
    AllocationV { recipient: bid.address, amount: allocation_value(bid.amount, rate) }
}

/// Derives one allocation from one bid.  The rate must be positive and the
/// converted amount representable; `derive_allocations` checks both.
pub fn create_allocation(bid: &Bid, dollars_per_sol: u64) -> (r: Allocation)
    requires
        dollars_per_sol > 0,
        allocation_value(bid.bid_amount_dollars as int, dollars_per_sol as int) <= u64::MAX,
    ensures
        r.deep_view() == allocation_of(bid.deep_view(), dollars_per_sol as int),
{
    let amount_wide = (bid.bid_amount_dollars as u128) * (AMOUNT_SCALE as u128) / (dollars_per_sol
        as u128);
    proof {
        assert(amount_wide == allocation_value(bid.bid_amount_dollars as int, dollars_per_sol as int));
        assert(amount_wide >= 0);
    }
    Allocation { recipient: copy_bytes(&bid.primary_address), amount: amount_wide as u64 }
}

/// What deriving a whole bid list returns: the allocations in bid order,
/// or the error that stops the run.
pub open spec fn spec_derive_allocations(bids: Seq<BidV>, rate: int) -> Result<
    Seq<AllocationV>,
    DistributeError,
> {
    if rate <= 0 {
        Err(DistributeError::ZeroRate)
    } else if exists|i: int|
        0 <= i < bids.len() && allocation_value(#[trigger] bids[i].amount, rate) > u64::MAX {
        Err(DistributeError::AmountOverflow)
    } else {
        Ok(Seq::new(bids.len(), |i: int| allocation_of(bids[i], rate)))
    }
}

/// Derives the allocation list from the bid list at a conversion rate, in
/// bid order; duplicates by recipient are kept, not merged.  Fails exactly
/// when the rate is zero or some bid converts to an unrepresentable
/// amount.
pub fn derive_allocations(bids: &Vec<Bid>, dollars_per_sol: u64) -> (r: Result<
    Vec<Allocation>,
    DistributeError,
>)
    ensures
        match r {
            Ok(allocs) => spec_derive_allocations(bids.deep_view(), dollars_per_sol as int) == Ok::<
                Seq<AllocationV>,
                DistributeError,
            >(allocs.deep_view()),
            Err(e) => spec_derive_allocations(bids.deep_view(), dollars_per_sol as int) == Err::<
                Seq<AllocationV>,
                DistributeError,
            >(e),
        },
{
    if dollars_per_sol == 0 {
        return Err(DistributeError::ZeroRate);
    }
    let ghost bv = bids.deep_view();
    let mut out: Vec<Allocation> = Vec::new();
    let mut k: usize = 0;
    while k < bids.len()
        invariant
            k <= bids@.len(),
            bv == bids.deep_view(),
            bv.len() == bids@.len(),
            dollars_per_sol > 0,
            out@.len() == k,
            forall|i: int|
                0 <= i < k ==> allocation_value(#[trigger] bv[i].amount, dollars_per_sol as int)
                    <= u64::MAX,
            forall|i: int|
                0 <= i < k ==> #[trigger] out.deep_view()[i] == allocation_of(
                    bv[i],
                    dollars_per_sol as int,
                ),
        decreases bids@.len() - k,
    {
        let bid = &bids[k];
        proof {
            assert(bid.deep_view() == bv[k as int]);
        }
        let amount_wide = (bid.bid_amount_dollars as u128) * (AMOUNT_SCALE as u128) / (
        dollars_per_sol as u128);
        if amount_wide > u64::MAX as u128 {
            proof {
                assert(allocation_value(bv[k as int].amount, dollars_per_sol as int) > u64::MAX);
            }
            return Err(DistributeError::AmountOverflow);
        }
        let ghost out_before = out.deep_view();
        let row = create_allocation(bid, dollars_per_sol);
        out.push(row);
        proof {
            assert(out.deep_view() =~= out_before.push(row.deep_view()));
        }
        k += 1;
    }
    proof {
        assert(spec_derive_allocations(bv, dollars_per_sol as int) == Ok::<
            Seq<AllocationV>,
            DistributeError,
        >(Seq::new(bv.len(), |i: int| allocation_of(bv[i], dollars_per_sol as int))));
        assert(out.deep_view() =~= Seq::new(
            bv.len(),
            |i: int| allocation_of(bv[i], dollars_per_sol as int),
        ));
    }
    Ok(out)
}

} // verus!
