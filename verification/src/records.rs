//! The data model: bids, allocations and ledger records.
//!
//! Amounts are fixed-point integers, [`crate::amounts::AMOUNT_SCALE`] base
//! units per whole unit of the currency in question.  Addresses, receipts
//! and parsed text fields are byte strings.

use vstd::prelude::*;

verus! {

/// One row of the bid schedule: a requested amount in the reference
/// currency (fixed-point) and the recipient's address.
#[derive(Debug, Clone, PartialEq, Eq)]
pub struct Bid {
    pub bid_amount_dollars: u64,
    pub primary_address: Vec<u8>,
}

/// The remaining obligation towards one recipient, in native base units.
#[derive(Debug, Clone, PartialEq, Eq)]
pub struct Allocation {
    pub recipient: Vec<u8>,
    pub amount: u64,
}

/// One durable ledger row: a confirmed disbursement and its receipt.
#[derive(Debug, Clone, PartialEq, Eq)]
pub struct TransactionInfo {
    pub recipient: Vec<u8>,
    pub amount: u64,
    pub signature: Vec<u8>,
}

/// The errors a run can fail with before any transfer is attempted.
#[derive(Debug, Clone, Copy, PartialEq, Eq, Structural)]
pub enum DistributeError {
    /// A bid or ledger row is malformed: wrong number of columns, or an
    /// amount that is not an unsigned decimal representable in fixed point.
    MalformedRow,
    /// The conversion rate is zero.
    ZeroRate,
    /// A bid converts to more native base units than an amount can hold.
    AmountOverflow,
}

/// Mathematical model of a [`Bid`].
#[verifier::ext_equal]
pub struct BidV {
    pub amount: int,
    pub address: Seq<u8>,
}

/// Mathematical model of an [`Allocation`].
#[verifier::ext_equal]
pub struct AllocationV {
    pub recipient: Seq<u8>,
    pub amount: int,
}

/// Mathematical model of a [`TransactionInfo`].
#[verifier::ext_equal]
pub struct TransactionInfoV {
    pub recipient: Seq<u8>,
    pub amount: int,
    pub signature: Seq<u8>,
}

impl DeepView for Bid {
    type V = BidV;

    open spec fn deep_view(&self) -> BidV {
        BidV { amount: self.bid_amount_dollars as int, address: self.primary_address@ }
    }
}

impl DeepView for Allocation {
    type V = AllocationV;

    open spec fn deep_view(&self) -> AllocationV {
        AllocationV { recipient: self.recipient@, amount: self.amount as int }
    }
}

impl DeepView for TransactionInfo {
    type V = TransactionInfoV;

    open spec fn deep_view(&self) -> TransactionInfoV {
        TransactionInfoV {
            recipient: self.recipient@,
            amount: self.amount as int,
            signature: self.signature@,
        }
    }
}

} // verus!
