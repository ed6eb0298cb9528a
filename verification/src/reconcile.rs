//! The reconciliation engine.
//!
//! Given freshly derived allocations (in bid order) and the full ledger
//! history (in append order), every historical record's amount is charged
//! against the current allocation list positionally: scanning left to
//! right, the first allocation whose amount covers the remaining debit
//! absorbs it; smaller allocations are consumed whole and the debit
//! carries on; a debit that outlives the whole list is dropped.  After all
//! records are applied, allocations that reached zero are pruned.
//!
//! The positional (rather than per-recipient) attribution is deliberate
//! and only sound while the bid schedule's row order and recipient set
//! stay stable across runs; this engine keeps that behaviour, and the
//! laws below are stated over it.

use vstd::prelude::*;

use crate::records::{Allocation, AllocationV, TransactionInfo, TransactionInfoV};

verus! {

/// The amounts of a list of allocations, in list order.
pub open spec fn amounts_of(allocs: Seq<AllocationV>) -> Seq<int> {
    allocs.map_values(|a: AllocationV| a.amount)
}

/// The amounts of a list of ledger records, in append order.
pub open spec fn record_amounts(infos: Seq<TransactionInfoV>) -> Seq<int> {
    infos.map_values(|t: TransactionInfoV| t.amount)
}

/// One historical debit charged against the amounts, first-match, left to
/// right, with partial consumption; an unconsumed remainder is dropped.
pub open spec fn apply_debit(amts: Seq<int>, debit: int) -> Seq<int>
    decreases amts.len(),
{
    if amts.len() == 0 {
        amts
    } else if amts[0] >= debit {
        seq![amts[0] - debit] + amts.drop_first()
    } else {
        seq![0int] + apply_debit(amts.drop_first(), debit - amts[0])
    }
}

/// All historical debits charged in ledger order.
pub open spec fn replay(amts: Seq<int>, debits: Seq<int>) -> Seq<int>
    decreases debits.len(),
{
    if debits.len() == 0 {
        amts
    } else {
        replay(apply_debit(amts, debits[0]), debits.drop_first())
    }
}

/// The allocations with their amounts replaced positionally.
pub open spec fn with_amounts(allocs: Seq<AllocationV>, amts: Seq<int>) -> Seq<AllocationV> {
    Seq::new(allocs.len(), |i: int| AllocationV { recipient: allocs[i].recipient, amount: amts[i] })
}

/// Allocations that reached zero (or below) are removed, order kept.
pub open spec fn prune(allocs: Seq<AllocationV>) -> Seq<AllocationV>
    decreases allocs.len(),
{
    if allocs.len() == 0 {
        allocs
    } else if allocs[0].amount > 0 {
        seq![allocs[0]] + prune(allocs.drop_first())
    } else {
        prune(allocs.drop_first())
    }
}

/// The whole pass: replay the ledger, then prune.
pub open spec fn reconciled(allocs: Seq<AllocationV>, debits: Seq<int>) -> Seq<AllocationV> {
    prune(with_amounts(allocs, replay(amounts_of(allocs), debits)))
}

pub open spec fn all_nonneg(s: Seq<int>) -> bool {
    forall|i: int| 0 <= i < s.len() ==> s[i] >= 0
}

/// The total of a sequence of amounts.
pub open spec fn sum(s: Seq<int>) -> int
    decreases s.len(),
{
    if s.len() == 0 {
        0
    } else {
        s[0] + sum(s.drop_first())
    }
}

/// The positive entries of a sequence, in order: the amounts that survive
/// pruning.
pub open spec fn pos_filter(s: Seq<int>) -> Seq<int>
    decreases s.len(),
{
    if s.len() == 0 {
        s
    } else if s[0] > 0 {
        seq![s[0]] + pos_filter(s.drop_first())
    } else {
        pos_filter(s.drop_first())
    }
}

/// The recipients of a list of allocations, in list order.
pub open spec fn recipients_of(allocs: Seq<AllocationV>) -> Seq<Seq<u8>> {
    allocs.map_values(|a: AllocationV| a.recipient)
}

/// `s` appears inside `t` in order (not necessarily contiguously).
pub open spec fn is_subseq_of<A>(s: Seq<A>, t: Seq<A>) -> bool
    decreases s.len() + t.len(),
{
    if s.len() == 0 {
        true
    } else if t.len() == 0 {
        false
    } else {
        (s[0] == t[0] && is_subseq_of(s.drop_first(), t.drop_first())) || is_subseq_of(
            s,
            t.drop_first(),
        )
    }
}

pub proof fn lemma_apply_debit_len(amts: Seq<int>, debit: int)
    ensures
        apply_debit(amts, debit).len() == amts.len(),
    decreases amts.len(),
{
    if amts.len() == 0 {
    } else if amts[0] >= debit {
    } else {
        lemma_apply_debit_len(amts.drop_first(), debit - amts[0]);
    }
}

pub proof fn lemma_replay_len(amts: Seq<int>, debits: Seq<int>)
    ensures
        replay(amts, debits).len() == amts.len(),
    decreases debits.len(),
{
    if debits.len() == 0 {
    } else {
        lemma_apply_debit_len(amts, debits[0]);
        lemma_replay_len(apply_debit(amts, debits[0]), debits.drop_first());
    }
}

/// Replaying one more debit is charging it against the replayed state.
pub proof fn lemma_replay_snoc(amts: Seq<int>, debits: Seq<int>, debit: int)
    ensures
        replay(amts, debits.push(debit)) == apply_debit(replay(amts, debits), debit),
    decreases debits.len(),
{
    if debits.len() == 0 {
        assert(debits.push(debit)[0] == debit);
        assert(debits.push(debit).drop_first() =~= Seq::<int>::empty());
        assert(replay(apply_debit(amts, debit), Seq::<int>::empty()) == apply_debit(amts, debit));
        assert(replay(amts, Seq::<int>::empty()) == amts);
    } else {
        assert(debits.push(debit)[0] == debits[0]);
        assert(debits.push(debit).drop_first() =~= debits.drop_first().push(debit));
        lemma_replay_snoc(apply_debit(amts, debits[0]), debits.drop_first(), debit);
    }
}

/// Replaying a concatenation of ledgers is replaying one after the other.
pub proof fn lemma_replay_append(amts: Seq<int>, debits: Seq<int>, more: Seq<int>)
    ensures
        replay(amts, debits + more) == replay(replay(amts, debits), more),
    decreases debits.len(),
{
    if debits.len() == 0 {
        assert(debits + more =~= more);
    } else {
        assert((debits + more).drop_first() =~= debits.drop_first() + more);
        assert((debits + more)[0] == debits[0]);
        lemma_replay_append(apply_debit(amts, debits[0]), debits.drop_first(), more);
    }
}

/// Charging a debit never drives an amount below zero and never raises one.
pub proof fn lemma_apply_debit_bounds(amts: Seq<int>, debit: int)
    requires
        all_nonneg(amts),
        debit >= 0,
    ensures
        apply_debit(amts, debit).len() == amts.len(),
        forall|i: int|
            0 <= i < amts.len() ==> 0 <= #[trigger] apply_debit(amts, debit)[i] <= amts[i],
    decreases amts.len(),
{
    lemma_apply_debit_len(amts, debit);
    if amts.len() == 0 {
    } else if amts[0] >= debit {
        assert forall|i: int| 0 <= i < amts.len() implies 0 <= #[trigger] apply_debit(amts, debit)[i]
            <= amts[i] by {
            if i > 0 {
                assert(apply_debit(amts, debit)[i] == amts.drop_first()[i - 1]);
            }
        }
    } else {
        assert(all_nonneg(amts.drop_first()));
        lemma_apply_debit_bounds(amts.drop_first(), debit - amts[0]);
        assert forall|i: int| 0 <= i < amts.len() implies 0 <= #[trigger] apply_debit(amts, debit)[i]
            <= amts[i] by {
            if i > 0 {
                assert(apply_debit(amts, debit)[i] == apply_debit(
                    amts.drop_first(),
                    debit - amts[0],
                )[i - 1]);
                assert(amts.drop_first()[i - 1] == amts[i]);
            }
        }
    }
}

/// Replay never drives an amount below zero and never raises one.
pub proof fn lemma_replay_bounds(amts: Seq<int>, debits: Seq<int>)
    requires
        all_nonneg(amts),
        all_nonneg(debits),
    ensures
        replay(amts, debits).len() == amts.len(),
        forall|i: int|
            0 <= i < amts.len() ==> 0 <= #[trigger] replay(amts, debits)[i] <= amts[i],
    decreases debits.len(),
{
    lemma_replay_len(amts, debits);
    if debits.len() == 0 {
    } else {
        assert(debits[0] >= 0);
        lemma_apply_debit_bounds(amts, debits[0]);
        assert(all_nonneg(apply_debit(amts, debits[0])));
        assert(all_nonneg(debits.drop_first()));
        lemma_replay_bounds(apply_debit(amts, debits[0]), debits.drop_first());
    }
}

pub proof fn lemma_sum_nonneg(s: Seq<int>)
    requires
        all_nonneg(s),
    ensures
        sum(s) >= 0,
    decreases s.len(),
{
    if s.len() > 0 {
        assert(all_nonneg(s.drop_first()));
        lemma_sum_nonneg(s.drop_first());
    }
}

/// One debit takes exactly itself out of the total, capped by the total.
pub proof fn lemma_apply_debit_sum(amts: Seq<int>, debit: int)
    requires
        all_nonneg(amts),
        debit >= 0,
    ensures
        sum(apply_debit(amts, debit)) == if sum(amts) <= debit {
            0
        } else {
            sum(amts) - debit
        },
    decreases amts.len(),
{
    if amts.len() == 0 {
    } else {
        assert(all_nonneg(amts.drop_first()));
        lemma_sum_nonneg(amts.drop_first());
        if amts[0] >= debit {
            let r = apply_debit(amts, debit);
            assert(r.drop_first() =~= amts.drop_first());
            assert(sum(r) == (amts[0] - debit) + sum(amts.drop_first()));
        } else {
            lemma_apply_debit_sum(amts.drop_first(), debit - amts[0]);
            let r = apply_debit(amts, debit);
            assert(r.drop_first() =~= apply_debit(amts.drop_first(), debit - amts[0]));
            assert(sum(r) == 0 + sum(apply_debit(amts.drop_first(), debit - amts[0])));
        }
    }
}

/// CONSERVATION (totals): replaying a ledger takes exactly the ledger's
/// total out of the allocations' total, capped at zero; an over-payment
/// remainder is dropped, never owed back.
pub proof fn lemma_replay_sum(amts: Seq<int>, debits: Seq<int>)
    requires
        all_nonneg(amts),
        all_nonneg(debits),
    ensures
        sum(replay(amts, debits)) == if sum(amts) <= sum(debits) {
            0
        } else {
            sum(amts) - sum(debits)
        },
    decreases debits.len(),
{
    if debits.len() == 0 {
        lemma_sum_nonneg(amts);
    } else {
        assert(debits[0] >= 0);
        lemma_apply_debit_bounds(amts, debits[0]);
        lemma_apply_debit_sum(amts, debits[0]);
        assert(all_nonneg(apply_debit(amts, debits[0])));
        assert(all_nonneg(debits.drop_first()));
        lemma_replay_sum(apply_debit(amts, debits[0]), debits.drop_first());
        lemma_sum_nonneg(debits.drop_first());
        lemma_sum_nonneg(amts);
    }
}

/// What the replay consumed at one list position.
pub open spec fn consumed_at(allocs: Seq<AllocationV>, debits: Seq<int>, i: int) -> int {
    amounts_of(allocs)[i] - replay(amounts_of(allocs), debits)[i]
}

/// CONSERVATION: for every position, the surviving amount plus the amount
/// the replay attributed to that position is exactly the original
/// bid-derived amount, the attributed amount never exceeds the original,
/// and in total the ledger's sum is taken out of the allocations' sum,
/// capped at zero.
pub proof fn lemma_reconcile_conservation(allocs: Seq<AllocationV>, debits: Seq<int>)
    requires
        all_nonneg(amounts_of(allocs)),
        all_nonneg(debits),
    ensures
        replay(amounts_of(allocs), debits).len() == allocs.len(),
        forall|i: int|
            0 <= i < allocs.len() ==> #[trigger] replay(amounts_of(allocs), debits)[i]
                + consumed_at(allocs, debits, i) == amounts_of(allocs)[i],
        forall|i: int|
            0 <= i < allocs.len() ==> 0 <= #[trigger] consumed_at(allocs, debits, i)
                <= amounts_of(allocs)[i],
        forall|i: int|
            0 <= i < allocs.len() ==> 0 <= #[trigger] replay(amounts_of(allocs), debits)[i]
                <= amounts_of(allocs)[i],
        sum(replay(amounts_of(allocs), debits)) == if sum(amounts_of(allocs)) <= sum(debits) {
            0
        } else {
            sum(amounts_of(allocs)) - sum(debits)
        },
{
    lemma_replay_bounds(amounts_of(allocs), debits);
    lemma_replay_sum(amounts_of(allocs), debits);
}

/// Every entry of `pos_filter` is positive.
pub proof fn lemma_pos_filter_pos(s: Seq<int>)
    ensures
        forall|i: int| 0 <= i < pos_filter(s).len() ==> #[trigger] pos_filter(s)[i] > 0,
    decreases s.len(),
{
    if s.len() > 0 {
        lemma_pos_filter_pos(s.drop_first());
        if s[0] > 0 {
            assert forall|i: int| 0 <= i < pos_filter(s).len() implies #[trigger] pos_filter(s)[i]
                > 0 by {
                if i > 0 {
                    assert(pos_filter(s)[i] == pos_filter(s.drop_first())[i - 1]);
                }
            }
        }
    }
}

/// A zero in front is transparent to a replay of positive debits.
proof fn lemma_replay_zero_head(rest: Seq<int>, debits: Seq<int>)
    requires
        forall|i: int| 0 <= i < debits.len() ==> debits[i] > 0,
    ensures
        replay(seq![0int] + rest, debits) == seq![0int] + replay(rest, debits),
    decreases debits.len(),
{
    let b = seq![0int] + rest;
    if debits.len() == 0 {
    } else {
        assert(b[0] == 0);
        assert(debits[0] > 0);
        assert(b.drop_first() =~= rest);
        assert(apply_debit(b, debits[0]) =~= seq![0int] + apply_debit(rest, debits[0]));
        lemma_replay_zero_head(apply_debit(rest, debits[0]), debits.drop_first());
    }
}

/// Replaying a list's own surviving amounts zeroes the list out.
pub proof fn lemma_replay_pos_filter(b: Seq<int>)
    requires
        all_nonneg(b),
    ensures
        replay(b, pos_filter(b)).len() == b.len(),
        forall|i: int| 0 <= i < b.len() ==> #[trigger] replay(b, pos_filter(b))[i] == 0,
    decreases b.len(),
{
    lemma_pos_filter_pos(b);
    if b.len() == 0 {
    } else {
        let rest = b.drop_first();
        assert(all_nonneg(rest));
        lemma_replay_pos_filter(rest);
        lemma_pos_filter_pos(rest);
        if b[0] > 0 {
            assert(pos_filter(b) =~= seq![b[0]] + pos_filter(rest));
            assert(apply_debit(b, b[0]) =~= seq![0int] + rest);
            assert(pos_filter(b).drop_first() =~= pos_filter(rest));
            lemma_replay_zero_head(rest, pos_filter(rest));
            assert(replay(b, pos_filter(b)) == replay(
                seq![0int] + rest,
                pos_filter(rest),
            ));
            lemma_replay_len(rest, pos_filter(rest));
        } else {
            assert(b[0] == 0);
            assert(pos_filter(b) =~= pos_filter(rest));
            assert(b =~= seq![0int] + rest);
            lemma_replay_zero_head(rest, pos_filter(rest));
            lemma_replay_len(rest, pos_filter(rest));
        }
    }
}

/// Pruning distributes over concatenation.
pub proof fn lemma_prune_append(x: Seq<AllocationV>, y: Seq<AllocationV>)
    ensures
        prune(x + y) == prune(x) + prune(y),
    decreases x.len(),
{
    if x.len() == 0 {
        assert(x + y =~= y);
        assert(prune(x) + prune(y) =~= prune(y));
    } else {
        assert((x + y)[0] == x[0]);
        assert((x + y).drop_first() =~= x.drop_first() + y);
        lemma_prune_append(x.drop_first(), y);
        if x[0].amount > 0 {
            assert(seq![x[0]] + (prune(x.drop_first()) + prune(y)) =~= (seq![x[0]] + prune(
                x.drop_first(),
            )) + prune(y));
        }
    }
}

/// NON-NEGATIVITY: every pruned allocation's amount is strictly positive.
pub proof fn lemma_prune_positive(x: Seq<AllocationV>)
    ensures
        forall|i: int| 0 <= i < prune(x).len() ==> #[trigger] prune(x)[i].amount > 0,
    decreases x.len(),
{
    if x.len() > 0 {
        lemma_prune_positive(x.drop_first());
        if x[0].amount > 0 {
            assert forall|i: int| 0 <= i < prune(x).len() implies #[trigger] prune(x)[i].amount
                > 0 by {
                if i > 0 {
                    assert(prune(x)[i] == prune(x.drop_first())[i - 1]);
                }
            }
        }
    }
}

/// Pruning a list whose amounts are all zero or below leaves nothing.
pub proof fn lemma_prune_none(x: Seq<AllocationV>)
    requires
        forall|i: int| 0 <= i < x.len() ==> #[trigger] x[i].amount <= 0,
    ensures
        prune(x) == Seq::<AllocationV>::empty(),
    decreases x.len(),
{
    if x.len() > 0 {
        assert(x[0].amount <= 0);
        assert(forall|i: int|
            0 <= i < x.drop_first().len() ==> #[trigger] x.drop_first()[i].amount <= 0);
        lemma_prune_none(x.drop_first());
    }
}

/// Pruned amounts are the positive entries of the amounts.
pub proof fn lemma_prune_amounts(x: Seq<AllocationV>)
    ensures
        amounts_of(prune(x)) == pos_filter(amounts_of(x)),
    decreases x.len(),
{
    if x.len() == 0 {
        assert(amounts_of(prune(x)) =~= pos_filter(amounts_of(x)));
    } else {
        lemma_prune_amounts(x.drop_first());
        assert(amounts_of(x.drop_first()) =~= amounts_of(x).drop_first());
        assert(amounts_of(x)[0] == x[0].amount);
        if x[0].amount > 0 {
            assert(amounts_of(seq![x[0]] + prune(x.drop_first())) =~= seq![x[0].amount]
                + amounts_of(prune(x.drop_first())));
            assert(pos_filter(amounts_of(x)) =~= seq![x[0].amount] + pos_filter(
                amounts_of(x).drop_first(),
            ));
        }
    }
}

/// IDEMPOTENCE UNDER FULL LEDGER REPLAY: reconcile once, append exactly
/// the surviving amounts to the ledger, and a second reconciliation of the
/// same allocations against the grown ledger leaves no work at all.
pub proof fn lemma_reconcile_idempotent(allocs: Seq<AllocationV>, debits: Seq<int>)
    requires
        all_nonneg(amounts_of(allocs)),
        all_nonneg(debits),
    ensures
        reconciled(allocs, debits + amounts_of(reconciled(allocs, debits)))
            == Seq::<AllocationV>::empty(),
{
    let a = amounts_of(allocs);
    let r = replay(a, debits);
    lemma_replay_bounds(a, debits);
    assert(all_nonneg(r));
    let staged = with_amounts(allocs, r);
    assert(amounts_of(staged) =~= r);
    lemma_prune_amounts(staged);
    assert(amounts_of(reconciled(allocs, debits)) == pos_filter(r));
    lemma_replay_append(a, debits, pos_filter(r));
    lemma_replay_pos_filter(r);
    let z = replay(r, pos_filter(r));
    assert(replay(a, debits + pos_filter(r)) == z);
    let staged2 = with_amounts(allocs, z);
    assert(forall|i: int| 0 <= i < staged2.len() ==> #[trigger] staged2[i].amount <= 0);
    lemma_prune_none(staged2);
}

/// ORDER STABILITY (helper): pruning keeps the recipients' relative order.
proof fn lemma_prune_subseq(x: Seq<AllocationV>)
    ensures
        is_subseq_of(recipients_of(prune(x)), recipients_of(x)),
    decreases x.len(),
{
    if x.len() == 0 {
        assert(recipients_of(prune(x)).len() == 0);
    } else {
        let rest = x.drop_first();
        lemma_prune_subseq(rest);
        assert(recipients_of(x).drop_first() =~= recipients_of(rest));
        if x[0].amount > 0 {
            assert(recipients_of(prune(x)) =~= seq![x[0].recipient] + recipients_of(prune(rest)));
            let s = recipients_of(prune(x));
            let t = recipients_of(x);
            assert(s[0] == t[0]);
            assert(s.drop_first() =~= recipients_of(prune(rest)));
            assert(is_subseq_of(s.drop_first(), t.drop_first()));
        } else {
            assert(recipients_of(prune(x)) == recipients_of(prune(rest)));
            let s = recipients_of(prune(x));
            let t = recipients_of(x);
            if s.len() > 0 {
                assert(is_subseq_of(s, t.drop_first()));
            }
        }
    }
}

/// ORDER STABILITY: the reconciled output's recipients are a subsequence
/// of the input's recipients; the relative order of survivors is kept.
pub proof fn lemma_reconcile_order_stable(allocs: Seq<AllocationV>, debits: Seq<int>)
    ensures
        is_subseq_of(recipients_of(reconciled(allocs, debits)), recipients_of(allocs)),
{
    let r = replay(amounts_of(allocs), debits);
    lemma_replay_len(amounts_of(allocs), debits);
    let staged = with_amounts(allocs, r);
    lemma_prune_subseq(staged);
    assert(recipients_of(staged) =~= recipients_of(allocs));
}

/// Replays the ledger history against the allocation list, positionally,
/// then removes every allocation whose amount reached zero.  The list is
/// mutated in place; afterwards it is exactly the reconciled remainder,
/// and every remaining amount is strictly positive.
pub fn apply_previous_transactions(
    allocations: &mut Vec<Allocation>,
    transaction_infos: &Vec<TransactionInfo>,
)
    ensures
        final(allocations).deep_view() == reconciled(
            old(allocations).deep_view(),
            record_amounts(transaction_infos.deep_view()),
        ),
        forall|i: int|
            0 <= i < final(allocations)@.len() ==> #[trigger] final(allocations).deep_view()[i].amount
                > 0,
{
    let ghost orig: Seq<AllocationV> = allocations.deep_view();
    let ghost debits: Seq<int> = record_amounts(transaction_infos.deep_view());
    proof {
        assert(amounts_of(orig).len() == orig.len());
        assert(debits.take(0) =~= Seq::<int>::empty());
        assert(allocations.deep_view() =~= with_amounts(orig, replay(amounts_of(orig), debits.take(0))));
    }
    let mut t: usize = 0;
    while t < transaction_infos.len()
        invariant
            t <= transaction_infos@.len(),
            debits == record_amounts(transaction_infos.deep_view()),
            debits.len() == transaction_infos@.len(),
            orig.len() == allocations@.len(),
            allocations.deep_view() == with_amounts(
                orig,
                replay(amounts_of(orig), debits.take(t as int)),
            ),
        decreases transaction_infos@.len() - t,
    {
        let ghost before = allocations.deep_view();
        let ghost base = amounts_of(before);
        proof {
            lemma_replay_len(amounts_of(orig), debits.take(t as int));
        }
        let d0 = transaction_infos[t].amount;
        proof {
            assert(transaction_infos.deep_view()[t as int] == transaction_infos@[t as int].deep_view());
            assert(debits[t as int] == d0 as int);
        }
        let mut debit: u64 = d0;
        let mut j: usize = 0;
        let mut stop: bool = false;
        proof {
            assert(base.skip(0) =~= base);
            assert(amounts_of(allocations.deep_view()).take(0) =~= Seq::<int>::empty());
        }
        while j < allocations.len() && !stop
            invariant
                j <= allocations@.len(),
                allocations@.len() == before.len(),
                base == amounts_of(before),
                base.len() == before.len(),
                forall|i: int|
                    0 <= i < before.len() ==> #[trigger] allocations.deep_view()[i].recipient
                        == before[i].recipient,
                !stop ==> forall|i: int|
                    j <= i < before.len() ==> #[trigger] allocations.deep_view()[i].amount
                        == before[i].amount,
                !stop ==> apply_debit(base, d0 as int) == amounts_of(
                    allocations.deep_view(),
                ).take(j as int) + apply_debit(base.skip(j as int), debit as int),
                stop ==> amounts_of(allocations.deep_view()) == apply_debit(base, d0 as int),
            decreases allocations@.len() - j + (if stop { 0int } else { 1int }),
        {
            let ghost prev = allocations.deep_view();
            let ghost cur = amounts_of(prev);
            let a = allocations[j].amount;
            proof {
                assert(prev[j as int].amount == before[j as int].amount);
                assert(base.skip(j as int)[0] == base[j as int]);
                assert(base[j as int] == before[j as int].amount);
                assert(base.skip(j as int).drop_first() =~= base.skip(j as int + 1));
            }
            if a >= debit {
                allocations[j].amount = a - debit;
                stop = true;
                proof {
                    let now = allocations.deep_view();
                    assert(forall|i: int|
                        0 <= i < now.len() && i != j ==> #[trigger] now[i] == prev[i]);
                    assert(now[j as int].amount == a - debit);
                    assert(forall|i: int|
                        j < i < before.len() ==> #[trigger] prev[i].amount == before[i].amount);
                    assert(apply_debit(base.skip(j as int), debit as int) =~= seq![
                        base[j as int] - debit,
                    ] + base.skip(j as int + 1));
                    assert(amounts_of(now) =~= cur.take(j as int) + (seq![base[j as int] - debit]
                        + base.skip(j as int + 1)));
                    assert(amounts_of(now) == apply_debit(base, d0 as int));
                    assert(forall|i: int|
                        0 <= i < before.len() ==> #[trigger] now[i].recipient
                            == prev[i].recipient);
                }
            } else {
                allocations[j].amount = 0;
                debit = debit - a;
                j = j + 1;
                proof {
                    let now = allocations.deep_view();
                    assert(forall|i: int|
                        0 <= i < now.len() && i != j - 1 ==> #[trigger] now[i] == prev[i]);
                    assert(now[j as int - 1].amount == 0);
                    assert(apply_debit(base.skip(j as int - 1), (debit + a) as int) =~= seq![0int]
                        + apply_debit(base.skip(j as int), debit as int));
                    assert(amounts_of(now).take(j as int) =~= cur.take(j as int - 1) + seq![0int]);
                    assert(cur.take(j as int - 1) + (seq![0int] + apply_debit(
                        base.skip(j as int),
                        debit as int,
                    )) =~= (cur.take(j as int - 1) + seq![0int]) + apply_debit(
                        base.skip(j as int),
                        debit as int,
                    ));
                    assert(apply_debit(base, d0 as int) == amounts_of(now).take(j as int)
                        + apply_debit(base.skip(j as int), debit as int));
                    assert(forall|i: int|
                        0 <= i < before.len() ==> #[trigger] now[i].recipient
                            == prev[i].recipient);
                    assert(forall|i: int|
                        j <= i < before.len() ==> #[trigger] now[i].amount == before[i].amount);
                }
            }
        }
        proof {
            let now = allocations.deep_view();
            if !stop {
                assert(j == allocations@.len());
                assert(base.skip(j as int).len() == 0);
                assert(apply_debit(base.skip(j as int), debit as int) =~= Seq::<int>::empty());
                assert(amounts_of(now).take(j as int) =~= amounts_of(now));
                assert(amounts_of(now) == apply_debit(base, d0 as int));
            }
            // fold this record into the replay
            let rt = replay(amounts_of(orig), debits.take(t as int));
            assert(base =~= rt) by {
                lemma_replay_len(amounts_of(orig), debits.take(t as int));
            }
            lemma_replay_snoc(amounts_of(orig), debits.take(t as int), debits[t as int]);
            assert(debits.take(t as int).push(debits[t as int]) =~= debits.take(t as int + 1));
            assert(amounts_of(now) == replay(amounts_of(orig), debits.take(t as int + 1)));
            lemma_replay_len(amounts_of(orig), debits.take(t as int + 1));
            let wa = with_amounts(orig, replay(amounts_of(orig), debits.take(t as int + 1)));
            assert forall|i: int| 0 <= i < now.len() implies now[i] == wa[i] by {
                assert(now[i].recipient == before[i].recipient);
                assert(before[i].recipient == orig[i].recipient);
                assert(amounts_of(now)[i] == now[i].amount);
                assert(now[i] =~= wa[i]);
            }
            assert(now =~= wa);
        }
        t += 1;
    }
    proof {
        assert(debits.take(t as int) =~= debits);
    }
    let ghost full = allocations.deep_view();
    let mut kept: Vec<Allocation> = Vec::new();
    proof {
        assert(full.take(0) =~= Seq::<AllocationV>::empty());
        assert(prune(full.take(0)) =~= Seq::<AllocationV>::empty());
        assert(kept.deep_view() =~= Seq::<AllocationV>::empty());
        assert(allocations.deep_view() =~= full.skip(0));
    }
    let mut i: usize = 0;
    let total = allocations.len();
    while i < total
        invariant
            i <= total,
            total == full.len(),
            allocations@.len() == full.len(),
            allocations.deep_view() == full,
            kept.deep_view() == prune(full.take(i as int)),
        decreases total - i,
    {
        let ghost kept_before = kept.deep_view();
        let a_amount = allocations[i].amount;
        if a_amount > 0 {
            let row = Allocation {
                recipient: copy_bytes(&allocations[i].recipient),
                amount: a_amount,
            };
            proof {
                assert(row.deep_view() == full[i as int]);
            }
            kept.push(row);
            proof {
                assert(kept.deep_view() =~= kept_before.push(full[i as int]));
            }
        }
        proof {
            assert(full.take(i as int + 1) =~= full.take(i as int) + seq![full[i as int]]);
            lemma_prune_append(full.take(i as int), seq![full[i as int]]);
            assert(seq![full[i as int]][0] == full[i as int]);
            assert(seq![full[i as int]].drop_first() =~= Seq::<AllocationV>::empty());
            assert(prune(Seq::<AllocationV>::empty()) =~= Seq::<AllocationV>::empty());
            if full[i as int].amount > 0 {
                assert(prune(seq![full[i as int]]) =~= seq![full[i as int]]);
                assert(kept.deep_view() =~= prune(full.take(i as int)) + prune(
                    seq![full[i as int]],
                ));
            } else {
                assert(prune(seq![full[i as int]]) =~= Seq::<AllocationV>::empty());
                assert(kept.deep_view() =~= prune(full.take(i as int)) + prune(
                    seq![full[i as int]],
                ));
            }
        }
        i += 1;
    }
    proof {
        assert(full.take(total as int) =~= full);
    }
    *allocations = kept;
    proof {
        lemma_prune_positive(full);
    }
}

/// Copies a byte string.
pub(crate) fn copy_bytes(src: &Vec<u8>) -> (r: Vec<u8>)
    ensures
        r@ == src@,
{
    let mut r: Vec<u8> = Vec::new();
    let mut k: usize = 0;
    while k < src.len()
        invariant
            k <= src@.len(),
            r@ == src@.take(k as int),
        decreases src@.len() - k,
    {
        r.push(src[k]);
        proof {
            assert(src@.take(k as int + 1) =~= src@.take(k as int).push(src@[k as int]));
        }
        k += 1;
    }
    proof {
        assert(src@.take(src@.len() as int) =~= src@);
    }
    r
}

} // verus!
