//! The ledger: the append-only record of completed disbursements.
//!
//! A ledger is a comma-separated table with three columns — recipient
//! address, amount (unsigned decimal, native units) and receipt — and a
//! header row written once, when the file is first created.  This module
//! parses ledger text, pairs finished allocations with their receipts, and
//! renders the rows to append; the file itself (and the backup copy taken
//! before each append) is handled by the caller, as [`plan_append`] says.

use vstd::prelude::*;

use crate::amounts::{amount_text, format_amount, parse_amount, spec_parse_amount};
use crate::records::{Allocation, AllocationV, DistributeError, TransactionInfo, TransactionInfoV};
use crate::reconcile::copy_bytes;
use crate::table::{lines_of, split_bytes, split_on, trim_bytes, trimmed};

verus! {

/// The record one ledger row denotes, if the row is well formed.
pub open spec fn record_of_line(l: Seq<u8>) -> Option<TransactionInfoV> {
    let fields = split_on(l, 44);
    if fields.len() == 3 {
        match spec_parse_amount(trimmed(fields[1])) {
            Some(v) => Some(
                TransactionInfoV {
                    recipient: trimmed(fields[0]),
                    amount: v as int,
                    signature: trimmed(fields[2]),
                },
            ),
            None => None,
        }
    } else {
        None
    }
}

/// The records a row list denotes: all rows well formed, in order, or
/// nothing.
pub open spec fn records_of_lines(ls: Seq<Seq<u8>>) -> Option<Seq<TransactionInfoV>>
    decreases ls.len(),
{
    if ls.len() == 0 {
        Some(Seq::empty())
    } else {
        match (record_of_line(ls[0]), records_of_lines(ls.drop_first())) {
            (Some(t), Some(rest)) => Some(seq![t] + rest),
            _ => None,
        }
    }
}

/// What loading a ledger returns: the records of every row after the
/// header, in append order; an empty buffer holds no records; any
/// malformed row fails the whole load.
pub open spec fn spec_parse_transaction_infos(s: Seq<u8>) -> Option<Seq<TransactionInfoV>> {
    let ls = lines_of(s);
    if ls.len() == 0 {
        Some(Seq::empty())
    } else {
        records_of_lines(ls.drop_first())
    }
}

/// Parsing distributes over row concatenation, all-or-nothing.
pub proof fn lemma_records_append(a: Seq<Seq<u8>>, b: Seq<Seq<u8>>)
    ensures
        records_of_lines(a + b) == match (records_of_lines(a), records_of_lines(b)) {
            (Some(x), Some(y)) => Some(x + y),
            _ => None::<Seq<TransactionInfoV>>,
        },
    decreases a.len(),
{
    if a.len() == 0 {
        assert(a + b =~~= b);
        if records_of_lines(b) is Some {
            assert(Seq::<TransactionInfoV>::empty() + records_of_lines(b).unwrap()
                =~= records_of_lines(b).unwrap());
        }
    } else {
        assert((a + b)[0] == a[0]);
        assert((a + b).drop_first() =~~= a.drop_first() + b);
        lemma_records_append(a.drop_first(), b);
        match (record_of_line(a[0]), records_of_lines(a.drop_first()), records_of_lines(b)) {
            (Some(h), Some(x), Some(y)) => {
                assert(seq![h] + (x + y) =~= (seq![h] + x) + y);
            },
            _ => {},
        }
    }
}

/// Parses one ledger row.
fn parse_record_line(l: &Vec<u8>) -> (r: Option<TransactionInfo>)
    ensures
        match r {
            Some(t) => record_of_line(l@) == Some(t.deep_view()),
            None => record_of_line(l@) is None,
        },
{
    let fields = split_bytes(l, 44);
    proof {
        assert(fields@.len() == split_on(l@, 44).len());
    }
    if fields.len() != 3 {
        return None;
    }
    let recipient = trim_bytes(&fields[0]);
    let amount_field = trim_bytes(&fields[1]);
    let signature = trim_bytes(&fields[2]);
    proof {
        assert(fields[0 as int]@ == split_on(l@, 44)[0]);
        assert(fields[1 as int]@ == split_on(l@, 44)[1]);
        assert(fields[2 as int]@ == split_on(l@, 44)[2]);
    }
    match parse_amount(&amount_field) {
        Some(v) => Some(TransactionInfo { recipient, amount: v, signature }),
        None => None,
    }
}

/// Parses the whole ledger.  Returns the records of every row after the
/// header, in append order, or [`DistributeError::MalformedRow`] exactly
/// when some row is malformed.
pub fn parse_transaction_infos(content: &Vec<u8>) -> (r: Result<
    Vec<TransactionInfo>,
    DistributeError,
>)
    ensures
        match r {
            Ok(ts) => spec_parse_transaction_infos(content@) == Some(ts.deep_view()),
            Err(e) => spec_parse_transaction_infos(content@) is None && e
                == DistributeError::MalformedRow,
        },
{
    let mut lines = crate::table::split_clean_lines(content);
    if lines.len() == 0 {
        let out: Vec<TransactionInfo> = Vec::new();
        proof {
            assert(out.deep_view() =~= Seq::<TransactionInfoV>::empty());
        }
        return Ok(out);
    }
    let _header = lines.remove(0);
    let ghost rows = lines.deep_view();
    proof {
        assert(rows =~~= lines_of(content@).drop_first());
    }
    let mut out: Vec<TransactionInfo> = Vec::new();
    let mut k: usize = 0;
    proof {
        assert(rows.take(0) =~~= Seq::<Seq<u8>>::empty());
        assert(out.deep_view() =~= Seq::<TransactionInfoV>::empty());
        assert(records_of_lines(rows.take(0)) == Some(Seq::<TransactionInfoV>::empty()));
        assert(Seq::<TransactionInfoV>::empty() =~= out.deep_view());
    }
    while k < lines.len()
        invariant
            k <= lines@.len(),
            rows == lines.deep_view(),
            rows.len() == lines@.len(),
            lines_of(content@).len() > 0,
            rows == lines_of(content@).drop_first(),
            records_of_lines(rows.take(k as int)) == Some(out.deep_view()),
        decreases lines@.len() - k,
    {
        let line = &lines[k];
        proof {
            assert(line@ == rows[k as int]);
        }
        match parse_record_line(line) {
            Some(t) => {
                let ghost out_before = out.deep_view();
                out.push(t);
                proof {
                    assert(out.deep_view() =~= out_before.push(t.deep_view()));
                    assert(rows.take(k as int + 1) =~~= rows.take(k as int) + seq![rows[k as int]]);
                    lemma_records_append(rows.take(k as int), seq![rows[k as int]]);
                    assert(seq![rows[k as int]][0] == rows[k as int]);
                    assert(seq![rows[k as int]].drop_first() =~~= Seq::<Seq<u8>>::empty());
                    assert(records_of_lines(Seq::<Seq<u8>>::empty()) == Some(
                        Seq::<TransactionInfoV>::empty(),
                    ));
                    assert(seq![t.deep_view()] + Seq::<TransactionInfoV>::empty() =~= seq![
                        t.deep_view(),
                    ]);
                    assert(records_of_lines(seq![rows[k as int]]) == Some(seq![t.deep_view()]));
                    assert(out_before + seq![t.deep_view()] =~= out_before.push(t.deep_view()));
                }
            },
            None => {
                proof {
                    assert(rows =~~= rows.take(k as int) + rows.skip(k as int));
                    lemma_records_append(rows.take(k as int), rows.skip(k as int));
                    assert(rows.skip(k as int)[0] == rows[k as int]);
                    assert(records_of_lines(rows.skip(k as int)) is None);
                }
                return Err(DistributeError::MalformedRow);
            },
        }
        k += 1;
    }
    proof {
        assert(rows.take(rows.len() as int) =~~= rows);
    }
    Ok(out)
}

/// One ledger record per finished allocation, in allocation order, each
/// carrying its receipt.
pub open spec fn paired(allocs: Seq<AllocationV>, receipts: Seq<Seq<u8>>) -> Seq<
    TransactionInfoV,
> {
    Seq::new(
        allocs.len(),
        |i: int|
            TransactionInfoV {
                recipient: allocs[i].recipient,
                amount: allocs[i].amount,
                signature: receipts[i],
            },
    )
}

/// Pairs each allocation with the receipt its transfer returned, in order.
/// The transfer executor returns one receipt per allocation; the caller
/// checks the lengths match before recording anything.
pub fn make_transaction_infos(allocations: &Vec<Allocation>, signatures: &Vec<Vec<u8>>) -> (r: Vec<
    TransactionInfo,
>)
    requires
        allocations@.len() == signatures@.len(),
    ensures
        r.deep_view() == paired(allocations.deep_view(), signatures.deep_view()),
{
    let mut out: Vec<TransactionInfo> = Vec::new();
    let mut k: usize = 0;
    while k < allocations.len()
        invariant
            k <= allocations@.len(),
            allocations@.len() == signatures@.len(),
            out@.len() == k,
            forall|i: int|
                0 <= i < k ==> #[trigger] out.deep_view()[i] == paired(
                    allocations.deep_view(),
                    signatures.deep_view(),
                )[i],
        decreases allocations@.len() - k,
    {
        let ghost out_before = out.deep_view();
        let row = TransactionInfo {
            recipient: copy_bytes(&allocations[k].recipient),
            amount: allocations[k].amount,
            signature: copy_bytes(&signatures[k]),
        };
        proof {
            assert(allocations.deep_view()[k as int] == allocations@[k as int].deep_view());
            assert(signatures.deep_view()[k as int] == signatures@[k as int].deep_view());
            assert(signatures@[k as int].deep_view() =~= signatures@[k as int]@);
            assert(row.deep_view() =~= paired(allocations.deep_view(), signatures.deep_view())[
                k as int
            ]);
        }
        out.push(row);
        proof {
            assert(out.deep_view() =~= out_before.push(row.deep_view()));
        }
        k += 1;
    }
    proof {
        assert(out.deep_view() =~~= paired(allocations.deep_view(), signatures.deep_view()));
    }
    out
}

/// The header line written when the ledger file is first created.
pub open spec fn header_line() -> Seq<u8> {
    seq![
        114u8, 101u8, 99u8, 105u8, 112u8, 105u8, 101u8, 110u8, 116u8, 44u8, 97u8, 109u8, 111u8,
        117u8, 110u8, 116u8, 44u8, 115u8, 105u8, 103u8, 110u8, 97u8, 116u8, 117u8, 114u8, 101u8,
    ]
}

/// The header row, with its newline.
pub open spec fn header_bytes() -> Seq<u8> {
    header_line() + seq![10u8]
}

/// The text of one ledger row: recipient, amount, receipt, newline.
pub open spec fn row_bytes(t: TransactionInfoV) -> Seq<u8> {
    t.recipient + seq![44u8] + amount_text(t.amount) + seq![44u8] + t.signature + seq![10u8]
}

/// The text of a record list, row after row.
pub open spec fn rows_bytes(ts: Seq<TransactionInfoV>) -> Seq<u8>
    decreases ts.len(),
{
    if ts.len() == 0 {
        Seq::empty()
    } else {
        row_bytes(ts[0]) + rows_bytes(ts.drop_first())
    }
}

/// The bytes an append writes: a header first if and only if the ledger
/// file did not exist yet, then one row per record, in input order.
pub open spec fn ledger_bytes(ts: Seq<TransactionInfoV>, with_header: bool) -> Seq<u8> {
    if with_header {
        header_bytes() + rows_bytes(ts)
    } else {
        rows_bytes(ts)
    }
}

proof fn lemma_rows_bytes_snoc(ts: Seq<TransactionInfoV>, t: TransactionInfoV)
    ensures
        rows_bytes(ts.push(t)) == rows_bytes(ts) + row_bytes(t),
    decreases ts.len(),
{
    if ts.len() == 0 {
        assert(ts.push(t)[0] == t);
        assert(ts.push(t).drop_first() =~= Seq::<TransactionInfoV>::empty());
        assert(rows_bytes(Seq::<TransactionInfoV>::empty()) =~= Seq::<u8>::empty());
        assert(row_bytes(t) + Seq::<u8>::empty() =~= row_bytes(t));
        assert(Seq::<u8>::empty() + row_bytes(t) =~= row_bytes(t));
    } else {
        assert(ts.push(t)[0] == ts[0]);
        assert(ts.push(t).drop_first() =~= ts.drop_first().push(t));
        lemma_rows_bytes_snoc(ts.drop_first(), t);
        assert(row_bytes(ts[0]) + (rows_bytes(ts.drop_first()) + row_bytes(t)) =~= (row_bytes(
            ts[0],
        ) + rows_bytes(ts.drop_first())) + row_bytes(t));
    }
}

/// Appends a byte string to a buffer.
fn push_bytes(out: &mut Vec<u8>, src: &Vec<u8>)
    ensures
        final(out)@ == old(out)@ + src@,
{
    let mut k: usize = 0;
    while k < src.len()
        invariant
            k <= src@.len(),
            out@ == old(out)@ + src@.take(k as int),
        decreases src@.len() - k,
    {
        out.push(src[k]);
        proof {
            assert(old(out)@ + src@.take(k as int + 1) =~= (old(out)@ + src@.take(k as int)).push(
                src@[k as int],
            ));
        }
        k += 1;
    }
    proof {
        assert(src@.take(src@.len() as int) =~= src@);
    }
}

/// Renders the rows an append writes: a header first exactly when the
/// ledger file does not exist yet, then one row per record, in input
/// order, each as recipient, amount and receipt.
pub fn serialize_transaction_infos(records: &Vec<TransactionInfo>, with_header: bool) -> (out: Vec<
    u8,
>)
    ensures
        out@ == ledger_bytes(records.deep_view(), with_header),
{
    let mut out: Vec<u8> = Vec::new();
    if with_header {
        out.push(114);
        out.push(101);
        out.push(99);
        out.push(105);
        out.push(112);
        out.push(105);
        out.push(101);
        out.push(110);
        out.push(116);
        out.push(44);
        out.push(97);
        out.push(109);
        out.push(111);
        out.push(117);
        out.push(110);
        out.push(116);
        out.push(44);
        out.push(115);
        out.push(105);
        out.push(103);
        out.push(110);
        out.push(97);
        out.push(116);
        out.push(117);
        out.push(114);
        out.push(101);
        out.push(10);
        proof {
            assert(out@ =~= header_bytes());
        }
    }
    let ghost head = out@;
    let ghost ts = records.deep_view();
    let mut k: usize = 0;
    proof {
        assert(ts.take(0) =~= Seq::<TransactionInfoV>::empty());
        assert(rows_bytes(ts.take(0)) =~= Seq::<u8>::empty());
        assert(out@ =~= head + rows_bytes(ts.take(0)));
    }
    while k < records.len()
        invariant
            k <= records@.len(),
            ts == records.deep_view(),
            ts.len() == records@.len(),
            out@ == head + rows_bytes(ts.take(k as int)),
        decreases records@.len() - k,
    {
        let ghost row_start = out@;
        let rec = &records[k];
        proof {
            assert(rec.deep_view() == ts[k as int]);
        }
        push_bytes(&mut out, &rec.recipient);
        out.push(44);
        let amount = format_amount(rec.amount);
        push_bytes(&mut out, &amount);
        out.push(44);
        push_bytes(&mut out, &rec.signature);
        out.push(10);
        proof {
            assert(out@ =~= row_start + row_bytes(ts[k as int]));
            assert(ts.take(k as int + 1) =~= ts.take(k as int).push(ts[k as int]));
            lemma_rows_bytes_snoc(ts.take(k as int), ts[k as int]);
            assert(out@ =~= head + rows_bytes(ts.take(k as int + 1)));
        }
        k += 1;
    }
    proof {
        assert(ts.take(ts.len() as int) =~= ts);
    }
    out
}

/// A record every field of which survives the table round trip: recipient
/// and receipt hold no separators and no surrounding whitespace, and the
/// amount is representable.
pub open spec fn clean_record(t: TransactionInfoV) -> bool {
    crate::table::clean_field(t.recipient) && crate::table::clean_field(t.signature) && 0
        <= t.amount <= u64::MAX
}

/// One ledger row as a line, without its newline.
pub open spec fn line_bytes(t: TransactionInfoV) -> Seq<u8> {
    t.recipient + seq![44u8] + amount_text(t.amount) + seq![44u8] + t.signature
}

/// A clean record's row holds no newline, needs no stripping, and parses
/// back to the record.
proof fn lemma_row_line(t: TransactionInfoV)
    requires
        clean_record(t),
    ensures
        row_bytes(t) == line_bytes(t) + seq![10u8],
        forall|i: int| 0 <= i < line_bytes(t).len() ==> #[trigger] line_bytes(t)[i] != 10,
        line_bytes(t).len() > 0,
        crate::table::strip_cr(line_bytes(t)) == line_bytes(t),
        record_of_line(line_bytes(t)) == Some(t),
{
    let l = line_bytes(t);
    let am = amount_text(t.amount);
    crate::amounts::lemma_amount_text_parses(t.amount);
    assert(row_bytes(t) =~= l + seq![10u8]);
    let p0 = t.recipient.len() as int;
    let p1 = p0 + 1 + am.len() as int;
    assert(l[p0] == 44);
    assert(l[p1] == 44);
    assert forall|i: int| 0 <= i < l.len() implies #[trigger] l[i] != 10 by {
        if i < p0 {
            assert(l[i] == t.recipient[i]);
        } else if p0 < i < p1 {
            assert(l[i] == am[i - p0 - 1]);
            assert(crate::amounts::is_digit(am[i - p0 - 1]) || am[i - p0 - 1] == 46);
        } else if i > p1 {
            assert(l[i] == t.signature[i - p1 - 1]);
        }
    }
    // the first comma ends the recipient field
    assert forall|k: int| 0 <= k < p0 implies l[k] != 44 by {
        assert(l[k] == t.recipient[k]);
    }
    crate::table::lemma_split_at_sep(l, 44, p0);
    assert(l.take(p0) =~= t.recipient);
    let l2 = l.skip(p0 + 1);
    assert(l2 =~= am + seq![44u8] + t.signature);
    // the second comma ends the amount field
    assert forall|k: int| 0 <= k < am.len() implies l2[k] != 44 by {
        assert(l2[k] == am[k]);
        assert(crate::amounts::is_digit(am[k]) || am[k] == 46);
    }
    assert(l2[am.len() as int] == 44);
    crate::table::lemma_split_at_sep(l2, 44, am.len() as int);
    assert(l2.take(am.len() as int) =~= am);
    let l3 = l2.skip(am.len() as int + 1);
    assert(l3 =~= t.signature);
    crate::table::lemma_split_no_sep(t.signature, 44);
    let fields = split_on(l, 44);
    assert(fields =~~= seq![t.recipient, am, t.signature]);
    assert(fields.len() == 3);
    crate::table::lemma_trim_id(t.recipient);
    crate::table::lemma_trim_id(t.signature);
    assert(am.len() > 0 ==> !crate::table::is_ws(am[0]) && !crate::table::is_ws(am.last()));
    crate::table::lemma_trim_id(am);
    assert(spec_parse_amount(trimmed(fields[1])) == Some(t.amount as u64));
    assert(record_of_line(l) =~~= Some(t));
    // no stripping: the line ends with the receipt, or with the comma
    if t.signature.len() == 0 {
        assert(l.last() == 44);
    } else {
        assert(l.last() == t.signature.last());
        assert(!crate::table::is_ws(t.signature.last()));
    }
}

/// Row text concatenates record list by record list.
proof fn lemma_rows_bytes_append(a: Seq<TransactionInfoV>, b: Seq<TransactionInfoV>)
    ensures
        rows_bytes(a + b) == rows_bytes(a) + rows_bytes(b),
    decreases a.len(),
{
    if a.len() == 0 {
        assert(a + b =~= b);
        assert(rows_bytes(a) + rows_bytes(b) =~= rows_bytes(b));
    } else {
        assert((a + b)[0] == a[0]);
        assert((a + b).drop_first() =~= a.drop_first() + b);
        lemma_rows_bytes_append(a.drop_first(), b);
        assert(row_bytes(a[0]) + (rows_bytes(a.drop_first()) + rows_bytes(b)) =~= (row_bytes(a[0])
            + rows_bytes(a.drop_first())) + rows_bytes(b));
    }
}

/// The lines of rendered rows are exactly the rows' lines.
proof fn lemma_lines_of_rows(ts: Seq<TransactionInfoV>)
    requires
        forall|k: int| 0 <= k < ts.len() ==> clean_record(#[trigger] ts[k]),
    ensures
        lines_of(rows_bytes(ts)) == Seq::new(ts.len(), |i: int| line_bytes(ts[i])),
    decreases ts.len(),
{
    if ts.len() == 0 {
        assert(rows_bytes(ts) =~= Seq::<u8>::empty());
        assert(split_on(Seq::<u8>::empty(), 10) =~~= seq![Seq::<u8>::empty()]);
        assert(crate::table::clean_lines(Seq::<Seq<u8>>::empty()) =~~= Seq::<Seq<u8>>::empty());
        assert(seq![Seq::<u8>::empty()].drop_first() =~~= Seq::<Seq<u8>>::empty());
        assert(lines_of(rows_bytes(ts)) =~~= Seq::<Seq<u8>>::empty());
        assert(Seq::new(0, |i: int| line_bytes(ts[i])) =~~= Seq::<Seq<u8>>::empty());
    } else {
        let t0 = ts[0];
        let rest = ts.drop_first();
        assert(clean_record(t0));
        assert(forall|k: int| 0 <= k < rest.len() ==> clean_record(#[trigger] rest[k]));
        lemma_row_line(t0);
        let l0 = line_bytes(t0);
        let s = rows_bytes(ts);
        assert(s =~= l0 + seq![10u8] + rows_bytes(rest));
        assert(s[l0.len() as int] == 10);
        assert forall|k: int| 0 <= k < l0.len() implies s[k] != 10 by {
            assert(s[k] == l0[k]);
        }
        crate::table::lemma_split_at_sep(s, 10, l0.len() as int);
        assert(s.take(l0.len() as int) =~= l0);
        assert(s.skip(l0.len() as int + 1) =~= rows_bytes(rest));
        crate::table::lemma_clean_lines_append(seq![l0], split_on(rows_bytes(rest), 10));
        assert(seq![l0] + split_on(rows_bytes(rest), 10) =~~= split_on(s, 10));
        assert(seq![l0].drop_first() =~~= Seq::<Seq<u8>>::empty());
        assert(crate::table::clean_lines(Seq::<Seq<u8>>::empty()) =~~= Seq::<Seq<u8>>::empty());
        assert(crate::table::clean_lines(seq![l0]) =~~= seq![l0]);
        lemma_lines_of_rows(rest);
        assert(lines_of(s) =~~= seq![l0] + Seq::new(rest.len(), |i: int| line_bytes(rest[i])));
        assert(lines_of(s) =~~= Seq::new(ts.len(), |i: int| line_bytes(ts[i])));
    }
}

/// The rows' lines parse back to the records.
proof fn lemma_records_of_row_lines(ts: Seq<TransactionInfoV>)
    requires
        forall|k: int| 0 <= k < ts.len() ==> clean_record(#[trigger] ts[k]),
    ensures
        records_of_lines(Seq::new(ts.len(), |i: int| line_bytes(ts[i]))) == Some(ts),
    decreases ts.len(),
{
    let ls = Seq::new(ts.len(), |i: int| line_bytes(ts[i]));
    if ts.len() == 0 {
        assert(ls.len() == 0);
        assert(Seq::<TransactionInfoV>::empty() =~= ts);
    } else {
        let rest = ts.drop_first();
        assert(forall|k: int| 0 <= k < rest.len() ==> clean_record(#[trigger] rest[k]));
        lemma_row_line(ts[0]);
        assert(ls[0] == line_bytes(ts[0]));
        assert(ls.drop_first() =~~= Seq::new(rest.len(), |i: int| line_bytes(rest[i])));
        lemma_records_of_row_lines(rest);
        assert(seq![ts[0]] + rest =~= ts);
    }
}

/// LEDGER ROUND TRIP: a freshly created ledger — header row, then one row
/// per record — parses back to exactly the records written, provided every
/// field is clean: no separators, no surrounding whitespace, and a
/// representable amount.
pub proof fn lemma_ledger_round_trip(ts: Seq<TransactionInfoV>)
    requires
        forall|k: int| 0 <= k < ts.len() ==> clean_record(#[trigger] ts[k]),
    ensures
        spec_parse_transaction_infos(ledger_bytes(ts, true)) == Some(ts),
{
    let file = ledger_bytes(ts, true);
    let h = header_line();
    assert(file =~= h + seq![10u8] + rows_bytes(ts));
    assert(file[h.len() as int] == 10);
    assert forall|k: int| 0 <= k < h.len() implies file[k] != 10 by {
        assert(file[k] == h[k]);
    }
    crate::table::lemma_split_at_sep(file, 10, h.len() as int);
    assert(file.take(h.len() as int) =~= h);
    assert(file.skip(h.len() as int + 1) =~= rows_bytes(ts));
    crate::table::lemma_clean_lines_append(seq![h], split_on(rows_bytes(ts), 10));
    assert(seq![h] + split_on(rows_bytes(ts), 10) =~~= split_on(file, 10));
    assert(h.last() == 101);
    assert(crate::table::strip_cr(h) == h);
    assert(seq![h].drop_first() =~~= Seq::<Seq<u8>>::empty());
    assert(crate::table::clean_lines(Seq::<Seq<u8>>::empty()) =~~= Seq::<Seq<u8>>::empty());
    assert(crate::table::clean_lines(seq![h]) =~~= seq![h]);
    lemma_lines_of_rows(ts);
    assert(lines_of(file) =~~= seq![h] + Seq::new(ts.len(), |i: int| line_bytes(ts[i])));
    assert(lines_of(file).len() > 0);
    assert(lines_of(file).drop_first() =~~= Seq::new(ts.len(), |i: int| line_bytes(ts[i])));
    lemma_records_of_row_lines(ts);
}

/// LEDGER ROUND TRIP, GROWN FILE: a ledger created with a header and later
/// appended to headerless parses back as the one full history, in append
/// order.
pub proof fn lemma_grown_ledger_round_trip(
    first: Seq<TransactionInfoV>,
    appended: Seq<TransactionInfoV>,
)
    requires
        forall|k: int| 0 <= k < first.len() ==> clean_record(#[trigger] first[k]),
        forall|k: int| 0 <= k < appended.len() ==> clean_record(#[trigger] appended[k]),
    ensures
        spec_parse_transaction_infos(ledger_bytes(first, true) + ledger_bytes(appended, false))
            == Some(first + appended),
{
    lemma_rows_bytes_append(first, appended);
    assert(ledger_bytes(first, true) + ledger_bytes(appended, false) =~= ledger_bytes(
        first + appended,
        true,
    ));
    assert(forall|k: int|
        0 <= k < (first + appended).len() ==> clean_record(#[trigger] (first + appended)[k]));
    lemma_ledger_round_trip(first + appended);
}

/// How an append must touch the ledger file.
#[derive(Debug, Clone, Copy, PartialEq, Eq, Structural)]
pub struct AppendPlan {
    /// Copy the current ledger to the backup location first.
    pub make_backup: bool,
    /// Start the new file with the header row.
    pub write_header: bool,
}

/// The append discipline: if the ledger already exists it is first copied
/// to the backup location and then appended to headerless; a fresh ledger
/// is created with a header row and nothing is backed up.
pub fn plan_append(ledger_exists: bool) -> (p: AppendPlan)
    ensures
        p.make_backup == ledger_exists,
        p.write_header == !ledger_exists,
{
    AppendPlan { make_backup: ledger_exists, write_header: !ledger_exists }
}

} // verus!
