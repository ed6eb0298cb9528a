//! Fixed-point money.
//!
//! Every amount is a `u64` counting base units, [`AMOUNT_SCALE`] of them
//! per whole unit, so arithmetic on money is exact and reconciliation
//! properties hold with equality rather than a floating tolerance.
//!
//! The textual form of an amount is an unsigned decimal with an optional
//! fractional part of at most nine digits (`"100"`, `"2.5"`); anything
//! else is malformed.

use vstd::prelude::*;

use crate::table::split_on;

verus! {

/// Base units per whole unit: amounts carry nine decimal places.
pub const AMOUNT_SCALE: u64 = 1_000_000_000;

pub open spec fn is_digit(c: u8) -> bool {
    48 <= c <= 57
}

pub open spec fn all_digits(s: Seq<u8>) -> bool {
    forall|i: int| 0 <= i < s.len() ==> is_digit(#[trigger] s[i])
}

/// The number a digit string denotes.
pub open spec fn dec_val(s: Seq<u8>) -> int
    decreases s.len(),
{
    if s.len() == 0 {
        0
    } else {
        dec_val(s.drop_last()) * 10 + (s.last() - 48)
    }
}

pub open spec fn pow10(n: nat) -> int
    decreases n,
{
    if n == 0 {
        1
    } else {
        10 * pow10((n - 1) as nat)
    }
}

/// The digit string of a number, without leading zeroes.
pub open spec fn dec_digits(n: nat) -> Seq<u8>
    decreases n,
{
    if n < 10 {
        seq![(48 + n) as u8]
    } else {
        dec_digits(n / 10).push((48 + n % 10) as u8)
    }
}

/// The digit string of a number, zero-padded to a fixed width.
pub open spec fn dec_digits_pad(n: nat, width: nat) -> Seq<u8>
    decreases width,
{
    if width == 0 {
        Seq::empty()
    } else {
        dec_digits_pad(n / 10, (width - 1) as nat).push((48 + n % 10) as u8)
    }
}

/// Whether a field is a well-formed unsigned decimal amount: digits with
/// at most one point and at most nine fractional digits.
pub open spec fn is_amount(s: Seq<u8>) -> bool {
    let parts = split_on(s, 46);
    if parts.len() == 1 {
        parts[0].len() > 0 && all_digits(parts[0])
    } else if parts.len() == 2 {
        parts[0].len() + parts[1].len() > 0 && all_digits(parts[0]) && all_digits(parts[1])
            && parts[1].len() <= 9
    } else {
        false
    }
}

/// The base-unit value a well-formed amount field denotes.
pub open spec fn amount_val(s: Seq<u8>) -> int {
    let parts = split_on(s, 46);
    if parts.len() == 1 {
        dec_val(parts[0]) * (AMOUNT_SCALE as int)
    } else {
        dec_val(parts[0]) * (AMOUNT_SCALE as int) + dec_val(parts[1]) * pow10(
            (9 - parts[1].len()) as nat,
        )
    }
}

/// What parsing an amount field returns: its base-unit value, if the field
/// is well formed and the value representable.
pub open spec fn spec_parse_amount(s: Seq<u8>) -> Option<u64> {
    if is_amount(s) && amount_val(s) <= u64::MAX {
        Some(amount_val(s) as u64)
    } else {
        None
    }
}

pub proof fn lemma_dec_val_nonneg(s: Seq<u8>)
    requires
        all_digits(s),
    ensures
        dec_val(s) >= 0,
    decreases s.len(),
{
    if s.len() > 0 {
        assert(all_digits(s.drop_last()));
        lemma_dec_val_nonneg(s.drop_last());
        assert(is_digit(s.last()));
    }
}

pub proof fn lemma_pow10_pos(n: nat)
    ensures
        pow10(n) >= 1,
    decreases n,
{
    if n > 0 {
        lemma_pow10_pos((n - 1) as nat);
    }
}

pub proof fn lemma_pow10_mono(a: nat, b: nat)
    requires
        a <= b,
    ensures
        pow10(a) <= pow10(b),
    decreases b,
{
    if a < b {
        lemma_pow10_mono(a, (b - 1) as nat);
        lemma_pow10_pos((b - 1) as nat);
    }
}

/// A digit string's value is below ten to its length.
pub proof fn lemma_dec_val_bound(s: Seq<u8>)
    requires
        all_digits(s),
    ensures
        dec_val(s) < pow10(s.len() as nat),
    decreases s.len(),
{
    if s.len() == 0 {
    } else {
        assert(all_digits(s.drop_last()));
        lemma_dec_val_bound(s.drop_last());
        assert(is_digit(s.last()));
        assert(dec_val(s.drop_last()) <= pow10((s.len() - 1) as nat) - 1);
        assert(pow10(s.len() as nat) == 10 * pow10((s.len() - 1) as nat));
    }
}

/// Extending a digit string never lowers its value.
proof fn lemma_dec_val_prefix(s: Seq<u8>, i: int)
    requires
        all_digits(s),
        0 <= i <= s.len(),
    ensures
        dec_val(s.take(i)) <= dec_val(s),
    decreases s.len() - i,
{
    if i == s.len() {
        assert(s.take(i) =~= s);
    } else {
        assert(all_digits(s.take(i + 1)));
        assert(s.take(i + 1).drop_last() =~= s.take(i));
        assert(is_digit(s.take(i + 1).last()));
        lemma_dec_val_nonneg(s.take(i));
        assert(dec_val(s.take(i)) <= dec_val(s.take(i + 1)));
        lemma_dec_val_prefix(s, i + 1);
    }
}

/// The digits of a number denote it back, and are digits.
pub proof fn lemma_dec_digits_val(n: nat)
    ensures
        all_digits(dec_digits(n)),
        dec_digits(n).len() >= 1,
        dec_val(dec_digits(n)) == n,
    decreases n,
{
    if n < 10 {
        assert(dec_digits(n).drop_last() =~= Seq::<u8>::empty());
        assert(is_digit(dec_digits(n)[0]));
        assert(dec_digits(n).last() == (48 + n) as u8);
        assert(dec_val(dec_digits(n)) == dec_val(Seq::<u8>::empty()) * 10 + ((48 + n) as u8 - 48));
    } else {
        lemma_dec_digits_val(n / 10);
        assert(dec_digits(n).drop_last() =~= dec_digits(n / 10));
        assert(dec_digits(n).last() == (48 + n % 10) as u8);
        assert forall|i: int| 0 <= i < dec_digits(n).len() implies is_digit(
            #[trigger] dec_digits(n)[i],
        ) by {
            if i < dec_digits(n).len() - 1 {
                assert(dec_digits(n)[i] == dec_digits(n / 10)[i]);
            }
        }
    }
}

/// The padded digits of a number below the width's range denote it back.
pub proof fn lemma_dec_digits_pad_val(n: nat, width: nat)
    requires
        n < pow10(width),
    ensures
        all_digits(dec_digits_pad(n, width)),
        dec_digits_pad(n, width).len() == width,
        dec_val(dec_digits_pad(n, width)) == n,
    decreases width,
{
    if width == 0 {
    } else {
        assert(pow10(width) == 10 * pow10((width - 1) as nat));
        assert(n >= 10 * (n / 10));
        assert(n / 10 < pow10((width - 1) as nat));
        lemma_dec_digits_pad_val(n / 10, (width - 1) as nat);
        let inner = dec_digits_pad(n / 10, (width - 1) as nat);
        assert(dec_digits_pad(n, width).drop_last() =~= inner);
        assert(dec_digits_pad(n, width).last() == (48 + n % 10) as u8);
        assert forall|i: int| 0 <= i < dec_digits_pad(n, width).len() implies is_digit(
            #[trigger] dec_digits_pad(n, width)[i],
        ) by {
            if i < dec_digits_pad(n, width).len() - 1 {
                assert(dec_digits_pad(n, width)[i] == inner[i]);
            }
        }
    }
}

/// The canonical text of a representable amount parses back to it, holds
/// only digits and one point, and carries no surrounding whitespace.
pub proof fn lemma_amount_text_parses(v: int)
    requires
        0 <= v <= u64::MAX,
    ensures
        spec_parse_amount(amount_text(v)) == Some(v as u64),
        amount_text(v).len() > 0,
        forall|i: int|
            0 <= i < amount_text(v).len() ==> (is_digit(#[trigger] amount_text(v)[i])
                || amount_text(v)[i] == 46),
        is_digit(amount_text(v)[0]),
        is_digit(amount_text(v).last()),
{
    let q = (v / (AMOUNT_SCALE as int)) as nat;
    let r = (v % (AMOUNT_SCALE as int)) as nat;
    assert(pow10(9) == 1_000_000_000) by {
        reveal_with_fuel(pow10, 11);
    }
    assert(r < pow10(9));
    lemma_dec_digits_val(q);
    lemma_dec_digits_pad_val(r, 9);
    let whole = dec_digits(q);
    let frac = dec_digits_pad(r, 9);
    let text = amount_text(v);
    assert(text =~= whole + seq![46u8] + frac);
    let dot = whole.len() as int;
    assert(text[dot] == 46);
    assert forall|k: int| 0 <= k < dot implies text[k] != 46 by {
        assert(text[k] == whole[k]);
        assert(is_digit(whole[k]));
    }
    crate::table::lemma_split_at_sep(text, 46, dot);
    assert(text.take(dot) =~= whole);
    assert(text.skip(dot + 1) =~= frac);
    assert forall|k: int| 0 <= k < frac.len() implies frac[k] != 46 by {
        assert(is_digit(frac[k]));
    }
    crate::table::lemma_split_no_sep(frac, 46);
    let parts = split_on(text, 46);
    assert(parts =~~= seq![whole, frac]);
    assert(parts.len() == 2);
    assert(is_amount(text));
    assert(pow10((9 - parts[1].len()) as nat) == 1) by {
        assert((9 - parts[1].len()) as nat == 0);
    }
    assert(amount_val(text) == q * (AMOUNT_SCALE as int) + r * 1);
    assert(v == (AMOUNT_SCALE as int) * (v / (AMOUNT_SCALE as int)) + v % (AMOUNT_SCALE as int));
    assert(amount_val(text) == v);
    assert forall|i: int| 0 <= i < text.len() implies (is_digit(#[trigger] text[i]) || text[i]
        == 46) by {
        if i < dot {
            assert(text[i] == whole[i]);
        } else if i > dot {
            assert(text[i] == frac[i - dot - 1]);
        }
    }
    assert(text[0] == whole[0]);
    assert(text.last() == frac[8]);
}

/// Checks that every byte of a field is a decimal digit.
fn check_digits(s: &Vec<u8>) -> (b: bool)
    ensures
        b == all_digits(s@),
{
    let mut k: usize = 0;
    while k < s.len()
        invariant
            k <= s@.len(),
            forall|i: int| 0 <= i < k ==> is_digit(#[trigger] s@[i]),
        decreases s@.len() - k,
    {
        let c = s[k];
        if c < 48 || c > 57 {
            return false;
        }
        k += 1;
    }
    true
}

/// The value of a digit field, if it fits a `u64`.
fn dec_val_checked(s: &Vec<u8>) -> (r: Option<u64>)
    requires
        all_digits(s@),
    ensures
        match r {
            Some(v) => v == dec_val(s@),
            None => dec_val(s@) > u64::MAX,
        },
{
    let mut acc: u128 = 0;
    let mut k: usize = 0;
    proof {
        assert(s@.take(0) =~= Seq::<u8>::empty());
    }
    while k < s.len()
        invariant
            k <= s@.len(),
            all_digits(s@),
            acc == dec_val(s@.take(k as int)),
            acc <= u64::MAX,
        decreases s@.len() - k,
    {
        let c = s[k];
        proof {
            assert(is_digit(s@[k as int]));
            assert(s@.take(k as int + 1).drop_last() =~= s@.take(k as int));
            assert(s@.take(k as int + 1).last() == s@[k as int]);
        }
        acc = acc * 10 + (c - 48) as u128;
        if acc > u64::MAX as u128 {
            proof {
                assert(dec_val(s@.take(k as int + 1)) > u64::MAX);
                lemma_dec_val_prefix(s@, k as int + 1);
            }
            return None;
        }
        k += 1;
    }
    proof {
        assert(s@.take(s@.len() as int) =~= s@);
    }
    Some(acc as u64)
}

/// Ten to a small power, as a `u64`.
fn pow10_u64(e: usize) -> (r: u64)
    requires
        e <= 9,
    ensures
        r == pow10(e as nat),
        r <= 1_000_000_000,
{
    let mut r: u64 = 1;
    let mut k: usize = 0;
    proof {
        lemma_pow10_mono(0, 9);
    }
    while k < e
        invariant
            k <= e <= 9,
            r == pow10(k as nat),
            r <= 1_000_000_000,
        decreases e - k,
    {
        proof {
            lemma_pow10_mono(k as nat + 1, 9);
            assert(pow10(9) == 1_000_000_000) by {
                reveal_with_fuel(pow10, 11);
            }
            lemma_pow10_pos(k as nat);
        }
        r = r * 10;
        k += 1;
    }
    r
}

/// Parses a trimmed field as a fixed-point amount: unsigned decimal, at
/// most one point, at most nine fractional digits, value representable in
/// base units.  Returns the base-unit value, or nothing for a malformed or
/// too-large field.
pub fn parse_amount(s: &Vec<u8>) -> (r: Option<u64>)
    ensures
        r == spec_parse_amount(s@),
{
    let parts = crate::table::split_bytes(s, 46);
    let ghost pv = split_on(s@, 46);
    proof {
        assert(parts.deep_view() == pv);
        assert(parts@.len() == pv.len());
    }
    if parts.len() == 1 {
        let p0 = &parts[0];
        proof {
            assert(p0@ == pv[0]);
        }
        if p0.len() == 0 || !check_digits(p0) {
            return None;
        }
        match dec_val_checked(p0) {
            None => {
                proof {
                    lemma_dec_val_nonneg(pv[0]);
                    assert(amount_val(s@) == dec_val(pv[0]) * (AMOUNT_SCALE as int));
                    assert(dec_val(pv[0]) * (AMOUNT_SCALE as int) >= dec_val(pv[0]) * 1);
                }
                None
            },
            Some(v) => {
                let total = (v as u128) * (AMOUNT_SCALE as u128);
                if total > u64::MAX as u128 {
                    None
                } else {
                    Some(total as u64)
                }
            },
        }
    } else if parts.len() == 2 {
        let p0 = &parts[0];
        let p1 = &parts[1];
        proof {
            assert(p0@ == pv[0]);
            assert(p1@ == pv[1]);
        }
        if (p0.len() == 0 && p1.len() == 0) || !check_digits(p0) || !check_digits(p1) || p1.len()
            > 9 {
            return None;
        }
        let frac_scale = pow10_u64(9 - p1.len());
        proof {
            lemma_dec_val_bound(p1@);
            lemma_dec_val_nonneg(p1@);
            lemma_pow10_mono(p1@.len() as nat, 9);
            assert(pow10(9) == 1_000_000_000) by {
                reveal_with_fuel(pow10, 11);
            }
            lemma_pow10_pos((9 - p1@.len()) as nat);
        }
        let frac = dec_val_checked(p1);
        let frac_v = match frac {
            Some(f) => f,
            None => {
                proof {
                    assert(dec_val(p1@) < pow10(p1@.len() as nat));
                    assert(pow10(p1@.len() as nat) <= 1_000_000_000);
                    assert(false);
                }
                return None;
            },
        };
        proof {
            assert(frac_v < 1_000_000_000);
            assert(frac_v * frac_scale <= frac_v * 1_000_000_000) by (nonlinear_arith)
                requires
                    frac_scale <= 1_000_000_000,
                    frac_v >= 0,
            ;
            assert(frac_v * 1_000_000_000 < 1_000_000_000_000_000_000u128) by (nonlinear_arith)
                requires
                    frac_v < 1_000_000_000,
            ;
        }
        match dec_val_checked(p0) {
            None => {
                proof {
                    lemma_dec_val_nonneg(p0@);
                    assert(dec_val(pv[0]) * (AMOUNT_SCALE as int) >= dec_val(pv[0]) * 1);
                    assert(dec_val(pv[1]) * pow10((9 - pv[1].len()) as nat) >= 0)
                        by (nonlinear_arith)
                        requires
                            dec_val(pv[1]) >= 0,
                            pow10((9 - pv[1].len()) as nat) >= 1,
                    ;
                    assert(amount_val(s@) >= dec_val(pv[0]));
                }
                None
            },
            Some(v) => {
                let total = (v as u128) * (AMOUNT_SCALE as u128) + (frac_v as u128) * (frac_scale
                    as u128);
                proof {
                    assert((v as u128) * (AMOUNT_SCALE as u128) == (v as int) * (AMOUNT_SCALE
                        as int));
                    assert(amount_val(s@) == dec_val(pv[0]) * (AMOUNT_SCALE as int) + dec_val(
                        pv[1],
                    ) * pow10((9 - pv[1].len()) as nat));
                }
                if total > u64::MAX as u128 {
                    None
                } else {
                    Some(total as u64)
                }
            },
        }
    } else {
        None
    }
}

/// Appends the decimal digits of a number: the value round-trips and
/// carries no leading zero.
pub fn push_dec(out: &mut Vec<u8>, n: u64)
    ensures
        final(out)@ == old(out)@ + dec_digits(n as nat),
    decreases n,
{
    if n < 10 {
        out.push(48 + n as u8);
        proof {
            assert(old(out)@ + dec_digits(n as nat) =~= old(out)@.push((48 + n) as u8));
        }
    } else {
        proof {
            assert(n / 10 < n) by (nonlinear_arith)
                requires
                    n >= 10,
            ;
        }
        push_dec(out, n / 10);
        out.push(48 + (n % 10) as u8);
        proof {
            assert(old(out)@ + dec_digits(n as nat) =~= (old(out)@ + dec_digits(n as nat / 10)).push(
                (48 + n as nat % 10) as u8,
            ));
        }
    }
}

/// Appends the decimal digits of a number, zero-padded to a width.
pub fn push_dec_pad(out: &mut Vec<u8>, n: u64, width: usize)
    ensures
        final(out)@ == old(out)@ + dec_digits_pad(n as nat, width as nat),
    decreases width,
{
    if width == 0 {
        proof {
            assert(old(out)@ + dec_digits_pad(n as nat, 0) =~= old(out)@);
        }
    } else {
        push_dec_pad(out, n / 10, width - 1);
        out.push(48 + (n % 10) as u8);
        proof {
            assert(old(out)@ + dec_digits_pad(n as nat, width as nat) =~= (old(out)@
                + dec_digits_pad(n as nat / 10, (width - 1) as nat)).push(
                (48 + n as nat % 10) as u8,
            ));
        }
    }
}

/// The canonical text of a base-unit amount: whole units, a point, and
/// exactly nine fractional digits.
pub open spec fn amount_text(v: int) -> Seq<u8> {
    dec_digits((v / (AMOUNT_SCALE as int)) as nat) + seq![46u8] + dec_digits_pad(
        (v % (AMOUNT_SCALE as int)) as nat,
        9,
    )
}

/// Formats a base-unit amount as its canonical text.
pub fn format_amount(v: u64) -> (r: Vec<u8>)
    ensures
        r@ == amount_text(v as int),
{
    let mut out: Vec<u8> = Vec::new();
    push_dec(&mut out, v / AMOUNT_SCALE);
    out.push(46);
    push_dec_pad(&mut out, v % AMOUNT_SCALE, 9);
    proof {
        assert(out@ =~= amount_text(v as int));
    }
    out
}

} // verus!
