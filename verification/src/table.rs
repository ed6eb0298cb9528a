//! Plain-text tables: byte strings split into lines and comma-separated
//! fields, with per-field whitespace trimming.
//!
//! The bid schedule and the ledger are such tables.  Fields must not
//! themselves contain separators; addresses, receipts and decimal amounts
//! never do.

use vstd::prelude::*;

verus! {

/// Splitting on a separator byte: the fields between separators, in order.
/// A string with no separator is one field; every separator ends a field.
pub open spec fn split_on(s: Seq<u8>, sep: u8) -> Seq<Seq<u8>>
    decreases s.len(),
{
    if s.len() == 0 {
        seq![Seq::<u8>::empty()]
    } else if s[0] == sep {
        seq![Seq::<u8>::empty()] + split_on(s.drop_first(), sep)
    } else {
        let rest = split_on(s.drop_first(), sep);
        seq![seq![s[0]] + rest[0]] + rest.drop_first()
    }
}

pub proof fn lemma_split_on_len(s: Seq<u8>, sep: u8)
    ensures
        split_on(s, sep).len() >= 1,
    decreases s.len(),
{
    if s.len() > 0 {
        lemma_split_on_len(s.drop_first(), sep);
    }
}

/// Up to the first separator lies the first field; the rest splits on its
/// own.
pub proof fn lemma_split_at_sep(s: Seq<u8>, sep: u8, i: int)
    requires
        0 <= i < s.len(),
        s[i] == sep,
        forall|k: int| 0 <= k < i ==> s[k] != sep,
    ensures
        split_on(s, sep) == seq![s.take(i)] + split_on(s.skip(i + 1), sep),
    decreases i,
{
    if i == 0 {
        assert(s.take(0) =~= Seq::<u8>::empty());
        assert(s.skip(1) =~= s.drop_first());
    } else {
        assert(s[0] != sep);
        let r = s.drop_first();
        assert(r[i - 1] == sep);
        assert(forall|k: int| 0 <= k < i - 1 ==> #[trigger] r[k] == s[k + 1]);
        lemma_split_at_sep(r, sep, i - 1);
        lemma_split_on_len(r.skip(i), sep);
        assert(r.take(i - 1) =~= s.take(i).drop_first());
        assert(r.skip(i) =~= s.skip(i + 1));
        let rest = split_on(r, sep);
        assert(rest == seq![r.take(i - 1)] + split_on(r.skip(i), sep));
        assert(rest[0] == r.take(i - 1));
        assert(seq![s[0]] + rest[0] =~= s.take(i));
        assert(rest.drop_first() =~= split_on(s.skip(i + 1), sep));
    }
}

/// A string without the separator is a single field.
pub proof fn lemma_split_no_sep(s: Seq<u8>, sep: u8)
    requires
        forall|k: int| 0 <= k < s.len() ==> s[k] != sep,
    ensures
        split_on(s, sep) == seq![s],
    decreases s.len(),
{
    if s.len() == 0 {
        assert(seq![Seq::<u8>::empty()] =~~= seq![s]);
    } else {
        let r = s.drop_first();
        lemma_split_no_sep(r, sep);
        assert(seq![s[0]] + r =~= s);
        assert(seq![s[0]] + split_on(r, sep)[0] =~= s);
        assert(split_on(r, sep).drop_first() =~= Seq::<Seq<u8>>::empty());
        assert(split_on(s, sep) =~~= seq![s]);
    }
}

/// Splits a byte string on a separator byte.
pub fn split_bytes(s: &Vec<u8>, sep: u8) -> (r: Vec<Vec<u8>>)
    ensures
        r.deep_view() == split_on(s@, sep),
{
    let mut r: Vec<Vec<u8>> = Vec::new();
    let mut cur: Vec<u8> = Vec::new();
    let mut i: usize = 0;
    proof {
        assert(s@.skip(0) =~= s@);
        assert(r.deep_view() =~~= Seq::<Seq<u8>>::empty());
        lemma_split_on_len(s@, sep);
    }
    while i < s.len()
        invariant
            i <= s@.len(),
            split_on(s@, sep) =~~= r.deep_view() + (seq![cur@ + split_on(s@.skip(i as int), sep)[0]]
                + split_on(s@.skip(i as int), sep).drop_first()),
        decreases s@.len() - i,
    {
        let ghost tail = split_on(s@.skip(i as int), sep);
        let ghost tail1 = split_on(s@.skip(i as int + 1), sep);
        proof {
            assert(s@.skip(i as int)[0] == s@[i as int]);
            assert(s@.skip(i as int).drop_first() =~= s@.skip(i as int + 1));
            lemma_split_on_len(s@.skip(i as int + 1), sep);
        }
        let c = s[i];
        if c == sep {
            proof {
                assert(tail =~~= seq![Seq::<u8>::empty()] + tail1);
                assert(tail[0] =~= Seq::<u8>::empty());
                assert(tail.drop_first() =~~= tail1);
                assert(cur@ + tail[0] =~= cur@);
            }
            let ghost r_before = r.deep_view();
            let done = cur;
            cur = Vec::new();
            proof {
                assert(tail1 =~~= seq![tail1[0]] + tail1.drop_first());
            }
            r.push(done);
            proof {
                assert(r.deep_view() =~~= r_before.push(done@));
                assert(r.deep_view() + (seq![cur@ + tail1[0]] + tail1.drop_first()) =~~= r_before
                    + (seq![done@ + tail[0]] + tail.drop_first()));
            }
        } else {
            proof {
                assert(tail =~~= seq![seq![s@[i as int]] + tail1[0]] + tail1.drop_first());
                assert(tail[0] =~= seq![s@[i as int]] + tail1[0]);
            }
            let ghost cur_before = cur@;
            cur.push(c);
            proof {
                assert(cur@ =~= cur_before.push(c));
                assert(cur@ + tail1[0] =~= cur_before + tail[0]);
                assert(tail.drop_first() =~~= tail1.drop_first());
            }
        }
        i += 1;
    }
    proof {
        assert(s@.skip(i as int).len() == 0);
        assert(split_on(s@.skip(i as int), sep) =~~= seq![Seq::<u8>::empty()]);
        assert(cur@ + split_on(s@.skip(i as int), sep)[0] =~= cur@);
        assert(split_on(s@.skip(i as int), sep).drop_first() =~~= Seq::<Seq<u8>>::empty());
    }
    let ghost r_before = r.deep_view();
    let ghost last = cur@;
    r.push(cur);
    proof {
        assert(r.deep_view() =~~= r_before.push(last));
        assert(r_before + (seq![last] + Seq::<Seq<u8>>::empty()) =~~= r_before.push(last));
    }
    r
}

pub open spec fn is_ws(c: u8) -> bool {
    c == 32 || c == 9 || c == 13
}

pub open spec fn trim_front(s: Seq<u8>) -> Seq<u8>
    decreases s.len(),
{
    if s.len() > 0 && is_ws(s[0]) {
        trim_front(s.drop_first())
    } else {
        s
    }
}

pub open spec fn trim_back(s: Seq<u8>) -> Seq<u8>
    decreases s.len(),
{
    if s.len() > 0 && is_ws(s.last()) {
        trim_back(s.drop_last())
    } else {
        s
    }
}

/// A field with surrounding whitespace removed.
pub open spec fn trimmed(s: Seq<u8>) -> Seq<u8> {
    trim_back(trim_front(s))
}

proof fn lemma_trim_front_skip(s: Seq<u8>, lo: int)
    requires
        0 <= lo <= s.len(),
        forall|k: int| 0 <= k < lo ==> is_ws(s[k]),
    ensures
        trim_front(s) == trim_front(s.skip(lo)),
    decreases lo,
{
    if lo > 0 {
        assert(is_ws(s[0]));
        let r = s.drop_first();
        assert(forall|k: int| 0 <= k < lo - 1 ==> #[trigger] r[k] == s[k + 1]);
        lemma_trim_front_skip(r, lo - 1);
        assert(r.skip(lo - 1) =~= s.skip(lo));
    } else {
        assert(s.skip(0) =~= s);
    }
}

proof fn lemma_trim_back_take(s: Seq<u8>, hi: int)
    requires
        0 <= hi <= s.len(),
        forall|k: int| hi <= k < s.len() ==> is_ws(s[k]),
    ensures
        trim_back(s) == trim_back(s.take(hi)),
    decreases s.len() - hi,
{
    if hi < s.len() {
        assert(is_ws(s.last()));
        let r = s.drop_last();
        lemma_trim_back_take(r, hi);
        assert(r.take(hi) =~= s.take(hi));
    } else {
        assert(s.take(hi) =~= s);
    }
}

/// Removes leading and trailing whitespace (space, tab, carriage return)
/// from a field.
pub fn trim_bytes(s: &Vec<u8>) -> (r: Vec<u8>)
    ensures
        r@ == trimmed(s@),
{
    let mut lo: usize = 0;
    while lo < s.len() && (s[lo] == 32 || s[lo] == 9 || s[lo] == 13)
        invariant
            lo <= s@.len(),
            forall|k: int| 0 <= k < lo ==> is_ws(s@[k]),
        decreases s@.len() - lo,
    {
        lo += 1;
    }
    proof {
        lemma_trim_front_skip(s@, lo as int);
        if lo < s@.len() {
            assert(s@.skip(lo as int)[0] == s@[lo as int]);
            assert(!is_ws(s@.skip(lo as int)[0]));
        }
        assert(trim_front(s@) == s@.skip(lo as int));
    }
    let mut hi: usize = s.len();
    while hi > lo && (s[hi - 1] == 32 || s[hi - 1] == 9 || s[hi - 1] == 13)
        invariant
            lo <= hi <= s@.len(),
            forall|k: int| hi <= k < s@.len() ==> is_ws(s@[k]),
        decreases hi,
    {
        hi -= 1;
    }
    let ghost t = s@.skip(lo as int);
    proof {
        assert(forall|k: int|
            hi - lo <= k < t.len() ==> #[trigger] t[k] == s@[k + lo]);
        assert(forall|k: int| hi - lo <= k < t.len() ==> is_ws(t[k]));
        lemma_trim_back_take(t, hi - lo as int);
        if hi > lo {
            assert(t.take(hi - lo as int).last() == s@[hi - 1]);
            assert(!is_ws(t.take(hi - lo as int).last()));
        }
        assert(trim_back(t) == t.take(hi - lo as int));
        assert(t.take(hi - lo as int) =~= s@.subrange(lo as int, hi as int));
    }
    let mut r: Vec<u8> = Vec::new();
    let mut k: usize = lo;
    proof {
        assert(r@ =~= s@.subrange(lo as int, lo as int));
    }
    while k < hi
        invariant
            lo <= k <= hi <= s@.len(),
            r@ == s@.subrange(lo as int, k as int),
        decreases hi - k,
    {
        r.push(s[k]);
        proof {
            assert(s@.subrange(lo as int, k as int + 1) =~= s@.subrange(lo as int, k as int).push(
                s@[k as int],
            ));
        }
        k += 1;
    }
    r
}

/// A field that survives a table round trip unchanged: it holds no
/// separator (comma or newline) and no surrounding whitespace.
pub open spec fn clean_field(s: Seq<u8>) -> bool {
    &&& forall|i: int| 0 <= i < s.len() ==> s[i] != 44 && s[i] != 10
    &&& s.len() > 0 ==> !is_ws(s[0]) && !is_ws(s.last())
}

/// Trimming a field without surrounding whitespace changes nothing.
pub proof fn lemma_trim_id(s: Seq<u8>)
    requires
        s.len() > 0 ==> !is_ws(s[0]) && !is_ws(s.last()),
    ensures
        trimmed(s) == s,
{
    assert(trim_front(s) == s);
    assert(trim_back(s) == s);
}

/// A line's trailing carriage return, if any, is dropped.
pub open spec fn strip_cr(l: Seq<u8>) -> Seq<u8> {
    if l.len() > 0 && l.last() == 13 {
        l.drop_last()
    } else {
        l
    }
}

/// Lines as records: carriage returns stripped, empty lines skipped.
pub open spec fn clean_lines(ls: Seq<Seq<u8>>) -> Seq<Seq<u8>>
    decreases ls.len(),
{
    if ls.len() == 0 {
        Seq::empty()
    } else {
        let h = strip_cr(ls[0]);
        (if h.len() > 0 {
            seq![h]
        } else {
            Seq::empty()
        }) + clean_lines(ls.drop_first())
    }
}

/// The records of a byte buffer: split on newlines, carriage returns
/// stripped, empty lines (including one after a trailing newline) skipped.
pub open spec fn lines_of(s: Seq<u8>) -> Seq<Seq<u8>> {
    clean_lines(split_on(s, 10))
}

pub proof fn lemma_clean_lines_append(a: Seq<Seq<u8>>, b: Seq<Seq<u8>>)
    ensures
        clean_lines(a + b) == clean_lines(a) + clean_lines(b),
    decreases a.len(),
{
    if a.len() == 0 {
        assert(a + b =~~= b);
        assert(clean_lines(a) + clean_lines(b) =~~= clean_lines(b));
    } else {
        assert((a + b)[0] == a[0]);
        assert((a + b).drop_first() =~~= a.drop_first() + b);
        lemma_clean_lines_append(a.drop_first(), b);
        let h = strip_cr(a[0]);
        if h.len() > 0 {
            assert(seq![h] + (clean_lines(a.drop_first()) + clean_lines(b)) =~~= (seq![h]
                + clean_lines(a.drop_first())) + clean_lines(b));
        } else {
            assert(Seq::<Seq<u8>>::empty() + (clean_lines(a.drop_first()) + clean_lines(b)) =~~= (
            Seq::<Seq<u8>>::empty() + clean_lines(a.drop_first())) + clean_lines(b));
        }
    }
}

/// Splits a buffer into cleaned lines: newline-separated, carriage returns
/// stripped, empty lines skipped.
pub fn split_clean_lines(s: &Vec<u8>) -> (r: Vec<Vec<u8>>)
    ensures
        r.deep_view() == lines_of(s@),
{
    let mut lines = split_bytes(s, 10);
    let ghost ls = lines.deep_view();
    let mut r: Vec<Vec<u8>> = Vec::new();
    let mut k: usize = 0;
    let total = lines.len();
    proof {
        assert(ls.take(0) =~~= Seq::<Seq<u8>>::empty());
        assert(clean_lines(ls.take(0)) =~~= Seq::<Seq<u8>>::empty());
        assert(r.deep_view() =~~= Seq::<Seq<u8>>::empty());
    }
    while k < total
        invariant
            k <= total,
            total == ls.len(),
            lines@.len() == ls.len(),
            lines.deep_view() == ls,
            r.deep_view() == clean_lines(ls.take(k as int)),
        decreases total - k,
    {
        let ghost r_before = r.deep_view();
        let line = &lines[k];
        let n = line.len();
        proof {
            assert(line@ == ls[k as int]);
        }
        if n > 0 && line[n - 1] == 13 {
            if n > 1 {
                let mut kept: Vec<u8> = Vec::new();
                let mut q: usize = 0;
                while q < n - 1
                    invariant
                        q <= n - 1,
                        n - 1 < line@.len() + 1,
                        n == line@.len(),
                        kept@ == line@.take(q as int),
                    decreases n - 1 - q,
                {
                    kept.push(line[q]);
                    proof {
                        assert(line@.take(q as int + 1) =~= line@.take(q as int).push(
                            line@[q as int],
                        ));
                    }
                    q += 1;
                }
                proof {
                    assert(kept@ =~= strip_cr(ls[k as int]));
                }
                r.push(kept);
                proof {
                    assert(r.deep_view() =~~= r_before.push(strip_cr(ls[k as int])));
                }
            } else {
                proof {
                    assert(strip_cr(ls[k as int]) =~= Seq::<u8>::empty());
                }
            }
        } else {
            if n > 0 {
                let kept = crate::reconcile::copy_bytes(line);
                proof {
                    assert(strip_cr(ls[k as int]) == ls[k as int]);
                }
                r.push(kept);
                proof {
                    assert(r.deep_view() =~~= r_before.push(strip_cr(ls[k as int])));
                }
            } else {
                proof {
                    assert(strip_cr(ls[k as int]) == ls[k as int]);
                }
            }
        }
        proof {
            assert(ls.take(k as int + 1) =~~= ls.take(k as int) + seq![ls[k as int]]);
            lemma_clean_lines_append(ls.take(k as int), seq![ls[k as int]]);
            assert(seq![ls[k as int]][0] == ls[k as int]);
            assert(seq![ls[k as int]].drop_first() =~~= Seq::<Seq<u8>>::empty());
            assert(clean_lines(Seq::<Seq<u8>>::empty()) =~~= Seq::<Seq<u8>>::empty());
            let h = strip_cr(ls[k as int]);
            if h.len() > 0 {
                assert(clean_lines(seq![ls[k as int]]) =~~= seq![h]);
            } else {
                assert(clean_lines(seq![ls[k as int]]) =~~= Seq::<Seq<u8>>::empty());
                assert(r.deep_view() =~~= r_before + Seq::<Seq<u8>>::empty());
            }
        }
        k += 1;
    }
    proof {
        assert(ls.take(total as int) =~~= ls);
    }
    r
}

} // verus!
