//! General laws of the grammar, proved once and for all inputs.
//!
//! Together with the decoder's contracts in [`crate::resp`] — each
//! executable function returns exactly what the grammar in
//! [`crate::grammar`] describes — these laws say how whole encodings
//! decode: each production's encoding decodes to its value and consumes
//! every byte of it, and a decode is stable under trailing bytes, which is
//! what lets productions be concatenated.

use vstd::prelude::*;

use crate::grammar::SpecStep;
use crate::grammar::SpecValue;
use crate::grammar::crlf_at;
use crate::grammar::digit_run_len;
use crate::grammar::digits_value;
use crate::grammar::is_digit;
use crate::grammar::lemma_digit_run_is;
use crate::grammar::lemma_digit_run_props;
use crate::grammar::lemma_list_bounds;
use crate::grammar::lemma_parse_bounds;
use crate::grammar::null_marker;
use crate::grammar::spec_number;
use crate::grammar::spec_parse;
use crate::grammar::spec_parse_array;
use crate::grammar::spec_parse_bulk;
use crate::grammar::spec_parse_int;
use crate::grammar::spec_parse_list;

verus! {

/// The decimal digits of `n`, most significant first, without leading
/// zeroes (`0` itself is the single digit `0`).
pub open spec fn digits_of(n: nat) -> Seq<u8>
    decreases n,
{
    if n < 10 {
        seq![(48 + n) as u8]
    } else {
        digits_of(n / 10).push((48 + n % 10) as u8)
    }
}

/// `digits_of` writes only digits, at least one, and they denote `n`.
pub proof fn lemma_digits_of(n: nat)
    ensures
        digits_of(n).len() >= 1,
        forall|i: int| 0 <= i < digits_of(n).len() ==> is_digit(#[trigger] digits_of(n)[i]),
        digits_value(digits_of(n)) == n,
    decreases n,
{
    if n < 10 {
        assert(digits_of(n) =~= seq![(48 + n) as u8]);
        assert(digits_of(n).drop_last() =~= Seq::<u8>::empty());
        assert(digits_of(n).last() == (48 + n) as u8);
        assert(((((48 + n) as u8)) - 48) as nat == n);
        assert(digits_value(Seq::<u8>::empty()) == 0);
        assert(digits_value(digits_of(n)) == 0 * 10 + n);
    } else {
        lemma_digits_of(n / 10);
        let d = digits_of(n / 10).push((48 + n % 10) as u8);
        assert(d.drop_last() =~= digits_of(n / 10));
        assert(d.last() == (48 + n % 10) as u8);
        assert(((((48 + n % 10) as u8)) - 48) as nat == n % 10);
        assert(digits_value(d) == digits_value(digits_of(n / 10)) * 10 + n % 10);
        assert(n / 10 * 10 + n % 10 == n) by (nonlinear_arith);
        assert(digits_of(n) == d);
        assert forall|i: int| 0 <= i < d.len() implies is_digit(#[trigger] d[i]) by {
            if i < d.len() - 1 {
                assert(d[i] == digits_of(n / 10)[i]);
            }
        }
    }
}

/// The encoding of the integer production for `k`.
pub open spec fn int_encoding(k: u64) -> Seq<u8> {
    seq![58u8].add(digits_of(k as nat)).add(seq![13u8, 10u8])
}

/// The encoding of the bulk-string production for the bytes `b`.
pub open spec fn bulk_encoding(b: Seq<u8>) -> Seq<u8> {
    seq![36u8].add(digits_of(b.len())).add(seq![13u8, 10u8]).add(b).add(seq![13u8, 10u8])
}

/// The encoding of the array production whose elements are encoded by
/// `encs`, in order.
pub open spec fn array_encoding(encs: Seq<Seq<u8>>) -> Seq<u8> {
    seq![42u8].add(digits_of(encs.len())).add(seq![13u8, 10u8]).add(concat_all(encs))
}

/// The element encodings, one after the other.
pub open spec fn concat_all(encs: Seq<Seq<u8>>) -> Seq<u8>
    decreases encs.len(),
{
    if encs.len() == 0 {
        Seq::empty()
    } else {
        encs[0].add(concat_all(encs.skip(1)))
    }
}

/// A digit run in front of a terminator reads back as the digits written:
/// when the input continues with a non-digit right after `d`, the maximal
/// run is exactly `d`, whatever follows.
proof fn lemma_run_reads_digits(s: Seq<u8>, d: Seq<u8>)
    requires
        d.len() < s.len(),
        forall|i: int| 0 <= i < d.len() ==> s[i] == #[trigger] d[i],
        forall|i: int| 0 <= i < d.len() ==> is_digit(#[trigger] d[i]),
        !is_digit(s[d.len() as int]),
    ensures
        digit_run_len(s) == d.len(),
        digits_value(s.take(d.len() as int)) == digits_value(d),
{
    assert forall|i: int| 0 <= i < d.len() implies is_digit(#[trigger] s[i]) by {
        assert(s[i] == d[i]);
    }
    lemma_digit_run_is(s, d.len() as int);
    assert(s.take(d.len() as int) =~= d);
}

/// For every representable integer `k`, the encoding `:k\r\n` decodes to
/// that number and consumes every byte of it: with nothing after the
/// encoding, the remainder is empty.
pub proof fn lemma_decode_int_encoding(k: u64)
    ensures
        spec_parse(int_encoding(k)) == SpecStep::<SpecValue>::Done(
            SpecValue::Number(k),
            int_encoding(k).len(),
        ),
{
    let s = int_encoding(k);
    let d = digits_of(k as nat);
    let t = s.skip(1);
    lemma_digits_of(k as nat);
    assert(t =~= d.add(seq![13u8, 10u8]));
    lemma_run_reads_digits(t, d);
    assert(spec_number(t) == SpecStep::<u64>::Done(k, d.len()));
    assert(crlf_at(t, d.len() as int));
    assert(spec_parse_int(s) == SpecStep::<SpecValue>::Done(SpecValue::Number(k), s.len()));
}

/// For every byte sequence `b` whose length the digit reader can
/// represent, the encoding `$L\r\n b \r\n` (with `L` the length of `b`,
/// including zero) decodes to exactly those bytes and consumes every byte
/// of the encoding.
pub proof fn lemma_decode_bulk_encoding(b: Seq<u8>)
    requires
        b.len() <= u64::MAX,
    ensures
        spec_parse(bulk_encoding(b)) == SpecStep::<SpecValue>::Done(
            SpecValue::Bytes(b),
            bulk_encoding(b).len(),
        ),
{
    let s = bulk_encoding(b);
    let d = digits_of(b.len());
    let t = s.skip(1);
    lemma_digits_of(b.len());
    assert(t =~= d.add(seq![13u8, 10u8]).add(b).add(seq![13u8, 10u8]));
    lemma_run_reads_digits(t, d);
    let k = d.len() as int;
    assert(spec_number(t) == SpecStep::<u64>::Done(b.len() as u64, d.len()));
    assert(crlf_at(t, k));
    let u = t.skip(k + 2);
    assert(u =~= b.add(seq![13u8, 10u8]));
    assert(crlf_at(u, b.len() as int));
    assert(u.take(b.len() as int) =~= b);
    assert(spec_parse_bulk(s) == SpecStep::<SpecValue>::Done(SpecValue::Bytes(b), s.len()));
    assert(spec_parse_int(s) == SpecStep::<SpecValue>::Fail(0));
}

/// Decoding is stable under trailing bytes: whatever a successful decode
/// consumed, appending anything after the consumed prefix changes neither
/// the value nor the number of bytes consumed — the trailing bytes come
/// back, byte for byte, as the remainder.
pub proof fn lemma_parse_extend(s: Seq<u8>, t: Seq<u8>)
    requires
        spec_parse(s) matches SpecStep::Done(_, _),
    ensures
        spec_parse(s.take(spec_parse(s)->Done_1 as int).add(t)) == spec_parse(s),
    decreases s.len(), 1int, 0nat,
{
    let c = spec_parse(s)->Done_1 as int;
    let s2 = s.take(c).add(t);
    lemma_parse_bounds(s);
    assert(s2[0] == s[0]);
    let t0 = s.skip(1);
    let t2 = s2.skip(1);
    lemma_digit_run_props(t0);
    if spec_parse_int(s) matches SpecStep::Done(_, _) {
        let k = digit_run_len(t0) as int;
        assert(c == 3 + k);
        assert forall|i: int| 0 <= i < k implies t2[i] == #[trigger] t0[i] by {
            assert(t2[i] == s2[i + 1]);
            assert(s2[i + 1] == s[i + 1]);
        }
        assert forall|i: int| 0 <= i < k implies is_digit(#[trigger] t2[i]) by {
            assert(t2[i] == t0[i]);
        }
        lemma_digit_run_is(t2, k);
        assert(t2.take(k) =~= t0.take(k));
        assert(t2[k] == s[k + 1] && t2[k + 1] == s[k + 2]);
        assert(crlf_at(t2, k));
        assert(spec_parse_int(s2) == spec_parse_int(s));
    } else if spec_parse_bulk(s) matches SpecStep::Done(_, _) {
        let k = digit_run_len(t0) as int;
        let n = digits_value(t0.take(k)) as int;
        assert(c == 5 + k + n);
        assert forall|i: int| 0 <= i < k implies t2[i] == #[trigger] t0[i] by {
            assert(t2[i] == s2[i + 1]);
            assert(s2[i + 1] == s[i + 1]);
        }
        assert forall|i: int| 0 <= i < k implies is_digit(#[trigger] t2[i]) by {
            assert(t2[i] == t0[i]);
        }
        lemma_digit_run_is(t2, k);
        assert(t2.take(k) =~= t0.take(k));
        assert(t2[k] == s[k + 1] && t2[k + 1] == s[k + 2]);
        assert(crlf_at(t2, k));
        let u0 = t0.skip(k + 2);
        let u2 = t2.skip(k + 2);
        assert forall|i: int| 0 <= i < n + 2 implies u2[i] == #[trigger] u0[i] by {
            assert(u2[i] == s2[i + k + 3]);
            assert(s2[i + k + 3] == s[i + k + 3]);
        }
        assert(u2.len() >= n + 2);
        assert(u2.take(n) =~= u0.take(n));
        assert(crlf_at(u2, n));
        assert(spec_parse_bulk(s2) == spec_parse_bulk(s));
        assert(spec_parse_int(s2) == SpecStep::<SpecValue>::Fail(0));
    } else {
        // the array production succeeded
        assert(spec_parse_array(s) matches SpecStep::Done(_, _));
        assert(s[0] == 42);
        if t0.len() >= 1 && t0[0] == 45 {
            // the null array: the marker lies within the consumed prefix
            assert(c == 5);
            assert forall|i: int| 0 <= i < 4 implies t2[i] == #[trigger] null_marker()[i] by {
                assert(t2[i] == s2[i + 1]);
                assert(s2[i + 1] == s[i + 1]);
                assert(t0[i] == null_marker()[i]);
            }
            assert(t2.len() >= 4 && t2[0] == 45);
            assert(spec_parse_array(s2) == spec_parse_array(s));
        } else {
            let k = digit_run_len(t0) as int;
            let n = digits_value(t0.take(k));
            assert forall|i: int| 0 <= i < k implies t2[i] == #[trigger] t0[i] by {
                assert(t2[i] == s2[i + 1]);
                assert(s2[i + 1] == s[i + 1]);
            }
            assert forall|i: int| 0 <= i < k implies is_digit(#[trigger] t2[i]) by {
            assert(t2[i] == t0[i]);
        }
        lemma_digit_run_is(t2, k);
            assert(t2.take(k) =~= t0.take(k));
            assert(t2[k] == s[k + 1] && t2[k + 1] == s[k + 2]);
            assert(crlf_at(t2, k));
            assert(t2.len() >= 1 && !is_digit(45u8) && is_digit(t2[0]) && t2[0] != 45);
            let body = s.skip(3 + k);
            let cl = spec_parse_list(n, body)->Done_1;
            assert(c == 3 + k + cl);
            lemma_list_bounds(n, body);
            lemma_list_extend(n, body, t);
            assert(s2.skip(3 + k) =~= body.take(cl as int).add(t));
            assert(spec_parse_array(s2) == spec_parse_array(s));
        }
        assert(spec_parse_int(s2) == SpecStep::<SpecValue>::Fail(0));
        assert(spec_parse_bulk(s2) == SpecStep::<SpecValue>::Fail(0));
    }
}

/// Repetition is stable under trailing bytes, element by element.
pub proof fn lemma_list_extend(n: nat, s: Seq<u8>, t: Seq<u8>)
    requires
        spec_parse_list(n, s) matches SpecStep::Done(_, _),
    ensures
        spec_parse_list(n, s.take(spec_parse_list(n, s)->Done_1 as int).add(t))
            == spec_parse_list(n, s),
    decreases s.len(), 2int, n,
{
    let c = spec_parse_list(n, s)->Done_1 as int;
    lemma_list_bounds(n, s);
    if n == 0 {
        assert(s.take(0).add(t) =~= t);
    } else {
        let c1 = spec_parse(s)->Done_1 as int;
        lemma_parse_bounds(s);
        let tail = s.skip(c1);
        let c2 = spec_parse_list((n - 1) as nat, tail)->Done_1 as int;
        lemma_list_bounds((n - 1) as nat, tail);
        assert(c == c1 + c2);
        lemma_parse_extend(s, s.subrange(c1, c).add(t));
        assert(s.take(c).add(t) =~= s.take(c1).add(s.subrange(c1, c).add(t)));
        lemma_list_extend((n - 1) as nat, tail, t);
        assert(s.take(c).add(t).skip(c1) =~= tail.take(c2).add(t));
    }
}

/// Decoding a whole encoding followed by trailing bytes yields the same
/// value and leaves exactly the trailing bytes unconsumed.
pub proof fn lemma_decode_with_trailing(p: Seq<u8>, t: Seq<u8>)
    requires
        spec_parse(p) matches SpecStep::Done(_, _),
        spec_parse(p)->Done_1 == p.len(),
    ensures
        spec_parse(p.add(t)) == SpecStep::<SpecValue>::Done(spec_parse(p)->Done_0, p.len()),
{
    lemma_parse_extend(p, t);
    assert(p.take(p.len() as int) =~= p);
}

/// For well-formed element encodings `encs`, each decoding alone to its
/// value in `vals` with nothing left over, the concatenation decodes as a
/// repetition to exactly those values, in order, consuming every byte.
proof fn lemma_list_of_encodings(encs: Seq<Seq<u8>>, vals: Seq<SpecValue>)
    requires
        encs.len() == vals.len(),
        forall|i: int| 0 <= i < encs.len() ==> #[trigger] spec_parse(encs[i])
            == SpecStep::<SpecValue>::Done(vals[i], encs[i].len()),
    ensures
        spec_parse_list(encs.len(), concat_all(encs)) == SpecStep::<Seq<SpecValue>>::Done(
            vals,
            concat_all(encs).len(),
        ),
    decreases encs.len(),
{
    if encs.len() == 0 {
        assert(vals =~= Seq::<SpecValue>::empty());
    } else {
        let e0 = encs[0];
        let rest = concat_all(encs.skip(1));
        let whole = concat_all(encs);
        assert(whole == e0.add(rest));
        assert(spec_parse(e0) == SpecStep::<SpecValue>::Done(vals[0], e0.len()));
        lemma_parse_bounds(e0);
        lemma_parse_extend(e0, rest);
        assert(e0.take(e0.len() as int) =~= e0);
        assert(spec_parse(whole) == SpecStep::<SpecValue>::Done(vals[0], e0.len()));
        assert forall|i: int| 0 <= i < encs.skip(1).len() implies #[trigger] spec_parse(
            encs.skip(1)[i],
        ) == SpecStep::<SpecValue>::Done(vals.skip(1)[i], encs.skip(1)[i].len()) by {
            assert(encs.skip(1)[i] == encs[i + 1]);
            assert(vals.skip(1)[i] == vals[i + 1]);
        }
        lemma_list_of_encodings(encs.skip(1), vals.skip(1));
        assert(whole.skip(e0.len() as int) =~= rest);
        assert(seq![vals[0]].add(vals.skip(1)) =~= vals);
    }
}

/// For every count `n` the digit reader can represent and well-formed
/// element encodings `e_1 .. e_n`, decoding `*n\r\n e_1 .. e_n` yields the
/// array of the elements' values, in order, and consumes every byte; with
/// nothing after the encoding, the remainder is empty.
pub proof fn lemma_decode_array_encoding(encs: Seq<Seq<u8>>, vals: Seq<SpecValue>)
    requires
        encs.len() == vals.len(),
        encs.len() <= u64::MAX,
        forall|i: int| 0 <= i < encs.len() ==> #[trigger] spec_parse(encs[i])
            == SpecStep::<SpecValue>::Done(vals[i], encs[i].len()),
    ensures
        spec_parse(array_encoding(encs)) == SpecStep::<SpecValue>::Done(
            SpecValue::Array(vals),
            array_encoding(encs).len(),
        ),
{
    let s = array_encoding(encs);
    let d = digits_of(encs.len());
    let t = s.skip(1);
    let body = concat_all(encs);
    lemma_digits_of(encs.len());
    assert(t =~= d.add(seq![13u8, 10u8]).add(body));
    lemma_run_reads_digits(t, d);
    let k = d.len() as int;
    assert(spec_number(t) == SpecStep::<u64>::Done(encs.len() as u64, d.len()));
    assert(crlf_at(t, k));
    assert(t.len() >= 1 && is_digit(t[0]) && t[0] != 45);
    assert(s.skip(3 + k) =~= body);
    lemma_list_of_encodings(encs, vals);
    assert(spec_parse_array(s) == SpecStep::<SpecValue>::Done(SpecValue::Array(vals), s.len()));
    assert(spec_parse_int(s) == SpecStep::<SpecValue>::Fail(0));
    assert(spec_parse_bulk(s) == SpecStep::<SpecValue>::Fail(0));
}

} // verus!
