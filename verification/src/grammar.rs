//! The RESP grammar, stated as mathematics over byte sequences.
//!
//! Each production is a spec function from a `Seq<u8>` to a [`SpecStep`]:
//! either a decoded [`SpecValue`] together with the number of bytes consumed,
//! or the number of bytes consumed before the point of failure. The
//! executable decoder in [`crate::resp`] is proved to return exactly what
//! these functions describe.

use vstd::prelude::*;

verus! {

/// A decoded protocol value, as pure mathematics: bulk strings are byte
/// sequences, arrays are sequences of values.
pub enum SpecValue {
    /// The sentinel for an array declared with length -1.
    NullArray,
    /// A decoded non-negative integer.
    Number(u64),
    /// A decoded bulk string: exactly the declared number of bytes.
    Bytes(Seq<u8>),
    /// A decoded array: exactly the declared number of elements, in order.
    Array(Seq<SpecValue>),
}

/// The outcome of one production on one input: a result together with the
/// number of bytes consumed, or the number of bytes consumed before the
/// point of failure (the error then carries the input from that point on).
pub enum SpecStep<V> {
    Done(V, nat),
    Fail(nat),
}

/// An ASCII decimal digit.
pub open spec fn is_digit(b: u8) -> bool {
    48 <= b <= 57
}

/// Length of the maximal leading run of decimal digits.
pub open spec fn digit_run_len(s: Seq<u8>) -> nat
    decreases s.len(),
{
    if s.len() == 0 || !is_digit(s[0]) {
        0
    } else {
        1 + digit_run_len(s.skip(1))
    }
}

/// The number denoted by a sequence of decimal digits, most significant
/// digit first.
pub open spec fn digits_value(s: Seq<u8>) -> nat
    decreases s.len(),
{
    if s.len() == 0 {
        0
    } else {
        digits_value(s.drop_last()) * 10 + ((s.last() - 48) as nat)
    }
}

/// The two-byte terminator `\r\n` stands at index `i`.
pub open spec fn crlf_at(s: Seq<u8>, i: int) -> bool {
    &&& 0 <= i
    &&& i + 2 <= s.len()
    &&& s[i] == 13
    &&& s[i + 1] == 10
}

/// `p` is a prefix of `s`.
pub open spec fn begins_with(s: Seq<u8>, p: Seq<u8>) -> bool {
    p.len() <= s.len() && (forall|i: int| 0 <= i < p.len() ==> s[i] == p[i])
}

/// The four bytes `-1\r\n` that declare a null array after its sentinel.
pub open spec fn null_marker() -> Seq<u8> {
    seq![45u8, 49u8, 13u8, 10u8]
}

/// The primitive integer reader: the maximal leading digit run, read as a
/// number. It fails on an empty run and on a number beyond the target width.
pub open spec fn spec_number(s: Seq<u8>) -> SpecStep<u64> {
    let k = digit_run_len(s);
    if k == 0 || digits_value(s.take(k as int)) > u64::MAX {
        SpecStep::Fail(0)
    } else {
        SpecStep::Done(digits_value(s.take(k as int)) as u64, k)
    }
}

/// The integer production: `:<digits>\r\n`.
pub open spec fn spec_parse_int(s: Seq<u8>) -> SpecStep<SpecValue> {
    if s.len() == 0 || s[0] != 58 {
        SpecStep::Fail(0)
    } else {
        let t = s.skip(1);
        match spec_number(t) {
            SpecStep::Fail(_) => SpecStep::Fail(1),
            SpecStep::Done(n, k) => {
                if !crlf_at(t, k as int) {
                    SpecStep::Fail(1 + k)
                } else {
                    SpecStep::Done(SpecValue::Number(n), 3 + k)
                }
            },
        }
    }
}

/// The bulk-string production: `$<len>\r\n<len bytes>\r\n`. A declared
/// length is never signed, so `$-1\r\n` (the protocol's null bulk string)
/// fails at the digit reader.
pub open spec fn spec_parse_bulk(s: Seq<u8>) -> SpecStep<SpecValue> {
    if s.len() == 0 || s[0] != 36 {
        SpecStep::Fail(0)
    } else {
        let t = s.skip(1);
        match spec_number(t) {
            SpecStep::Fail(_) => SpecStep::Fail(1),
            SpecStep::Done(n, k) => {
                if !crlf_at(t, k as int) {
                    SpecStep::Fail(1 + k)
                } else {
                    let u = t.skip((k + 2) as int);
                    if u.len() < n {
                        SpecStep::Fail(3 + k)
                    } else if !crlf_at(u, n as int) {
                        SpecStep::Fail((3 + k + n) as nat)
                    } else {
                        SpecStep::Done(SpecValue::Bytes(u.take(n as int)), (5 + k + n) as nat)
                    }
                }
            },
        }
    }
}

/// The array production: `*<count>\r\n` followed by exactly `count`
/// elements, each any production, to arbitrary depth. The count is checked
/// for the special declaration `-1` before the unsigned digit reader runs:
/// `*-1\r\n` yields the null array and consumes no element data.
pub open spec fn spec_parse_array(s: Seq<u8>) -> SpecStep<SpecValue>
    decreases s.len(), 0int, 0nat,
{
    if s.len() == 0 || s[0] != 42 {
        SpecStep::Fail(0)
    } else {
        let t = s.skip(1);
        if t.len() >= 1 && t[0] == 45 {
            if begins_with(t, null_marker()) {
                SpecStep::Done(SpecValue::NullArray, 5)
            } else {
                SpecStep::Fail(1)
            }
        } else {
            match spec_number(t) {
                SpecStep::Fail(_) => SpecStep::Fail(1),
                SpecStep::Done(n, k) => {
                    if !crlf_at(t, k as int) {
                        SpecStep::Fail(1 + k)
                    } else {
                        match spec_parse_list(n as nat, s.skip((3 + k) as int)) {
                            SpecStep::Done(vs, c) => SpecStep::Done(
                                SpecValue::Array(vs),
                                3 + k + c,
                            ),
                            SpecStep::Fail(c) => SpecStep::Fail(3 + k + c),
                        }
                    }
                },
            }
        }
    }
}

/// The entry point: ordered alternation over integer, bulk string and array.
/// The first success wins; when all fail, the failure is the array
/// production's, taken against the original input.
pub open spec fn spec_parse(s: Seq<u8>) -> SpecStep<SpecValue>
    decreases s.len(), 1int, 0nat,
{
    match spec_parse_int(s) {
        SpecStep::Done(v, c) => SpecStep::Done(v, c),
        SpecStep::Fail(_) => match spec_parse_bulk(s) {
            SpecStep::Done(v, c) => SpecStep::Done(v, c),
            SpecStep::Fail(_) => spec_parse_array(s),
        },
    }
}

/// Repetition: exactly `n` elements, each handed the remainder the previous
/// one left, the results collected in order. The first failure aborts the
/// whole repetition at its own failure point.
pub open spec fn spec_parse_list(n: nat, s: Seq<u8>) -> SpecStep<Seq<SpecValue>>
    decreases s.len(), 2int, n,
{
    if n == 0 {
        SpecStep::Done(Seq::empty(), 0)
    } else {
        match spec_parse(s) {
            SpecStep::Fail(c) => SpecStep::Fail(c),
            SpecStep::Done(v, c) => {
                if c <= s.len() {
                    match spec_parse_list((n - 1) as nat, s.skip(c as int)) {
                        SpecStep::Done(vs, c2) => SpecStep::Done(seq![v].add(vs), c + c2),
                        SpecStep::Fail(c2) => SpecStep::Fail(c + c2),
                    }
                } else {
                    // a production never consumes past the end of its input
                    // (lemma_parse_bounds), so this branch is never taken
                    SpecStep::Fail(s.len())
                }
            },
        }
    }
}

/// The leading digit run is the unique cut: everything before it is a
/// digit, and it ends at the end of the input or at the first non-digit.
pub proof fn lemma_digit_run_props(s: Seq<u8>)
    ensures
        digit_run_len(s) <= s.len(),
        forall|i: int| 0 <= i < digit_run_len(s) ==> is_digit(#[trigger] s[i]),
        digit_run_len(s) < s.len() ==> !is_digit(s[digit_run_len(s) as int]),
    decreases s.len(),
{
    if s.len() == 0 || !is_digit(s[0]) {
    } else {
        lemma_digit_run_props(s.skip(1));
        assert forall|i: int| 0 <= i < digit_run_len(s) implies is_digit(#[trigger] s[i]) by {
            if i >= 1 {
                assert(s[i] == s.skip(1)[i - 1]);
            }
        }
    }
}

/// The digit run is exactly `k` when the first `k` bytes are digits and the
/// input ends there or continues with a non-digit.
pub proof fn lemma_digit_run_is(s: Seq<u8>, k: int)
    requires
        0 <= k <= s.len(),
        forall|i: int| 0 <= i < k ==> is_digit(#[trigger] s[i]),
        k == s.len() || !is_digit(s[k]),
    ensures
        digit_run_len(s) == k,
{
    lemma_digit_run_props(s);
}

/// Reading one more digit multiplies the value by ten and adds the digit.
pub proof fn lemma_digits_value_step(s: Seq<u8>, i: int)
    requires
        0 <= i < s.len(),
    ensures
        digits_value(s.take(i + 1)) == digits_value(s.take(i)) * 10 + ((s[i] - 48) as nat),
{
    assert(s.take(i + 1).drop_last() =~= s.take(i));
    assert(s.take(i + 1).last() == s[i]);
}

/// The value of a digit prefix never shrinks as the prefix grows.
pub proof fn lemma_digits_value_monotone(s: Seq<u8>, i: int, j: int)
    requires
        0 <= i <= j <= s.len(),
    ensures
        digits_value(s.take(i)) <= digits_value(s.take(j)),
    decreases j - i,
{
    if i < j {
        lemma_digits_value_monotone(s, i, j - 1);
        lemma_digits_value_step(s, j - 1);
        assert(digits_value(s.take(j - 1)) * 10 >= digits_value(s.take(j - 1))) by (nonlinear_arith);
    }
}

/// A production consumes at least the sentinel, a digit and a terminator,
/// and never more than its input; a failure point lies within the input.
pub proof fn lemma_parse_bounds(s: Seq<u8>)
    ensures
        match spec_parse(s) {
            SpecStep::Done(_, c) => 4 <= c <= s.len(),
            SpecStep::Fail(c) => c <= s.len(),
        },
        match spec_parse_int(s) {
            SpecStep::Done(_, c) => 4 <= c <= s.len(),
            SpecStep::Fail(c) => c <= s.len(),
        },
        match spec_parse_bulk(s) {
            SpecStep::Done(_, c) => 4 <= c <= s.len(),
            SpecStep::Fail(c) => c <= s.len(),
        },
        match spec_parse_array(s) {
            SpecStep::Done(_, c) => 4 <= c <= s.len(),
            SpecStep::Fail(c) => c <= s.len(),
        },
    decreases s.len(), 1int, 0nat,
{
    if s.len() >= 1 {
        lemma_digit_run_props(s.skip(1));
        if s[0] == 42 {
            let t = s.skip(1);
            if !(t.len() >= 1 && t[0] == 45) {
                match spec_number(t) {
                    SpecStep::Done(n, k) => {
                        if crlf_at(t, k as int) {
                            lemma_list_bounds(n as nat, s.skip((3 + k) as int));
                        }
                    },
                    SpecStep::Fail(_) => {},
                }
            }
        }
    }
}

/// A repetition consumes no more than its input; a failure point lies
/// within the input; a success yields exactly the declared count.
pub proof fn lemma_list_bounds(n: nat, s: Seq<u8>)
    ensures
        match spec_parse_list(n, s) {
            SpecStep::Done(vs, c) => vs.len() == n && c <= s.len(),
            SpecStep::Fail(c) => c <= s.len(),
        },
    decreases s.len(), 2int, n,
{
    if n > 0 {
        lemma_parse_bounds(s);
        match spec_parse(s) {
            SpecStep::Done(v, c) => {
                lemma_list_bounds((n - 1) as nat, s.skip(c as int));
            },
            SpecStep::Fail(_) => {},
        }
    }
}

} // verus!
