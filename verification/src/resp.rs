//! The executable RESP decoder.
//!
//! Every function returns, on success, the parsed result together with the
//! unconsumed remainder of the input, and on failure an [`Error`] carrying
//! the remaining input at the point of failure. Each contract states the
//! outcome exactly, as the grammar in [`crate::grammar`] gives it.

use vstd::prelude::*;
use vstd::slice::slice_index_get;
use vstd::slice::slice_subrange;
use vstd::slice::slice_to_vec;

use crate::grammar::SpecStep;
use crate::grammar::SpecValue;
use crate::grammar::begins_with;
use crate::grammar::crlf_at;
use crate::grammar::digit_run_len;
use crate::grammar::digits_value;
use crate::grammar::is_digit;
use crate::grammar::lemma_digit_run_is;
use crate::grammar::lemma_digit_run_props;
use crate::grammar::lemma_digits_value_monotone;
use crate::grammar::lemma_digits_value_step;
use crate::grammar::lemma_parse_bounds;
use crate::grammar::null_marker;
use crate::grammar::spec_number;
use crate::grammar::spec_parse;
use crate::grammar::spec_parse_array;
use crate::grammar::spec_parse_bulk;
use crate::grammar::spec_parse_int;
use crate::grammar::spec_parse_list;

verus! {

broadcast use vstd::std_specs::vec::group_vec_axioms, vstd::seq::group_seq_axioms;

/// A decode failure. It carries the remaining (unconsumed) input at the
/// point of failure, so a caller can report context; all failures collapse
/// to this one kind.
#[derive(Debug, PartialEq)]
pub struct Error {
    pub what: Vec<u8>,
}

/// A decoded protocol value.
#[derive(Debug, PartialEq)]
pub enum Value {
    /// The sentinel for an array declared with length -1.
    NullArray,
    /// A decoded bulk string: an owned copy of exactly the declared bytes.
    String(Vec<u8>),
    /// A decoded integer; non-negative by construction, since the digit
    /// reader accepts no sign.
    Number(u64),
    /// A decoded array: exactly the declared elements, in order.
    Array(Vec<Value>),
}

impl Value {
    /// The mathematical value this datatype stands for.
    pub open spec fn view(self) -> SpecValue
        decreases self,
    {
        match self {
            Value::NullArray => SpecValue::NullArray,
            Value::Number(n) => SpecValue::Number(n),
            Value::String(b) => SpecValue::Bytes(b@),
            Value::Array(items) => SpecValue::Array(views_of(items@)),
        }
    }
}

/// The mathematical values of a sequence of decoded values, in order.
pub open spec fn views_of(s: Seq<Value>) -> Seq<SpecValue>
    decreases s,
{
    if s.len() == 0 {
        Seq::empty()
    } else {
        seq![s[0].view()].add(views_of(s.subrange(1, s.len() as int)))
    }
}

/// [`views_of`] is the pointwise view.
pub proof fn lemma_views_of(s: Seq<Value>)
    ensures
        views_of(s).len() == s.len(),
        forall|i: int| 0 <= i < s.len() ==> #[trigger] views_of(s)[i] == s[i].view(),
    decreases s.len(),
{
    if s.len() > 0 {
        let tail = s.subrange(1, s.len() as int);
        lemma_views_of(tail);
        assert forall|i: int| 0 <= i < s.len() implies #[trigger] views_of(s)[i] == s[i].view() by {
            if i >= 1 {
                assert(tail[i - 1] == s[i]);
                assert(views_of(s)[i] == views_of(tail)[i - 1]);
            }
        }
    }
}

impl Default for Value {
    /// The null array: the protocol's marker for an absent value.
    fn default() -> (r: Value)
        ensures
            r == Value::NullArray,
    {
        Value::NullArray
    }
}

/// An executable result agrees with a step of the grammar: on `Done` it is
/// `Ok` with exactly that value and the remainder after the consumed bytes;
/// on `Fail` it is `Err` carrying the input from the failure point on.
pub open spec fn step_matches(
    r: Result<(Value, &[u8]), Error>,
    s: Seq<u8>,
    out: SpecStep<SpecValue>,
) -> bool {
    match out {
        SpecStep::Done(v, c) => r matches Ok(p) && p.0@ == v && p.1@ == s.skip(c as int),
        SpecStep::Fail(c) => r matches Err(e) && e.what@ == s.skip(c as int),
    }
}

/// Consume one expected byte: succeeds with the remainder after the first
/// byte iff the input begins with `ch`; fails, carrying the whole input,
/// on a mismatch or an empty input.
pub fn parse_char<'a>(ch: u8, input: &'a [u8]) -> (r: Result<&'a [u8], Error>)
    ensures
        input@.len() >= 1 && input@[0] == ch ==> (r matches Ok(rest) && rest@ == input@.skip(
            1,
        )),
        !(input@.len() >= 1 && input@[0] == ch) ==> (r matches Err(e) && e.what@ == input@),
{
    if input.len() >= 1 && *slice_index_get(input, 0) == ch {
        Ok(slice_subrange(input, 1, input.len()))
    } else {
        Err(Error { what: slice_to_vec(input) })
    }
}

/// Take a fixed number of bytes: succeeds iff at least `n` bytes remain,
/// returning an owned copy of the first `n` and the remainder after them;
/// fails, carrying the whole input, on a shortfall.
pub fn parse_length<'a>(n: usize, input: &'a [u8]) -> (r: Result<(Vec<u8>, &'a [u8]), Error>)
    ensures
        n <= input@.len() ==> (r matches Ok(p) && p.0@ == input@.take(n as int) && p.1@
            == input@.skip(n as int)),
        n > input@.len() ==> (r matches Err(e) && e.what@ == input@),
{
    if n <= input.len() {
        let head = slice_subrange(input, 0, n);
        Ok((slice_to_vec(head), slice_subrange(input, n, input.len())))
    } else {
        Err(Error { what: slice_to_vec(input) })
    }
}

/// Consume an exact literal: succeeds iff the remaining input begins with
/// `s`, handing the carried value through and returning the remainder after
/// the literal; fails, carrying the remaining input, otherwise.
pub fn has_a<'a, T>(s: &[u8], input: (T, &'a [u8])) -> (r: Result<(T, &'a [u8]), Error>)
    ensures
        begins_with(input.1@, s@) ==> (r matches Ok(p) && p.0 == input.0 && p.1@
            == input.1@.skip(s@.len() as int)),
        !begins_with(input.1@, s@) ==> (r matches Err(e) && e.what@ == input.1@),
{
    if s.len() > input.1.len() {
        return Err(Error { what: slice_to_vec(input.1) });
    }
    let mut i: usize = 0;
    while i < s.len()
        invariant
            0 <= i <= s@.len() <= input.1@.len(),
            forall|j: int| 0 <= j < i ==> input.1@[j] == s@[j],
        decreases s@.len() - i,
    {
        if *slice_index_get(input.1, i) != *slice_index_get(s, i) {
            return Err(Error { what: slice_to_vec(input.1) });
        }
        i += 1;
    }
    Ok((input.0, slice_subrange(input.1, s.len(), input.1.len())))
}

/// Consume an exact literal, as [`has_a`] does; on bytes the two checks
/// coincide, so this is the same recognizer under the grammar's other name.
pub fn match_exact<'a, T>(s: &[u8], input: (T, &'a [u8])) -> (r: Result<(T, &'a [u8]), Error>)
    ensures
        begins_with(input.1@, s@) ==> (r matches Ok(p) && p.0 == input.0 && p.1@
            == input.1@.skip(s@.len() as int)),
        !begins_with(input.1@, s@) ==> (r matches Err(e) && e.what@ == input.1@),
{
    has_a(s, input)
}

/// Read the maximal leading run of decimal digits as a number: succeeds
/// with the number and the remainder after the digits; fails, carrying the
/// whole input, when the run is empty or the number exceeds the target
/// width. No sign is accepted.
pub fn make_number<'a>(input: &'a [u8]) -> (r: Result<(u64, &'a [u8]), Error>)
    ensures
        match spec_number(input@) {
            SpecStep::Done(n, k) => r matches Ok(p) && p.0 == n && p.1@ == input@.skip(k as int),
            SpecStep::Fail(_) => r matches Err(e) && e.what@ == input@,
        },
{
    let mut i: usize = 0;
    let mut acc: u64 = 0;
    loop
        invariant
            0 <= i <= input@.len(),
            forall|j: int| 0 <= j < i ==> is_digit(#[trigger] input@[j]),
            acc == digits_value(input@.take(i as int)),
        ensures
            0 <= i <= input@.len(),
            forall|j: int| 0 <= j < i ==> is_digit(#[trigger] input@[j]),
            acc == digits_value(input@.take(i as int)),
            i == input@.len() || !is_digit(input@[i as int]),
        decreases input@.len() - i,
    {
        if i >= input.len() {
            break ;
        }
        let b = *slice_index_get(input, i);
        if !(48 <= b && b <= 57) {
            break ;
        }
        let d = (b - 48) as u64;
        let stretched = match acc.checked_mul(10) {
            Some(m) => m.checked_add(d),
            None => None,
        };
        match stretched {
            Some(a) => {
                proof {
                    lemma_digits_value_step(input@, i as int);
                }
                acc = a;
                i += 1;
            },
            None => {
                proof {
                    lemma_digit_run_props(input@);
                    let k = digit_run_len(input@) as int;
                    assert(i < k);
                    lemma_digits_value_step(input@, i as int);
                    assert(digits_value(input@.take(i + 1)) > u64::MAX) by (nonlinear_arith)
                        requires
                            digits_value(input@.take(i + 1)) == digits_value(
                                input@.take(i as int),
                            ) * 10 + ((input@[i as int] - 48) as nat),
                            digits_value(input@.take(i as int)) == acc,
                            acc * 10 > u64::MAX || acc * 10 + ((input@[i as int] - 48) as nat)
                                > u64::MAX,
                    ;
                    lemma_digits_value_monotone(input@, i + 1, k);
                }
                return Err(Error { what: slice_to_vec(input) });
            },
        }
    }
    proof {
        lemma_digit_run_is(input@, i as int);
    }
    if i == 0 {
        Err(Error { what: slice_to_vec(input) })
    } else {
        Ok((acc, slice_subrange(input, i, input.len())))
    }
}

/// The element parser `f` can step from `start` through every item of
/// `items` in turn, each application consuming a prefix of what the
/// previous one left, and end exactly at `rest`.
pub open spec fn chain_done<'a, T, F: Fn(&'a [u8]) -> Result<(T, &'a [u8]), Error>>(
    f: F,
    start: &'a [u8],
    items: Seq<T>,
    rest: &'a [u8],
) -> bool
    decreases items.len(),
{
    if items.len() == 0 {
        rest == start
    } else {
        exists|mid: &'a [u8]|
            #[trigger] call_ensures(f, (start,), Ok((items[0], mid))) && chain_done(
                f,
                mid,
                items.skip(1),
                rest,
            )
    }
}

/// The element parser `f` can step from `start` through `steps` successes
/// and then fail with exactly the error `e`.
pub open spec fn chain_fail<'a, T, F: Fn(&'a [u8]) -> Result<(T, &'a [u8]), Error>>(
    f: F,
    start: &'a [u8],
    steps: nat,
    e: Error,
) -> bool
    decreases steps,
{
    if steps == 0 {
        call_ensures(f, (start,), Err(e))
    } else {
        exists|item: T, mid: &'a [u8]|
            #[trigger] call_ensures(f, (start,), Ok((item, mid))) && chain_fail(
                f,
                mid,
                (steps - 1) as nat,
                e,
            )
    }
}

/// A chain grows by one success at its end.
proof fn lemma_chain_done_push<'a, T, F: Fn(&'a [u8]) -> Result<(T, &'a [u8]), Error>>(
    f: F,
    start: &'a [u8],
    items: Seq<T>,
    cur: &'a [u8],
    v: T,
    next: &'a [u8],
)
    requires
        chain_done(f, start, items, cur),
        call_ensures(f, (cur,), Ok((v, next))),
    ensures
        chain_done(f, start, items.push(v), next),
    decreases items.len(),
{
    if items.len() == 0 {
        assert(items.push(v)[0] == v);
        assert(items.push(v).skip(1) =~= Seq::<T>::empty());
        assert(call_ensures(f, (start,), Ok((items.push(v)[0], next))));
        assert(chain_done(f, next, items.push(v).skip(1), next));
    } else {
        let mid = choose|mid: &'a [u8]|
            #[trigger] call_ensures(f, (start,), Ok((items[0], mid))) && chain_done(
                f,
                mid,
                items.skip(1),
                cur,
            );
        lemma_chain_done_push(f, mid, items.skip(1), cur, v, next);
        assert(items.push(v).skip(1) =~= items.skip(1).push(v));
        assert(items.push(v)[0] == items[0]);
        assert(call_ensures(f, (start,), Ok((items.push(v)[0], mid))));
        assert(chain_done(f, mid, items.push(v).skip(1), next));
    }
}

/// A chain of successes followed by a failure is a failing chain.
proof fn lemma_chain_fail_at<'a, T, F: Fn(&'a [u8]) -> Result<(T, &'a [u8]), Error>>(
    f: F,
    start: &'a [u8],
    items: Seq<T>,
    cur: &'a [u8],
    e: Error,
)
    requires
        chain_done(f, start, items, cur),
        call_ensures(f, (cur,), Err(e)),
    ensures
        chain_fail(f, start, items.len(), e),
    decreases items.len(),
{
    if items.len() == 0 {
    } else {
        let mid = choose|mid: &'a [u8]|
            #[trigger] call_ensures(f, (start,), Ok((items[0], mid))) && chain_done(
                f,
                mid,
                items.skip(1),
                cur,
            );
        lemma_chain_fail_at(f, mid, items.skip(1), cur, e);
        assert(call_ensures(f, (start,), Ok((items[0], mid))));
    }
}

/// Fewer than `n` applications of `f` in a chain from `start` can end in
/// exactly the error `e`.
pub open spec fn some_chain_fails<'a, T, F: Fn(&'a [u8]) -> Result<(T, &'a [u8]), Error>>(
    f: F,
    start: &'a [u8],
    n: u64,
    e: Error,
) -> bool {
    exists|steps: nat| steps < n && #[trigger] chain_fail(f, start, steps, e)
}

/// Apply `f` exactly `n` times, threading the remainder from each
/// application into the next and collecting the results in order; the
/// first failure aborts the whole repetition and is returned untouched.
/// Zero repetitions succeed trivially with the input unchanged.
pub fn repeat<'a, T, F: Fn(&'a [u8]) -> Result<(T, &'a [u8]), Error>>(
    n: u64,
    input: &'a [u8],
    f: F,
) -> (r: Result<(Vec<T>, &'a [u8]), Error>)
    requires
        forall|s: &'a [u8]| #[trigger] call_requires(f, (s,)),
    ensures
        r matches Ok(p) ==> (p.0@.len() == n && chain_done(f, input, p.0@, p.1)),
        r matches Err(e) ==> some_chain_fails(f, input, n, e),
{
    let mut result: Vec<T> = Vec::new();
    let mut cur: &'a [u8] = input;
    let mut i: u64 = 0;
    while i < n
        invariant
            0 <= i <= n,
            result@.len() == i as int,
            chain_done(f, input, result@, cur),
            forall|s: &'a [u8]| #[trigger] call_requires(f, (s,)),
        decreases n - i,
    {
        match f(cur) {
            Ok((item, next)) => {
                proof {
                    lemma_chain_done_push(f, input, result@, cur, item, next);
                }
                result.push(item);
                cur = next;
                i += 1;
            },
            Err(e) => {
                proof {
                    lemma_chain_fail_at(f, input, result@, cur, e);
                    assert(result@.len() < n && chain_fail(f, input, result@.len(), e));
                    assert(some_chain_fails(f, input, n, e));
                }
                return Err(e);
            },
        }
    }
    Ok((result, cur))
}

impl Value {
    /// The integer production: `:<digits>\r\n`, decoded as [`Value::Number`].
    pub fn parse_int<'a>(input: &'a [u8]) -> (r: Result<(Value, &'a [u8]), Error>)
        ensures
            step_matches(r, input@, spec_parse_int(input@)),
    {
        proof {
            assert(input@.skip(0) =~= input@);
        }
        match parse_char(58, input) {
            Err(e) => Err(e),
            Ok(rest) => {
                proof {
                    lemma_digit_run_props(rest@);
                }
                match make_number(rest) {
                    Err(e) => Err(e),
                    Ok((n, rest2)) => {
                        let crlf: [u8; 2] = [13, 10];
                        proof {
                            let t = input@.skip(1);
                            let k = digit_run_len(t) as int;
                            assert(crlf@ =~= seq![13u8, 10u8]);
                            assert(t.skip(k) =~= input@.skip(1 + k));
                            if k + 2 <= t.len() {
                                assert(t.skip(k).skip(2) =~= input@.skip(3 + k));
                            }
                        }
                        match match_exact(crlf.as_slice(), (n, rest2)) {
                            Err(e) => Err(e),
                            Ok((n2, rest3)) => Ok((Value::Number(n2), rest3)),
                        }
                    },
                }
            },
        }
    }

    /// The bulk-string production: `$<len>\r\n<len bytes>\r\n`, decoded as
    /// [`Value::String`]. A declared length is unsigned, so the protocol's
    /// null bulk string `$-1\r\n` fails at the digit reader.
    pub fn parse_bulk<'a>(input: &'a [u8]) -> (r: Result<(Value, &'a [u8]), Error>)
        ensures
            step_matches(r, input@, spec_parse_bulk(input@)),
    {
        proof {
            assert(input@.skip(0) =~= input@);
        }
        match parse_char(36, input) {
            Err(e) => Err(e),
            Ok(rest) => {
                proof {
                    lemma_digit_run_props(rest@);
                }
                match make_number(rest) {
                    Err(e) => Err(e),
                    Ok((n, rest2)) => {
                        let crlf: [u8; 2] = [13, 10];
                        proof {
                            let t = input@.skip(1);
                            let k = digit_run_len(t) as int;
                            assert(crlf@ =~= seq![13u8, 10u8]);
                            assert(t.skip(k) =~= input@.skip(1 + k));
                            if k + 2 <= t.len() {
                                assert(t.skip(k).skip(2) =~= input@.skip(3 + k));
                                assert(t.skip(k + 2) =~= input@.skip(3 + k));
                            }
                        }
                        match has_a(crlf.as_slice(), (n, rest2)) {
                            Err(e) => Err(e),
                            Ok((n2, rest3)) => {
                                if n2 > rest3.len() as u64 {
                                    Err(Error { what: slice_to_vec(rest3) })
                                } else {
                                    proof {
                                        let t = input@.skip(1);
                                        let k = digit_run_len(t) as int;
                                        let u = t.skip(k + 2);
                                        if n2 <= u.len() {
                                            assert(u.skip(n2 as int) =~= input@.skip(
                                                3 + k + n2 as int,
                                            ));
                                            if n2 + 2 <= u.len() {
                                                assert(u.skip(n2 as int).skip(2) =~= input@.skip(
                                                    5 + k + n2 as int,
                                                ));
                                            }
                                        }
                                    }
                                    match parse_length(n2 as usize, rest3) {
                                        Err(e) => Err(e),
                                        Ok((bytes, rest4)) => {
                                            match match_exact(crlf.as_slice(), (bytes, rest4)) {
                                                Err(e) => Err(e),
                                                Ok((bytes2, rest5)) => Ok(
                                                    (Value::String(bytes2), rest5),
                                                ),
                                            }
                                        },
                                    }
                                }
                            },
                        }
                    },
                }
            },
        }
    }

    /// The array production: `*<count>\r\n` followed by exactly `count`
    /// elements, decoded as [`Value::Array`]; the declaration `*-1\r\n`
    /// decodes as [`Value::NullArray`] and consumes no element data.
    #[verifier::loop_isolation(false)]
    pub fn parse_array<'a>(input: &'a [u8]) -> (r: Result<(Value, &'a [u8]), Error>)
        ensures
            step_matches(r, input@, spec_parse_array(input@)),
        decreases input@.len(), 1int,
    {
        proof {
            assert(input@.skip(0) =~= input@);
        }
        match parse_char(42, input) {
            Err(e) => Err(e),
            Ok(rest) => {
                if rest.len() >= 1 && *slice_index_get(rest, 0) == 45 {
                    let marker: [u8; 4] = [45, 49, 13, 10];
                    proof {
                        assert(marker@ =~= null_marker());
                        if 4 <= input@.skip(1).len() {
                            assert(input@.skip(1).skip(4) =~= input@.skip(5));
                        }
                    }
                    match has_a(marker.as_slice(), ((), rest)) {
                        Err(e) => Err(e),
                        Ok((_, after)) => Ok((Value::NullArray, after)),
                    }
                } else {
                    proof {
                        lemma_digit_run_props(rest@);
                    }
                    match make_number(rest) {
                        Err(e) => Err(e),
                        Ok((n, rest2)) => {
                            let crlf: [u8; 2] = [13, 10];
                            proof {
                                let t = input@.skip(1);
                                let k = digit_run_len(t) as int;
                                assert(crlf@ =~= seq![13u8, 10u8]);
                                assert(t.skip(k) =~= input@.skip(1 + k));
                                if k + 2 <= t.len() {
                                    assert(t.skip(k).skip(2) =~= input@.skip(3 + k));
                                }
                            }
                            match match_exact(crlf.as_slice(), (n, rest2)) {
                                Err(e) => Err(e),
                                Ok((n2, rest3)) => Value::parse_elements(input, n2, rest3),
                            }
                        },
                    }
                }
            },
        }
    }

    /// The element loop of the array production: exactly `n` elements, each
    /// handed the remainder the previous one left, collected in order; the
    /// first failure aborts the whole array at its own failure point. The
    /// loop stands as its own function, not a call through [`repeat`],
    /// so that the termination measure of the mutual recursion with
    /// [`Value::parse`] stays visible to the verifier.
    #[verifier::loop_isolation(false)]
    #[verifier::rlimit(60)]
    fn parse_elements<'a>(input: &'a [u8], n: u64, rest: &'a [u8]) -> (r: Result<
        (Value, &'a [u8]),
        Error,
    >)
        requires
            input@.len() >= 1 && input@[0] == 42,
            !(input@.skip(1).len() >= 1 && input@.skip(1)[0] == 45),
            spec_number(input@.skip(1)) == SpecStep::<u64>::Done(
                n,
                digit_run_len(input@.skip(1)),
            ),
            crlf_at(input@.skip(1), digit_run_len(input@.skip(1)) as int),
            rest@ == input@.skip(3 + digit_run_len(input@.skip(1)) as int),
        ensures
            step_matches(r, input@, spec_parse_array(input@)),
        decreases input@.len(), 0int,
    {
        let ghost t = input@.skip(1);
        let ghost k = digit_run_len(t) as int;
        let ghost body = rest@;
        proof {
            lemma_digit_run_props(t);
            assert(body.len() < input@.len());
        }
        let mut items: Vec<Value> = Vec::new();
        let mut cur: &'a [u8] = rest;
        let mut i: u64 = 0;
        let ghost mut done: nat = 0;
        proof {
            assert(body.skip(0) =~= body);
            assert(views_of(items@) =~= Seq::<SpecValue>::empty());
            match spec_parse_list(n as nat, body) {
                SpecStep::Done(vs, _) => {
                    assert(views_of(items@).add(vs) =~= vs);
                },
                SpecStep::Fail(_) => {},
            }
        }
        while i < n
            invariant
                0 <= i <= n,
                items@.len() == i as int,
                done <= body.len(),
                cur@ == body.skip(done as int),
                match spec_parse_list((n - i) as nat, cur@) {
                    SpecStep::Done(vs, c2) => spec_parse_list(n as nat, body)
                        == SpecStep::<Seq<SpecValue>>::Done(
                        views_of(items@).add(vs),
                        (done + c2) as nat,
                    ),
                    SpecStep::Fail(c2) => spec_parse_list(n as nat, body) == SpecStep::<
                        Seq<SpecValue>,
                    >::Fail((done + c2) as nat),
                },
            decreases n - i,
        {
            proof {
                lemma_parse_bounds(cur@);
            }
            match Value::parse(cur) {
                Err(e) => {
                    proof {
                        let c = spec_parse(cur@)->Fail_0;
                        assert(body.skip(done as int).skip(c as int) =~= body.skip(
                            done + c as int,
                        ));
                        assert(input@.skip(3 + k).skip(done + c as int) =~= input@.skip(
                            3 + k + done + c,
                        ));
                    }
                    return Err(e);
                },
                Ok((v, next)) => {
                    proof {
                        let c = spec_parse(cur@)->Done_1;
                        lemma_views_of(items@);
                        lemma_views_of(items@.push(v));
                        assert(views_of(items@.push(v)) =~= views_of(items@).push(v.view()));
                        assert(body.skip(done as int).skip(c as int) =~= body.skip(
                            done + c as int,
                        ));
                        match spec_parse_list((n - i - 1) as nat, cur@.skip(c as int)) {
                            SpecStep::Done(vs, c2) => {
                                assert(views_of(items@).add(seq![v.view()].add(vs)) =~= views_of(
                                    items@.push(v),
                                ).add(vs));
                            },
                            SpecStep::Fail(_) => {},
                        }
                        done = done + spec_parse(cur@)->Done_1;
                    }
                    items.push(v);
                    cur = next;
                    i += 1;
                },
            }
        }
        proof {
            lemma_views_of(items@);
            assert(views_of(items@).add(Seq::<SpecValue>::empty()) =~= views_of(items@));
            assert(input@.skip(3 + k).skip(done as int) =~= input@.skip(3 + k + done));
        }
        Ok((Value::Array(items), cur))
    }

    /// The entry point: ordered alternation over the integer, bulk-string
    /// and array productions, in that order; the first success wins, and
    /// when all fail the failure is the array production's, taken against
    /// the original input.
    pub fn parse<'a>(input: &'a [u8]) -> (r: Result<(Value, &'a [u8]), Error>)
        ensures
            step_matches(r, input@, spec_parse(input@)),
        decreases input@.len(), 2int,
    {
        match Value::parse_int(input) {
            Ok(p) => Ok(p),
            Err(_) => match Value::parse_bulk(input) {
                Ok(p) => Ok(p),
                Err(_) => Value::parse_array(input),
            },
        }
    }
}

} // verus!
