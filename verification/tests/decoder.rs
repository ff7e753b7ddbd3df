//! The value grammar: each production, its edge cases, and whole messages.

use resp::Error;
use resp::Value;

#[test]
fn test_parse_bulk() {
    assert_eq!(
        Value::parse_bulk(b"$0\r\n\r\n"),
        Ok((Value::String(b"".to_vec()), b"".as_slice()))
    );
    assert_eq!(
        Value::parse_bulk(b"$4\r\nRESP\r\n"),
        Ok((Value::String(b"RESP".to_vec()), b"".as_slice()))
    );
    assert_eq!(
        Value::parse_bulk(b"$1\r\n\r\n"),
        Err(Error {
            what: b"\n".to_vec()
        })
    );
    // the null bulk string stays unsupported and fails at the digit reader
    assert_eq!(
        Value::parse_bulk(b"$-1\r\n"),
        Err(Error {
            what: b"-1\r\n".to_vec()
        })
    )
}

#[test]
fn tes_parse_array() {
    // simple array
    let v = b"*2\r\n$3\r\nfoo\r\n$3\r\nbar\r\n";
    let data = vec![
        Value::String(b"foo".to_vec()),
        Value::String(b"bar".to_vec()),
    ];
    assert_eq!(Value::parse_array(v), Ok((Value::Array(data), b"".as_slice())));
    // empty array
    let v1 = b"*0\r\n";
    assert_eq!(
        Value::parse_array(v1),
        Ok((Value::Array(Vec::new()), b"".as_slice()))
    );
    // null array: a declared count of -1 is the null array, not a failure
    let v2 = b"*-1\r\n";
    assert_eq!(
        Value::parse_array(v2),
        Ok((Value::NullArray, b"".as_slice()))
    );
    // nested array
    let v3 = b"*2\r\n*1\r\n:5\r\n*3\r\n:4\r\n$3\r\nfoo\r\n$3\r\nbar\r\n";
    let data3 = vec![
        Value::Array(vec![Value::Number(5)]),
        Value::Array(vec![
            Value::Number(4),
            Value::String(b"foo".to_vec()),
            Value::String(b"bar".to_vec()),
        ]),
    ];
    assert_eq!(Value::parse(v3), Ok((Value::Array(data3), b"".as_slice())))
}

#[test]
fn decodes_integer_with_empty_remainder() {
    assert_eq!(
        Value::parse(b":112\r\n"),
        Ok((Value::Number(112), b"".as_slice()))
    );
    assert_eq!(
        Value::parse(b":0\r\n"),
        Ok((Value::Number(0), b"".as_slice()))
    );
    assert_eq!(
        Value::parse(b":18446744073709551615\r\n"),
        Ok((Value::Number(u64::MAX), b"".as_slice()))
    );
}

#[test]
fn decodes_bulk_string_with_empty_remainder() {
    assert_eq!(
        Value::parse(b"$4\r\nRESP\r\n"),
        Ok((Value::String(b"RESP".to_vec()), b"".as_slice()))
    );
    // binary content is taken byte for byte, terminator bytes included
    assert_eq!(
        Value::parse(b"$4\r\n\r\n\r\n\r\n"),
        Ok((Value::String(b"\r\n\r\n".to_vec()), b"".as_slice()))
    );
}

#[test]
fn decodes_flat_array_in_order() {
    assert_eq!(
        Value::parse(b"*2\r\n$3\r\nfoo\r\n$3\r\nbar\r\n"),
        Ok((
            Value::Array(vec![
                Value::String(b"foo".to_vec()),
                Value::String(b"bar".to_vec()),
            ]),
            b"".as_slice()
        ))
    );
}

#[test]
fn arrays_nest_to_arbitrary_depth() {
    assert_eq!(
        Value::parse(b"*1\r\n*1\r\n:5\r\n"),
        Ok((
            Value::Array(vec![Value::Array(vec![Value::Number(5)])]),
            b"".as_slice()
        ))
    );
}

#[test]
fn null_array_differs_from_empty_array() {
    assert_eq!(
        Value::parse(b"*0\r\n"),
        Ok((Value::Array(Vec::new()), b"".as_slice()))
    );
    assert_eq!(Value::parse(b"*-1\r\n"), Ok((Value::NullArray, b"".as_slice())));
    assert_ne!(Value::parse(b"*-1\r\n"), Value::parse(b"*0\r\n"));
}

#[test]
fn null_bulk_string_fails() {
    assert!(Value::parse(b"$-1\r\n").is_err());
}

#[test]
fn trailing_bytes_come_back_untouched() {
    assert_eq!(
        Value::parse(b":1\r\ntrailing"),
        Ok((Value::Number(1), b"trailing".as_slice()))
    );
    assert_eq!(
        Value::parse(b"$2\r\nok\r\n$3\r\nfoo\r\n"),
        Ok((Value::String(b"ok".to_vec()), b"$3\r\nfoo\r\n".as_slice()))
    );
    assert_eq!(
        Value::parse(b"*1\r\n:5\r\n:6\r\n"),
        Ok((
            Value::Array(vec![Value::Number(5)]),
            b":6\r\n".as_slice()
        ))
    );
}

#[test]
fn malformed_input_yields_a_diagnostic() {
    // empty input and unknown sentinels
    assert!(Value::parse(b"").is_err());
    assert!(Value::parse(b"+OK\r\n").is_err());
    assert!(Value::parse(b"-ERR\r\n").is_err());
    // non-digit where digits are expected
    assert!(Value::parse(b":\r\n").is_err());
    assert!(Value::parse(b":x\r\n").is_err());
    assert!(Value::parse(b"$\r\n").is_err());
    assert!(Value::parse(b"*\r\n").is_err());
    // a number beyond the target width
    assert!(Value::parse(b":18446744073709551616\r\n").is_err());
    // missing or corrupted terminators
    assert!(Value::parse(b":12").is_err());
    assert!(Value::parse(b":12\rX").is_err());
    assert!(Value::parse(b"$4\r\nRESPxy").is_err());
    assert!(Value::parse(b"*-1XY").is_err());
    // a declared length beyond the available bytes
    assert!(Value::parse(b"$5\r\nab\r\n").is_err());
    assert!(Value::parse(b"$1\r\n\r\n").is_err());
    // an array whose elements run out
    assert!(Value::parse(b"*2\r\n:1\r\n").is_err());
}

#[test]
fn failures_carry_the_remaining_input() {
    // the entry point reports the last alternative's failure, taken
    // against the original input
    assert_eq!(
        Value::parse(b"+OK\r\n"),
        Err(Error {
            what: b"+OK\r\n".to_vec()
        })
    );
    // inside a production, the failure point is where decoding stopped
    assert_eq!(
        Value::parse_int(b":12\rX"),
        Err(Error {
            what: b"\rX".to_vec()
        })
    );
}

#[test]
fn default_value_is_the_null_array() {
    assert_eq!(Value::default(), Value::NullArray);
}
