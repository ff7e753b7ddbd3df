//! The primitive combinators, exercised one by one.

use resp::Error;
use resp::has_a;
use resp::make_number;
use resp::match_exact;
use resp::parse_char;
use resp::parse_length;
use resp::repeat;

#[test]
fn test_make_number() {
    assert_eq!(make_number(b"1aa\r\n"), Ok((1, b"aa\r\n".as_slice())))
}

#[test]
fn test_has_a() {
    assert_eq!(has_a(b"a", (2, b"aa".as_slice())), Ok((2, b"a".as_slice())));
    assert_eq!(
        has_a(b"12", (2, b"123456".as_slice())),
        Ok((2, b"3456".as_slice()))
    );
}

#[test]
fn test_parse_char() {
    assert_eq!(parse_char(b'c', b"ccaballo"), Ok(b"caballo".as_slice()));
    assert_eq!(parse_char(b'c', b"c"), Ok(b"".as_slice()));
    assert_eq!(
        parse_char(b'a', b"caballo"),
        Err(Error {
            what: b"caballo".to_vec()
        })
    );
}

#[test]
fn test_parse_lenght() {
    let v = b"1234567";
    assert_eq!(
        parse_length(3, v),
        Ok((b"123".to_vec(), b"4567".as_slice()))
    );
    assert_eq!(v.len(), 7);
}

#[test]
fn test_repeat() {
    let v = b":2\r\n:3\r\n:4\r\n";
    let p = repeat(3, v, |s| {
        parse_char(b':', s)
            .and_then(|x| make_number(x))
            .and_then(|x| match_exact(b"\r\n", x))
    });
    assert_eq!(p, Ok((vec![2, 3, 4], b"".as_slice())));
    assert_eq!(v, b":2\r\n:3\r\n:4\r\n");
}

#[test]
fn test_match_exact() {
    assert_eq!(
        match_exact(b"aa", (2, b"aa".as_slice())),
        Ok((2, b"".as_slice()))
    );
    assert_eq!(
        make_number(b"112\r\n").and_then(|x| match_exact(b"\r\n", x)),
        Ok((112, b"".as_slice()))
    );
    assert_eq!(
        make_number(b"1aa\r\n").and_then(|x| match_exact(b"\r\n", x)),
        Err(Error {
            what: b"aa\r\n".to_vec()
        })
    )
}

#[test]
fn repeat_zero_times_leaves_input_unchanged() {
    let v = b"anything";
    let p = repeat(0, v, |s| {
        parse_char(b':', s)
            .and_then(|x| make_number(x))
            .and_then(|x| match_exact(b"\r\n", x))
    });
    assert_eq!(p, Ok((Vec::<u64>::new(), b"anything".as_slice())));
}

#[test]
fn repeat_fails_on_first_bad_element() {
    let v = b":2\r\n:x\r\n:4\r\n";
    let p = repeat(3, v, |s| {
        parse_char(b':', s)
            .and_then(|x| make_number(x))
            .and_then(|x| match_exact(b"\r\n", x))
    });
    assert_eq!(
        p,
        Err(Error {
            what: b"x\r\n:4\r\n".to_vec()
        })
    );
}

#[test]
fn make_number_takes_the_maximal_run() {
    assert_eq!(make_number(b"112\r\n"), Ok((112, b"\r\n".as_slice())));
    assert_eq!(make_number(b"0rest"), Ok((0, b"rest".as_slice())));
    assert_eq!(
        make_number(b"18446744073709551615 and on"),
        Ok((u64::MAX, b" and on".as_slice()))
    );
}

#[test]
fn make_number_rejects_empty_and_oversized_runs() {
    assert_eq!(
        make_number(b"abc"),
        Err(Error {
            what: b"abc".to_vec()
        })
    );
    assert_eq!(make_number(b""), Err(Error { what: b"".to_vec() }));
    assert_eq!(
        make_number(b"-1\r\n"),
        Err(Error {
            what: b"-1\r\n".to_vec()
        })
    );
    assert_eq!(
        make_number(b"18446744073709551616\r\n"),
        Err(Error {
            what: b"18446744073709551616\r\n".to_vec()
        })
    );
}

#[test]
fn repeat_threads_whole_values() {
    let v = b":7\r\n$2\r\nok\r\ntail";
    let p = repeat(2, v, resp::Value::parse);
    assert_eq!(
        p,
        Ok((
            vec![
                resp::Value::Number(7),
                resp::Value::String(b"ok".to_vec()),
            ],
            b"tail".as_slice()
        ))
    );
}

#[test]
fn parse_length_fails_on_shortfall() {
    assert_eq!(
        parse_length(8, b"1234567"),
        Err(Error {
            what: b"1234567".to_vec()
        })
    );
    assert_eq!(
        parse_length(0, b"xy"),
        Ok((Vec::new(), b"xy".as_slice()))
    );
}
