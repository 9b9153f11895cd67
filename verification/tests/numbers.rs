use mir_lower::number::{parse_u64, parse_usize, push_decimal, NumberError};
use mir_lower::text::{blank, split_at_char};

const SAMPLES: [&str; 29] = [
    "",
    "+",
    "-",
    "0",
    "7",
    "+5",
    "-1",
    "++1",
    "+-1",
    "00012",
    " 1",
    "1 ",
    "1_000",
    "0x10",
    "12a",
    "a12",
    "18446744073709551614",
    "18446744073709551615",
    "18446744073709551616",
    "18446744073709551620",
    "+18446744073709551615",
    "99999999999999999999",
    "18446744073709551615x",
    "99999999999999999999x",
    "x99999999999999999999",
    "000000000000000000000000000001",
    "1,2",
    "\u{0661}",
    "9\u{00e9}",
];

#[test]
fn numbers_are_read_as_the_standard_library_reads_them() {
    for s in SAMPLES {
        match (parse_u64(s), s.parse::<u64>()) {
            (Ok(ours), Ok(theirs)) => assert_eq!(ours, theirs, "{s}"),
            (Err(ours), Err(theirs)) => assert_eq!(ours.text(), theirs.to_string(), "{s}"),
            _ => panic!("{s}"),
        }
        match (parse_usize(s), s.parse::<usize>()) {
            (Ok(ours), Ok(theirs)) => assert_eq!(ours, theirs, "{s}"),
            (Err(ours), Err(theirs)) => assert_eq!(ours.text(), theirs.to_string(), "{s}"),
            _ => panic!("{s}"),
        }
    }
}

#[test]
fn number_failures() {
    assert_eq!(parse_u64(""), Err(NumberError::Empty));
    assert_eq!(parse_u64("+"), Err(NumberError::InvalidDigit));
    assert_eq!(parse_u64("1x"), Err(NumberError::InvalidDigit));
    assert_eq!(parse_u64("18446744073709551616"), Err(NumberError::Overflow));
    assert_eq!(parse_u64("99999999999999999999x"), Err(NumberError::Overflow));
    assert_eq!(parse_usize("-3"), Err(NumberError::InvalidDigit));
}

#[test]
fn numbers_are_written_and_read_back() {
    for n in [0, 1, 9, 10, 99, 100, 12345, u64::MAX - 1, u64::MAX] {
        let mut out = "#".to_string();
        push_decimal(&mut out, n);
        assert_eq!(out, format!("#{n}"));
        assert_eq!(parse_u64(&out[1..]), Ok(n));
    }
}

#[test]
fn a_larger_limit_reads_the_same_number() {
    assert_eq!(parse_usize("4294967295"), Ok(4294967295));
    assert_eq!(parse_u64("4294967295"), Ok(4294967295));
}

#[test]
fn white_space_is_that_of_the_standard_library() {
    for code in 0..=0x10ffffu32 {
        if let Some(c) = char::from_u32(code) {
            let s = c.to_string();
            assert_eq!(blank(&s), s.trim().is_empty(), "{code:x}");
        }
    }
    assert!(blank(""));
    assert!(blank(" \t\n\u{2003}"));
    assert!(!blank("  x "));
}

#[test]
fn text_is_split_as_the_standard_library_splits_it() {
    for s in ["", ",", ",,", "a", "a,b", ",a", "a,", "a,,b", "\u{e9},\u{4e2d},x"] {
        let theirs: Vec<&str> = s.split(',').collect();
        assert_eq!(split_at_char(s, ','), theirs);
    }
}

#[test]
fn split_and_join_undo_each_other() {
    for s in ["", "a", "1,2,3", ",x,"] {
        assert_eq!(split_at_char(s, ',').join(","), s);
    }
    let parts = vec!["", "ab", "c", ""];
    assert_eq!(split_at_char(&parts.join(","), ','), parts);
    assert_eq!(split_at_char("a;b", ','), vec!["a;b"]);
}
