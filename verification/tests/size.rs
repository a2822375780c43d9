use rsdupes::size_arg::{parse_size, split_size, SizeError};

#[test]
fn test_size_parsing() {
    let input = ["10gb", "1m", "1kb", "1k", "1kib", "1000"];
    let expected: [u64; 6] = [
        10_000_000_000u64,
        1_000_000u64,
        1_000u64,
        1_000u64,
        1_024u64,
        1000u64,
    ];
    for i in input.iter().zip(expected.iter()) {
        assert_eq!(parse_size(i.0).unwrap(), *i.1);
    }
    assert!(parse_size("kib12").is_err());
}

#[test]
fn every_unit_has_its_value() {
    let cases: [(&str, u64); 31] = [
        ("3M", 3_000_000),
        ("3m", 3_000_000),
        ("3mb", 3_000_000),
        ("3Mb", 3_000_000),
        ("3Mib", 3_145_728),
        ("3mib", 3_145_728),
        ("3K", 3_000),
        ("3k", 3_000),
        ("3kb", 3_000),
        ("3Kb", 3_000),
        ("3Kib", 3_072),
        ("3kib", 3_072),
        ("3G", 3_000_000_000),
        ("3g", 3_000_000_000),
        ("3gb", 3_000_000_000),
        ("3Gb", 3_000_000_000),
        ("3Gib", 3_221_225_472),
        ("3gib", 3_221_225_472),
        ("3T", 3_000_000_000_000),
        ("3t", 3_000_000_000_000),
        ("3tb", 3_000_000_000_000),
        ("3Tb", 3_000_000_000_000),
        ("3Tib", 3_298_534_883_328),
        ("3tib", 3_298_534_883_328),
        ("3", 3),
        ("0", 0),
        ("007", 7),
        ("0k", 0),
        ("1", 1),
        ("18446744073709551615", u64::MAX),
        ("00000000000000000000000000000001", 1),
    ];
    for (text, size) in cases {
        assert_eq!(parse_size(text), Ok(size), "{}", text);
    }
}

#[test]
fn a_missing_or_too_large_number_is_refused() {
    for text in ["", "k", "kib12", "-1", "+1", " 1", "18446744073709551616", "99999999999999999999k"] {
        assert_eq!(split_size(text), Err(SizeError::InvalidNumber), "{}", text);
        assert_eq!(parse_size(text), Err(SizeError::InvalidNumber), "{}", text);
    }
    assert_eq!(SizeError::InvalidNumber.message(), "Invalid number supplied for minimum size");
}

#[test]
fn an_unknown_unit_is_refused() {
    for text in ["1 k", "1KB", "1kB", "1MB", "1kk", "1b", "1ki", "1k1", "1.5m", "12é"] {
        assert_eq!(parse_size(text), Err(SizeError::InvalidSuffix), "{}", text);
    }
    assert_eq!(SizeError::InvalidSuffix.message(), "Invalid suffix");
}

#[test]
fn number_and_unit_are_told_apart() {
    assert_eq!(split_size("18446744073709551615Tib"), Ok((u64::MAX, 1_099_511_627_776)));
    assert_eq!(split_size("42"), Ok((42, 1)));
}
