use aeolus::common::number::format_decimal;
use aeolus::common::number::format_u64;
use aeolus::common::number::format_usize;
use aeolus::common::number::parse_decimal;
use aeolus::common::number::parse_usize;
use aeolus::common::number::NumberError;
use aeolus::common::number::COORD_MAX;
use aeolus::common::number::RESOLUTION;
use aeolus::common::text::lines;
use aeolus::common::text::parse_key_value_pair;
use aeolus::common::text::split;
use aeolus::common::text::starts_with;
use aeolus::common::text::text_after_first;
use aeolus::common::text::text_after_last;
use aeolus::common::text::tokens;
use aeolus::common::text::trim;
use aeolus::grid::su2::parse_vector_from_line;
use aeolus::grid::su2::parse_vector_from_line_with_dim;

#[test]
fn decimal_texts_denote_steps() {
    assert_eq!(parse_decimal(b"0"), Ok(0));
    assert_eq!(parse_decimal(b"1"), Ok(RESOLUTION));
    assert_eq!(parse_decimal(b"1.0"), Ok(1_000_000_000));
    assert_eq!(parse_decimal(b"-0.5"), Ok(-500_000_000));
    assert_eq!(parse_decimal(b"+2.25"), Ok(2_250_000_000));
    assert_eq!(parse_decimal(b".5"), Ok(500_000_000));
    assert_eq!(parse_decimal(b"5."), Ok(5_000_000_000));
    assert_eq!(parse_decimal(b"0.000000001"), Ok(1));
    assert_eq!(parse_decimal(b"-0.000000001"), Ok(-1));
    assert_eq!(parse_decimal(b"00012.5000"), Ok(12_500_000_000));
}

#[test]
fn decimal_texts_are_rounded_towards_zero() {
    assert_eq!(parse_decimal(b"0.0000000019"), Ok(1));
    assert_eq!(parse_decimal(b"-0.0000000019"), Ok(-1));
    assert_eq!(parse_decimal(b"0.9999999999999"), Ok(999_999_999));
    assert_eq!(parse_decimal(b"0.3333333333333333"), Ok(333_333_333));
    assert_eq!(parse_decimal(b"-0.0000000001"), Ok(0));
}

#[test]
fn decimal_texts_may_have_an_exponent() {
    assert_eq!(parse_decimal(b"1e0"), Ok(1_000_000_000));
    assert_eq!(parse_decimal(b"1.000000000000000e+00"), Ok(1_000_000_000));
    assert_eq!(parse_decimal(b"2.5E-1"), Ok(250_000_000));
    assert_eq!(parse_decimal(b"-2.5e2"), Ok(-250_000_000_000));
    assert_eq!(parse_decimal(b"1e-9"), Ok(1));
    assert_eq!(parse_decimal(b"1e-10"), Ok(0));
    assert_eq!(parse_decimal(b"123456789e-17"), Ok(1));
    assert_eq!(parse_decimal(b"5e8"), Ok(COORD_MAX));
    assert_eq!(parse_decimal(b"0e999999999999999999999999999999999999999"), Ok(0));
    assert_eq!(parse_decimal(b"7e-999999999999999999999999999999999999999"), Ok(0));
}

#[test]
fn decimal_texts_beyond_the_range_are_refused() {
    assert_eq!(parse_decimal(b"500000000"), Ok(COORD_MAX));
    assert_eq!(parse_decimal(b"-500000000"), Ok(-COORD_MAX));
    assert_eq!(parse_decimal(b"500000000.000000001"), Err(NumberError::OutOfRange));
    assert_eq!(parse_decimal(b"-500000000.000000001"), Err(NumberError::OutOfRange));
    assert_eq!(parse_decimal(b"1e9"), Err(NumberError::OutOfRange));
    assert_eq!(parse_decimal(b"1e30"), Err(NumberError::OutOfRange));
    assert_eq!(
        parse_decimal(b"1e999999999999999999999999999999999999999"),
        Err(NumberError::OutOfRange)
    );
    assert_eq!(
        parse_decimal(b"99999999999999999999999999999999999999999999"),
        Err(NumberError::OutOfRange)
    );
}

#[test]
fn texts_that_are_no_decimal_are_refused() {
    let cases: Vec<&[u8]> = vec![
        b"", b".", b"-", b"+", b"e5", b"1e", b"1e+", b"1.2.3", b"1 ", b" 1", b"0x10", b"inf",
        b"nan", b"1e5.0", b"--1", b"1,5", b"1e-", b"-.e1",
    ];
    for text in cases {
        assert_eq!(
            parse_decimal(text),
            Err(NumberError::Malformed),
            "{}",
            String::from_utf8_lossy(text)
        );
    }
}

#[test]
fn steps_are_written_in_decimal() {
    assert_eq!(format_decimal(0), b"0".to_vec());
    assert_eq!(format_decimal(1_000_000_000), b"1".to_vec());
    assert_eq!(format_decimal(500_000_000), b"0.5".to_vec());
    assert_eq!(format_decimal(-1_250_000_000), b"-1.25".to_vec());
    assert_eq!(format_decimal(1), b"0.000000001".to_vec());
    assert_eq!(format_decimal(-1), b"-0.000000001".to_vec());
    assert_eq!(format_decimal(1_000_000_010), b"1.00000001".to_vec());
    assert_eq!(format_decimal(i64::MAX), b"9223372036.854775807".to_vec());
    assert_eq!(format_decimal(i64::MIN), b"-9223372036.854775808".to_vec());
}

#[test]
fn written_steps_are_read_back() {
    let values = [
        0,
        1,
        -1,
        999_999_999,
        1_000_000_000,
        -1_000_000_001,
        123_456_789_012_345_678,
        COORD_MAX,
        -COORD_MAX,
        333_333_333,
        10,
        100_000_000,
    ];
    for value in values {
        assert_eq!(parse_decimal(&format_decimal(value)), Ok(value));
    }
    assert_eq!(parse_decimal(&format_decimal(COORD_MAX + 1)), Err(NumberError::OutOfRange));
}

#[test]
fn unsigned_texts_denote_numbers() {
    assert_eq!(parse_usize(b"0"), Some(0));
    assert_eq!(parse_usize(b"16"), Some(16));
    assert_eq!(parse_usize(b"+16"), Some(16));
    assert_eq!(parse_usize(b"0016"), Some(16));
    assert_eq!(parse_usize(usize::MAX.to_string().as_bytes()), Some(usize::MAX));
    assert_eq!(parse_usize(b"99999999999999999999999999"), None);
    assert_eq!(parse_usize(b""), None);
    assert_eq!(parse_usize(b"+"), None);
    assert_eq!(parse_usize(b"-1"), None);
    assert_eq!(parse_usize(b"1.0"), None);
    assert_eq!(parse_usize(b"1 "), None);
    assert_eq!(parse_usize(b"++1"), None);
}

#[test]
fn numbers_are_written_without_leading_zeros() {
    assert_eq!(format_usize(0), b"0".to_vec());
    assert_eq!(format_usize(7), b"7".to_vec());
    assert_eq!(format_usize(10), b"10".to_vec());
    assert_eq!(format_usize(1110), b"1110".to_vec());
    assert_eq!(format_u64(u64::MAX), b"18446744073709551615".to_vec());
    assert_eq!(parse_usize(&format_usize(usize::MAX)), Some(usize::MAX));
}

#[test]
fn key_value_pairs_give_the_number_after_the_last_equals() {
    assert_eq!(parse_key_value_pair(b"NPOIN= 16"), Some(16));
    assert_eq!(parse_key_value_pair(b"NDIME=2"), Some(2));
    assert_eq!(parse_key_value_pair(b"A=1=  3\t"), Some(3));
    assert_eq!(parse_key_value_pair(b"17"), Some(17));
    assert_eq!(parse_key_value_pair(b"NPOIN="), None);
    assert_eq!(parse_key_value_pair(b"NPOIN= 16 3"), None);
    assert_eq!(parse_key_value_pair(b"NPOIN= x"), None);
}

#[test]
fn lines_of_numbers_are_read_token_by_token() {
    assert_eq!(parse_vector_from_line(b"9 0 1   5 4"), Some(vec![9, 0, 1, 5, 4]));
    assert_eq!(parse_vector_from_line(b""), Some(vec![]));
    assert_eq!(parse_vector_from_line(b"9 0 one"), None);
    assert_eq!(parse_vector_from_line(b"9\t0"), None);
    assert_eq!(
        parse_vector_from_line_with_dim(b"0.5  1.0  9", 2),
        Ok(vec![500_000_000, 1_000_000_000])
    );
    assert_eq!(parse_vector_from_line_with_dim(b"0.5 1.0 junk", 2), Ok(vec![500_000_000, RESOLUTION]));
    assert_eq!(parse_vector_from_line_with_dim(b"0.5", 3), Ok(vec![500_000_000]));
    assert_eq!(parse_vector_from_line_with_dim(b"0.5 junk", 2), Err(NumberError::Malformed));
    assert_eq!(parse_vector_from_line_with_dim(b"0.5 1e40", 2), Err(NumberError::OutOfRange));
    assert_eq!(parse_vector_from_line_with_dim(b"junk", 0), Ok(vec![]));
}

#[test]
fn texts_are_cut_into_lines_and_tokens() {
    assert_eq!(lines(b"a\nb"), vec![b"a".to_vec(), b"b".to_vec()]);
    assert_eq!(lines(b"a\nb\n"), vec![b"a".to_vec(), b"b".to_vec()]);
    assert_eq!(lines(b"a\n\n"), vec![b"a".to_vec(), b"".to_vec()]);
    assert_eq!(lines(b"\n"), vec![b"".to_vec()]);
    assert_eq!(lines(b""), Vec::<Vec<u8>>::new());
    assert_eq!(split(b"", 32), vec![b"".to_vec()]);
    assert_eq!(split(b" a  b", 32), vec![b"".to_vec(), b"a".to_vec(), b"".to_vec(), b"b".to_vec()]);
    assert_eq!(tokens(b"  a  bc d "), vec![b"a".to_vec(), b"bc".to_vec(), b"d".to_vec()]);
    assert_eq!(tokens(b"   "), Vec::<Vec<u8>>::new());
    assert_eq!(trim(b" \t a b\r\n"), b"a b".to_vec());
    assert_eq!(trim(b" \n "), b"".to_vec());
    assert_eq!(trim(b"ab"), b"ab".to_vec());
    assert!(starts_with(b"NDIME= 2", b"NDIME="));
    assert!(!starts_with(b"NDIM", b"NDIME="));
    assert!(starts_with(b"x", b""));
    assert_eq!(text_after_last(b"a=b=c", 61), b"c".to_vec());
    assert_eq!(text_after_last(b"abc", 61), b"abc".to_vec());
    assert_eq!(text_after_last(b"abc=", 61), b"".to_vec());
    assert_eq!(text_after_first(b"a=b=c", 61), Some(b"b=c".to_vec()));
    assert_eq!(text_after_first(b"abc", 61), None);
}
