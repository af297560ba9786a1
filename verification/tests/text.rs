use erebus_trainer::text::{
    chars_of, copy_range, digits_of, is_space_char, next_word, push_decimal, read_number,
    read_usize, same_chars, trim_chars, NumberError,
};

fn number(s: &str, max: u64) -> Result<u64, NumberError> {
    read_number(&chars_of(s), max)
}

#[test]
fn chars_come_one_by_one() {
    assert_eq!(chars_of(""), Vec::<char>::new());
    assert_eq!(chars_of("aé+"), vec!['a', 'é', '+']);
}

#[test]
fn numbers_read_as_std_reads_them() {
    for s in [
        "", "+", "-", "0", "7", "+7", "-7", "++7", "007", "255", "256", "300x", "25x", "x25",
        "2 5", " 25", "1_000", "18446744073709551615", "18446744073709551616",
        "99999999999999999999999", "99999999999999999999999x", "+18446744073709551615", "٣",
    ] {
        let want = s.parse::<u64>();
        match (number(s, u64::MAX), want) {
            (Ok(a), Ok(b)) => assert_eq!(a, b, "{s}"),
            (Err(a), Err(b)) => assert_eq!(a.message(), b.to_string(), "{s}"),
            (a, b) => panic!("{s}: {a:?} {b:?}"),
        }
    }
}

#[test]
fn numbers_stay_within_the_limit() {
    assert_eq!(number("255", 255), Ok(255));
    assert_eq!(number("256", 255), Err(NumberError::TooLarge));
    assert_eq!(number("260", 255), Err(NumberError::TooLarge));
    assert_eq!(number("9", 5), Err(NumberError::TooLarge));
    assert_eq!(number("300x", 255), Err(NumberError::TooLarge));
    assert_eq!(number("25x", 255), Err(NumberError::InvalidDigit));
    assert_eq!(number("", 255), Err(NumberError::Empty));
    assert_eq!(read_usize(&chars_of("18446744073709551616")), Err(NumberError::TooLarge));
    assert_eq!(read_usize(&chars_of("42")), Ok(42));
}

#[test]
fn decimal_text_reads_back() {
    for n in [0u64, 9, 10, 99, 100, 2188, u64::MAX] {
        let mut s = String::from("n=");
        push_decimal(&mut s, n);
        assert_eq!(s, format!("n={n}"));
        assert_eq!(number(&s[2..], u64::MAX), Ok(n));
    }
}

#[test]
fn white_space_is_unicode_white_space() {
    for code in 0..=0x10ffff_u32 {
        if let Some(c) = char::from_u32(code) {
            assert_eq!(is_space_char(c), c.is_whitespace(), "{code:x}");
        }
    }
}

#[test]
fn trimming_takes_both_ends() {
    for s in ["", "  ", "a", " a ", "\t a b\u{3000}\n", "a b"] {
        assert_eq!(trim_chars(&chars_of(s)), chars_of(s.trim()));
    }
}

#[test]
fn words_lie_between_white_space() {
    let v = chars_of("  ab\u{2003}c ");
    let a = next_word(&v, 0);
    assert_eq!(a, (2, 4));
    let b = next_word(&v, a.1);
    assert_eq!(b, (5, 6));
    assert_eq!(copy_range(&v, b.0, b.1), vec!['c']);
    let c = next_word(&v, b.1);
    assert_eq!(c, (7, 7));
}

#[test]
fn only_digits_are_left() {
    assert_eq!(digits_of(&chars_of(" 1_452,424 355\n")), chars_of("1452424355"));
    assert_eq!(digits_of(&chars_of("none")), chars_of(""));
}

#[test]
fn texts_are_the_same_character_by_character() {
    assert!(same_chars(&chars_of("ab"), &chars_of("ab")));
    assert!(!same_chars(&chars_of("ab"), &chars_of("ac")));
    assert!(!same_chars(&chars_of("ab"), &chars_of("abc")));
}
