use megadl::text::{chars_of, read_signed, read_unsigned, split_chars, trimmed, white};

#[test]
fn white_space_is_that_of_the_standard_library() {
    for c in '\0'..=char::MAX {
        assert_eq!(white(c), c.is_whitespace(), "{c:?}");
    }
}

#[test]
fn trimming_is_that_of_the_standard_library() {
    for s in ["", " ", "a", " a b\t\n", "\u{3000}x\u{a0}", "\u{200b}x"] {
        assert_eq!(trimmed(s).into_iter().collect::<String>(), s.trim());
    }
}

#[test]
fn numbers_are_read_as_by_the_standard_library() {
    for s in ["", "+", "-", "0", "-0", "+7", "007", "65535", "65536", "-1", "1 ", "1a", "\u{661}", "18446744073709551615", "18446744073709551616"] {
        let v = chars_of(s);
        assert_eq!(read_unsigned(&v, 10, u16::MAX as u64), s.parse::<u16>().ok().map(u64::from), "{s}");
        assert_eq!(read_unsigned(&v, 10, u64::MAX), s.parse::<u64>().ok(), "{s}");
        assert_eq!(read_signed(&v, i64::MIN, i64::MAX), s.parse::<i64>().ok(), "{s}");
    }
    for s in ["-9223372036854775808", "-9223372036854775809", "9223372036854775807", "9223372036854775808", "-2147483649"] {
        let v = chars_of(s);
        assert_eq!(read_signed(&v, i64::MIN, i64::MAX), s.parse::<i64>().ok(), "{s}");
        assert_eq!(read_signed(&v, i32::MIN as i64, i32::MAX as i64), s.parse::<i32>().ok().map(i64::from), "{s}");
    }
    for s in ["", "ff", "+FF", "0x1", "g", "ffffffffffffffff", "10000000000000000"] {
        assert_eq!(read_unsigned(&chars_of(s), 16, u64::MAX), u64::from_str_radix(s, 16).ok(), "{s}");
    }
}

#[test]
fn splitting_is_that_of_the_standard_library() {
    for s in ["", ",", "a,b", "a,,b,", "abc"] {
        let parts = split_chars(&chars_of(s), ',');
        assert_eq!(parts, s.split(',').collect::<Vec<_>>());
    }
}
