use pa_types::{parse_size, parse_size_bytes, Error, ErrorClass};

#[test]
fn plain_numbers_are_bytes() {
    assert_eq!(parse_size("1234"), Ok(1234));
    assert_eq!(parse_size("0"), Ok(0));
    assert_eq!(parse_size("007"), Ok(7));
    assert_eq!(parse_size("12 B"), Ok(12));
    assert_eq!(parse_size("12b"), Ok(12));
}

#[test]
fn decimal_units_are_powers_of_1000() {
    assert_eq!(parse_size("1 KB"), Ok(1000));
    assert_eq!(parse_size("1 kb"), Ok(1000));
    assert_eq!(parse_size("1K"), Ok(1000));
    assert_eq!(parse_size("3 MB"), Ok(3_000_000));
    assert_eq!(parse_size("3m"), Ok(3_000_000));
    assert_eq!(parse_size("2 GB"), Ok(2_000_000_000));
    assert_eq!(parse_size("2   g"), Ok(2_000_000_000));
}

#[test]
fn binary_units_are_powers_of_1024() {
    assert_eq!(parse_size("1 KiB"), Ok(1024));
    assert_eq!(parse_size("1 kib"), Ok(1024));
    assert_eq!(parse_size("1KI"), Ok(1024));
    assert_eq!(parse_size("3 MiB"), Ok(3 * 1024 * 1024));
    assert_eq!(parse_size("2 GiB"), Ok(2 * 1024 * 1024 * 1024));
    assert_eq!(parse_size("2gi"), Ok(2 * 1024 * 1024 * 1024));
}

#[test]
fn malformed_sizes_fail() {
    for s in [
        "1 xyz", "", " ", "KB", " 1", "1 KB ", "-1", "+1", "1.5 KB", "1 iB", "1 i", "1 Kii",
        "1 KBB", "1 KiBB", "1 TB", "1 BK", "1 K B", "1\tKB", "1 KB2", "1_000", "0x10", "１",
    ] {
        assert_eq!(parse_size(s), Err(Error::MalformedSize), "{:?}", s);
    }
    assert_eq!(Error::MalformedSize.class(), ErrorClass::Construction);
}

#[test]
fn spaces_may_follow_the_number() {
    assert_eq!(parse_size("1 "), Ok(1));
    assert_eq!(parse_size("1   "), Ok(1));
    assert_eq!(parse_size("1    KiB"), Ok(1024));
}

#[test]
fn sizes_up_to_64_bits_fit() {
    assert_eq!(parse_size("18446744073709551615"), Ok(u64::MAX));
    assert_eq!(parse_size("18446744073709551616"), Err(Error::SizeOutOfRange));
    assert_eq!(parse_size("18446744073709551615 B"), Ok(u64::MAX));
    assert_eq!(parse_size("18446744073709551 KB"), Ok(18446744073709551000));
    assert_eq!(parse_size("18446744073709552 KB"), Err(Error::SizeOutOfRange));
    assert_eq!(parse_size("17179869183 GiB"), Ok(17179869183 << 30));
    assert_eq!(parse_size("17179869184 GiB"), Err(Error::SizeOutOfRange));
    assert_eq!(
        parse_size("99999999999999999999999999999999999999999999"),
        Err(Error::SizeOutOfRange)
    );
    assert_eq!(Error::SizeOutOfRange.class(), ErrorClass::Construction);
}

#[test]
fn syntax_is_checked_before_the_range() {
    assert_eq!(
        parse_size("99999999999999999999999999999999999999999999 xyz"),
        Err(Error::MalformedSize)
    );
}

#[test]
fn bytes_need_not_be_text() {
    assert_eq!(parse_size_bytes(b"64 MiB"), Ok(64 << 20));
    assert_eq!(parse_size_bytes(&[0x31, 0xff]), Err(Error::MalformedSize));
    assert_eq!(parse_size_bytes(&[]), Err(Error::MalformedSize));
}
