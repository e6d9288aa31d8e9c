use bytesize::ByteSize;
use cache_latency::cli::{
    buffer_size_from_parsed, check_buffer_size, parse_buffer_size, parse_positive_usize, parse_usize, select_core,
    size_label, MIN_BUFFER_SIZE_BYTES,
};

const NOT_POSITIVE: &str = "value must be a positive integer";

#[test]
fn parse_usize_reads_plain_and_plus_signed_digits() {
    assert_eq!(parse_usize("0"), Some(0));
    assert_eq!(parse_usize("30000"), Some(30_000));
    assert_eq!(parse_usize("+7"), Some(7));
    assert_eq!(parse_usize("007"), Some(7));
}

#[test]
fn parse_usize_agrees_with_std() {
    for text in ["", "+", "-1", "-0", " 5", "5 ", "1_000", "12a", "++1", "0x10", "\u{663}", "99999999999999999999999"] {
        assert_eq!(parse_usize(text), text.parse::<usize>().ok(), "text {text:?}");
    }
    let max = usize::MAX.to_string();
    assert_eq!(parse_usize(&max), Some(usize::MAX));
    let over = format!("{}0", usize::MAX);
    assert_eq!(parse_usize(&over), None);
}

#[test]
fn positive_count_accepted() {
    assert_eq!(parse_positive_usize("1000"), Ok(1000));
    assert_eq!(parse_positive_usize("+1"), Ok(1));
}

#[test]
fn zero_count_rejected() {
    assert_eq!(
        parse_positive_usize("0"),
        Err("value must be greater than zero".to_string())
    );
}

#[test]
fn malformed_count_rejected() {
    for text in ["", "abc", "-3", "1.5", "+", " 4"] {
        assert_eq!(parse_positive_usize(text), Err(NOT_POSITIVE.to_string()));
    }
    let over = format!("{}1", usize::MAX);
    assert_eq!(parse_positive_usize(&over), Err(NOT_POSITIVE.to_string()));
}

#[test]
fn buffer_sizes_with_units() {
    assert_eq!(parse_buffer_size("8kiB"), Ok(8 * 1024));
    assert_eq!(parse_buffer_size("1MiB"), Ok(1024 * 1024));
    assert_eq!(parse_buffer_size("2giB"), Ok(2 * 1024 * 1024 * 1024));
    assert_eq!(parse_buffer_size("32 KiB"), Ok(32 * 1024));
}

#[test]
fn plain_byte_counts() {
    assert_eq!(MIN_BUFFER_SIZE_BYTES, 128);
    assert_eq!(parse_buffer_size("128"), Ok(128));
    assert_eq!(parse_buffer_size("4096"), Ok(4096));
}

#[test]
fn buffer_too_small_for_two_nodes() {
    assert_eq!(
        parse_buffer_size("127"),
        Err("buffer size must be at least 128 B".to_string())
    );
    assert_eq!(
        parse_buffer_size("0"),
        Err("buffer size must be at least 128 B".to_string())
    );
}

#[test]
fn unparsable_buffer_size() {
    let expected = format!(
        "invalid buffer size: {}",
        "lots".parse::<ByteSize>().unwrap_err()
    );
    assert_eq!(parse_buffer_size("lots"), Err(expected));
    assert!(parse_buffer_size("12 parsecs").unwrap_err().starts_with("invalid buffer size: "));
}

#[test]
fn core_selection() {
    let cores = vec![0, 1, 2, 3];
    assert_eq!(select_core(&cores, Some(2)), Some(2));
    assert_eq!(select_core(&cores, Some(9)), None);
    assert_eq!(select_core(&cores, None), Some(0));
    assert_eq!(select_core(&vec![5, 7], None), Some(5));
    assert_eq!(select_core(&vec![], None), None);
    assert_eq!(select_core(&vec![], Some(0)), None);
}

#[test]
fn decimal_text_of_a_count_reads_back() {
    for n in [1usize, 7, 10, 100, 30_000, 123_456_789, usize::MAX] {
        assert_eq!(parse_positive_usize(&n.to_string()), Ok(n));
    }
}

#[test]
fn check_buffer_size_bounds() {
    assert_eq!(check_buffer_size(128), Ok(128));
    assert_eq!(check_buffer_size(1 << 30), Ok(1 << 30));
    assert_eq!(
        check_buffer_size(64),
        Err("buffer size must be at least 128 B".to_string())
    );
}

#[test]
fn byte_size_text_below_one_kibibyte() {
    assert_eq!(ByteSize(128).to_string(), "128 B");
    assert_eq!(ByteSize(0).to_string(), "0 B");
    assert_eq!(ByteSize(1023).to_string(), "1023 B");
}

#[test]
fn size_labels_as_reports_show_them() {
    assert_eq!(size_label(128), "128 B");
    assert_eq!(size_label(1023), "1023 B");
    assert_eq!(size_label(8 * 1024), "8.0 KiB");
    assert_eq!(size_label(1024 * 1024), ByteSize::mib(1).to_string());
}

#[test]
fn parsed_buffer_sizes_are_checked_or_reported() {
    assert_eq!(buffer_size_from_parsed(Ok(4096)), Ok(4096));
    assert_eq!(
        buffer_size_from_parsed(Ok(64)),
        Err("buffer size must be at least 128 B".to_string())
    );
    assert_eq!(
        buffer_size_from_parsed(Err("bad unit".to_string())),
        Err("invalid buffer size: bad unit".to_string())
    );
}
