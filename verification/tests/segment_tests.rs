use kvs::segment::{parse_segment_file_name, segment_file_name};

#[test]
fn segment_names_are_decimal() {
    assert_eq!(segment_file_name(0), "0.log");
    assert_eq!(segment_file_name(7), "7.log");
    assert_eq!(segment_file_name(10), "10.log");
    assert_eq!(segment_file_name(12345), "12345.log");
    assert_eq!(segment_file_name(u64::MAX), "18446744073709551615.log");
}

#[test]
fn segment_names_are_parsed_back() {
    for id in [0u64, 1, 9, 10, 99, 100, 20480, u64::MAX - 1, u64::MAX] {
        assert_eq!(parse_segment_file_name(&segment_file_name(id)), Some(id));
    }
}

#[test]
fn other_names_are_no_segments() {
    for name in [
        "", ".log", "log", "0", "0.lo", "0.logs", "00.log", "01.log", "a.log", "1a.log", "-1.log",
        "+1.log", " 1.log", "1 .log", "1.LOG", "1.log ", "engine", "18446744073709551616.log",
        "99999999999999999999999.log", "1.1.log", "\u{661}.log",
    ] {
        assert_eq!(parse_segment_file_name(name), None, "{:?}", name);
    }
}
