use r2::text::{decimal_string, indexed_name, parse_bool, parse_usize, str_eq};

#[test]
fn numbers_are_read_as_std_reads_them() {
    let cases = [
        "0", "7", "42", "007", "+7", "+0", "1000", "", "+", "-", "-1", "-0", "++1", "1+", "12a",
        "a12", " 12", "12 ", "1 2", "1_000", "0x10", "١٢", "18446744073709551615",
        "18446744073709551616", "99999999999999999999999", "+18446744073709551615",
        "4294967295", "4294967296",
    ];
    for text in cases {
        assert_eq!(parse_usize(text), text.parse::<usize>().ok(), "{}", text);
    }
}

#[test]
fn numbers_read_exactly() {
    assert_eq!(parse_usize("128"), Some(128));
    assert_eq!(parse_usize("+5"), Some(5));
    assert_eq!(parse_usize("000"), Some(0));
    assert_eq!(parse_usize(""), None);
    assert_eq!(parse_usize("+"), None);
    assert_eq!(parse_usize("-3"), None);
    assert_eq!(parse_usize("3.0"), None);
    assert_eq!(parse_usize(&usize::MAX.to_string()), Some(usize::MAX));
    assert_eq!(parse_usize(&format!("{}0", usize::MAX)), None);
}

#[test]
fn truth_values_are_spelled_out() {
    assert_eq!(parse_bool("true"), Some(true));
    assert_eq!(parse_bool("false"), Some(false));
    for text in ["", "True", "FALSE", "1", "0", "yes", "true ", " true", "tru", "truee"] {
        assert_eq!(parse_bool(text), None, "{}", text);
        assert_eq!(parse_bool(text), text.parse::<bool>().ok());
    }
}

#[test]
fn numbers_are_written_in_decimal() {
    assert_eq!(decimal_string(0), "0");
    assert_eq!(decimal_string(7), "7");
    assert_eq!(decimal_string(10), "10");
    assert_eq!(decimal_string(109), "109");
    assert_eq!(decimal_string(1234567890), "1234567890");
    assert_eq!(decimal_string(usize::MAX), usize::MAX.to_string());
}

#[test]
fn written_numbers_read_back() {
    for n in [0usize, 1, 9, 10, 11, 99, 100, 65535, 65536, usize::MAX - 1, usize::MAX] {
        assert_eq!(parse_usize(&decimal_string(n)), Some(n));
    }
}

#[test]
fn names_carry_their_index() {
    assert_eq!(indexed_name("x", 0), "x:0");
    assert_eq!(indexed_name("x", 1), "x:1");
    assert_eq!(indexed_name("r2_logs", 12), "r2_logs:12");
    assert_eq!(indexed_name("", 3), ":3");
    assert_eq!(indexed_name("a:b", 0), "a:b:0");
}

#[test]
fn texts_compare_by_content() {
    assert!(str_eq("dpdk", "dpdk"));
    assert!(str_eq("", ""));
    assert!(!str_eq("dpdk", "dpdk "));
    assert!(!str_eq("dpdk", "DPDK"));
    assert!(!str_eq("a", ""));
}
