use ytproxy::size_parse::parse_size;

#[test]
fn plain_number_is_bytes() {
    assert_eq!(parse_size("1024"), Ok(1024));
    assert_eq!(parse_size("10485760"), Ok(10485760));
    assert_eq!(parse_size("0"), Ok(0));
}

#[test]
fn unit_suffixes_scale_by_1024() {
    assert_eq!(parse_size("10KB"), Ok(10 * 1024));
    assert_eq!(parse_size("10MB"), Ok(10 * 1024 * 1024));
    assert_eq!(parse_size("1GB"), Ok(1024 * 1024 * 1024));
    assert_eq!(parse_size("2TB"), Ok(2 * 1024u64.pow(4)));
}

#[test]
fn short_unit_forms_work() {
    assert_eq!(parse_size("10K"), Ok(10 * 1024));
    assert_eq!(parse_size("10M"), Ok(10 * 1024 * 1024));
    assert_eq!(parse_size("1G"), Ok(1024 * 1024 * 1024));
    assert_eq!(parse_size("2T"), Ok(2 * 1024u64.pow(4)));
}

#[test]
fn fractional_sizes_round_down() {
    assert_eq!(parse_size("2.5MB"), Ok(2_621_440));
    assert_eq!(parse_size("1.5K"), Ok(1536));
    assert_eq!(parse_size("0.5K"), Ok(512));
    assert_eq!(parse_size(".5K"), Ok(512));
    assert_eq!(parse_size("5.K"), Ok(5 * 1024));
    // 0.0001K is 0.1024 bytes, which floors to zero
    assert_eq!(parse_size("0.0001K"), Ok(0));
}

#[test]
fn case_and_whitespace_are_ignored() {
    assert_eq!(parse_size("10mb"), Ok(10 * 1024 * 1024));
    assert_eq!(parse_size("  10MB  "), Ok(10 * 1024 * 1024));
    assert_eq!(parse_size("10 MB"), Ok(10 * 1024 * 1024));
}

#[test]
fn unknown_format_is_rejected_with_message() {
    // the message names the input as the parser saw it: trimmed, uppercased
    assert_eq!(
        parse_size("abc"),
        Err("Invalid size format: ABC. Use formats like '10MB', '50MB', '1GB'".to_string())
    );
    assert_eq!(
        parse_size("10QB"),
        Err("Invalid size format: 10QB. Use formats like '10MB', '50MB', '1GB'".to_string())
    );
}

#[test]
fn bad_number_before_unit_is_rejected_with_message() {
    assert_eq!(parse_size("xMB"), Err("Invalid number in size: XMB".to_string()));
    assert_eq!(parse_size(".K"), Err("Invalid number in size: .K".to_string()));
    assert_eq!(parse_size("1.2.3MB"), Err("Invalid number in size: 1.2.3MB".to_string()));
    assert_eq!(parse_size("MB"), Err("Invalid number in size: MB".to_string()));
}

#[test]
fn case_and_whitespace_never_change_the_result() {
    // also on the error path: the messages are built from the normalized text
    assert_eq!(parse_size("xmb"), parse_size("XMB"));
    assert_eq!(parse_size("  xMB  "), parse_size("XMB"));
    assert_eq!(parse_size(" 10 mb "), parse_size("10MB"));
    assert_eq!(parse_size("abc"), parse_size("  ABC  "));
}

#[test]
fn unicode_whitespace_is_trimmed() {
    assert_eq!(parse_size("\u{0c}10MB\u{0c}"), Ok(10 * 1024 * 1024));
    assert_eq!(parse_size("\u{a0}1024\u{2003}"), Ok(1024));
}

#[test]
fn huge_scaled_value_saturates() {
    assert_eq!(parse_size("99999999999999999999K"), Ok(u64::MAX));
    assert_eq!(parse_size("18446744073709551615K"), Ok(u64::MAX));
}

#[test]
fn huge_plain_number_is_not_a_size() {
    // beyond u64 and without a unit, the string fits no accepted format
    assert_eq!(
        parse_size("99999999999999999999"),
        Err("Invalid size format: 99999999999999999999. Use formats like '10MB', '50MB', '1GB'"
            .to_string())
    );
}
