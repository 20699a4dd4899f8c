use ytproxy::rewriter::{rewrite, ParseFailedReason, RewriteOutcome, UnchangedReason};

#[test]
fn open_ended_ten_mib_is_capped() {
    let r = rewrite(Some("bytes=0-"), 10 * 1024 * 1024);
    assert_eq!(r, RewriteOutcome::Rewritten("bytes=0-10485759".to_string()));
}

#[test]
fn small_closed_range_unchanged() {
    let r = rewrite(Some("bytes=0-1023"), 10 * 1024 * 1024);
    assert_eq!(r, RewriteOutcome::Unchanged(UnchangedReason::AlreadyOptimal));
}

#[test]
fn large_closed_range_capped() {
    let r = rewrite(Some("bytes=100-99999999"), 1000);
    assert_eq!(r, RewriteOutcome::Rewritten("bytes=100-1099".to_string()));
}

#[test]
fn exact_fit_unchanged() {
    let r = rewrite(Some("bytes=0-999"), 1000);
    assert_eq!(r, RewriteOutcome::Unchanged(UnchangedReason::AlreadyOptimal));
}

#[test]
fn one_byte_over_capped() {
    let r = rewrite(Some("bytes=0-1000"), 1000);
    assert_eq!(r, RewriteOutcome::Rewritten("bytes=0-999".to_string()));
}

#[test]
fn missing_header_unchanged() {
    let r = rewrite(None, 5);
    assert_eq!(r, RewriteOutcome::Unchanged(UnchangedReason::NoRange));
}

#[test]
fn other_unit_is_parse_failure() {
    let r = rewrite(Some("items=0-"), 5);
    assert_eq!(r, RewriteOutcome::ParseFailed(ParseFailedReason::Malformed));
}

#[test]
fn missing_dash_is_parse_failure() {
    let r = rewrite(Some("bytes=123"), 5);
    assert_eq!(r, RewriteOutcome::ParseFailed(ParseFailedReason::Malformed));
}

#[test]
fn empty_header_is_parse_failure() {
    let r = rewrite(Some(""), 5);
    assert_eq!(r, RewriteOutcome::ParseFailed(ParseFailedReason::Malformed));
}

#[test]
fn invalid_start_is_parse_failure() {
    let r = rewrite(Some("bytes=a-"), 5);
    assert_eq!(r, RewriteOutcome::ParseFailed(ParseFailedReason::InvalidStart));
}

#[test]
fn empty_start_is_parse_failure() {
    let r = rewrite(Some("bytes=-100"), 5);
    assert_eq!(r, RewriteOutcome::ParseFailed(ParseFailedReason::InvalidStart));
}

#[test]
fn invalid_end_is_skipped() {
    let r = rewrite(Some("bytes=0-xyz"), 5);
    assert_eq!(r, RewriteOutcome::Unchanged(UnchangedReason::InvalidEnd));
}

#[test]
fn overflow_is_reported_not_wrapped() {
    let r = rewrite(Some("bytes=18446744073709551615-"), 1);
    assert_eq!(r, RewriteOutcome::ParseFailed(ParseFailedReason::Overflow));
}

#[test]
fn reversed_range_counts_as_one_byte() {
    // end < start: the span saturates to one byte, which fits any chunk size
    let r = rewrite(Some("bytes=10-5"), 4);
    assert_eq!(r, RewriteOutcome::Unchanged(UnchangedReason::AlreadyOptimal));
}

#[test]
fn leading_zeros_parse_as_value() {
    let r = rewrite(Some("bytes=007-"), 3);
    assert_eq!(r, RewriteOutcome::Rewritten("bytes=7-9".to_string()));
}

#[test]
fn second_dash_belongs_to_end() {
    // the end part "7-9" is not a number, so the header is skipped
    let r = rewrite(Some("bytes=5-7-9"), 1);
    assert_eq!(r, RewriteOutcome::Unchanged(UnchangedReason::InvalidEnd));
}
