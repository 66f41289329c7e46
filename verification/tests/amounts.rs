use toy_pay::amount::{format_amount, parse_amount};
use toy_pay::record::{parse_kind, TxKind};

#[test]
fn parse_plain_decimals() {
    assert_eq!(parse_amount("10.0"), Some(100000));
    assert_eq!(parse_amount("5"), Some(50000));
    assert_eq!(parse_amount("0"), Some(0));
    assert_eq!(parse_amount("1.5"), Some(15000));
    assert_eq!(parse_amount("0.0001"), Some(1));
    assert_eq!(parse_amount("12.3456"), Some(123456));
}

#[test]
fn parse_signs() {
    assert_eq!(parse_amount("-50.0"), Some(-500000));
    assert_eq!(parse_amount("+3"), Some(30000));
    assert_eq!(parse_amount("-0.0001"), Some(-1));
}

#[test]
fn parse_rounds_half_away_from_zero() {
    assert_eq!(parse_amount("0.00005"), Some(1));
    assert_eq!(parse_amount("0.00004"), Some(0));
    assert_eq!(parse_amount("0.000049999"), Some(0));
    assert_eq!(parse_amount("1.23456"), Some(12346));
    assert_eq!(parse_amount("1.23454"), Some(12345));
    assert_eq!(parse_amount("-0.00005"), Some(-1));
    assert_eq!(parse_amount("-1.23456"), Some(-12346));
}

#[test]
fn parse_bare_and_trailing_dot() {
    assert_eq!(parse_amount(".5"), Some(5000));
    assert_eq!(parse_amount("10."), Some(100000));
}

#[test]
fn parse_rejects_malformed() {
    assert_eq!(parse_amount(""), None);
    assert_eq!(parse_amount("."), None);
    assert_eq!(parse_amount("+"), None);
    assert_eq!(parse_amount("-"), None);
    assert_eq!(parse_amount("abc"), None);
    assert_eq!(parse_amount("1.2.3"), None);
    assert_eq!(parse_amount("--1"), None);
    assert_eq!(parse_amount("1 0"), None);
    assert_eq!(parse_amount("1,0"), None);
}

#[test]
fn parse_rejects_out_of_range() {
    assert_eq!(parse_amount("99999999999999999999"), None);
    assert_eq!(parse_amount("922337203685477.5808"), None);
    assert_eq!(parse_amount("922337203685477.5807"), Some(i64::MAX));
    // The smallest representable value has no decimal spelling here: the
    // magnitude is capped symmetrically.
    assert_eq!(parse_amount("-922337203685477.5807"), Some(-i64::MAX));
    assert_eq!(parse_amount("-922337203685477.5808"), None);
}

#[test]
fn format_four_decimal_places() {
    assert_eq!(format_amount(100000), "10.0000");
    assert_eq!(format_amount(0), "0.0000");
    assert_eq!(format_amount(-500000), "-50.0000");
    assert_eq!(format_amount(12346), "1.2346");
    assert_eq!(format_amount(1), "0.0001");
    assert_eq!(format_amount(-1), "-0.0001");
    assert_eq!(format_amount(i64::MAX), "922337203685477.5807");
    assert_eq!(format_amount(i64::MIN), "-922337203685477.5808");
}

#[test]
fn format_then_parse_round_trips() {
    for v in [0i64, 1, -1, 12346, -999999999, i64::MAX, 100000] {
        assert_eq!(parse_amount(&format_amount(v)), Some(v));
    }
}

#[test]
fn parse_kind_matches_tags_exactly() {
    assert_eq!(parse_kind("deposit"), TxKind::Deposit);
    assert_eq!(parse_kind("withdrawal"), TxKind::Withdrawal);
    assert_eq!(parse_kind("dispute"), TxKind::Dispute);
    assert_eq!(parse_kind("resolve"), TxKind::Resolve);
    assert_eq!(parse_kind("chargeback"), TxKind::Chargeback);
    assert_eq!(parse_kind("Deposit"), TxKind::Unknown);
    assert_eq!(parse_kind("foo"), TxKind::Unknown);
    assert_eq!(parse_kind(""), TxKind::Unknown);
}
