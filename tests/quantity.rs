use skanna::decimal::parse_quantity;
use skanna::ledger::Ledger;

#[test]
fn parses_plain_and_signed_integers() {
    assert_eq!(parse_quantity("5"), 5);
    assert_eq!(parse_quantity("1"), 1);
    assert_eq!(parse_quantity("-7"), -7);
    assert_eq!(parse_quantity("+3"), 3);
    assert_eq!(parse_quantity("0042"), 42);
    assert_eq!(parse_quantity("-0"), 0);
}

#[test]
fn unparseable_text_counts_as_zero() {
    assert_eq!(parse_quantity(""), 0);
    assert_eq!(parse_quantity("-"), 0);
    assert_eq!(parse_quantity("+"), 0);
    assert_eq!(parse_quantity("abc"), 0);
    assert_eq!(parse_quantity("12a"), 0);
    assert_eq!(parse_quantity(" 5"), 0);
    assert_eq!(parse_quantity("5 "), 0);
    assert_eq!(parse_quantity("1.5"), 0);
    assert_eq!(parse_quantity("--2"), 0);
}

#[test]
fn parse_matches_integer_bounds() {
    assert_eq!(parse_quantity("9223372036854775807"), i64::MAX);
    assert_eq!(parse_quantity("-9223372036854775808"), i64::MIN);
    assert_eq!(parse_quantity("9223372036854775808"), 0);
    assert_eq!(parse_quantity("-9223372036854775809"), 0);
    assert_eq!(parse_quantity("99999999999999999999999"), 0);
    assert_eq!(parse_quantity("99999999999999999999999x"), 0);
}

#[test]
fn unparseable_quantity_still_touches_entry() {
    let mut ledger = Ledger::new();
    ledger.record_scan("a", parse_quantity("4"), 1);
    ledger.record_scan("b", parse_quantity("2"), 2);
    ledger.record_scan("a", parse_quantity("four"), 3);
    assert_eq!(ledger.render(), "a\t4\nb\t2\n");
    assert_eq!(ledger.get("a").unwrap().last_touched, 3);
}
