use skanna::ledger::{Ledger, LedgerEntry};
use skanna::report::make_display_string;

fn quantity_of(ledger: &Ledger, id: &str) -> Option<i64> {
    ledger.get(id).map(|e| e.quantity)
}

#[test]
fn scans_accumulate_per_identifier() {
    let mut ledger = Ledger::new();
    ledger.record_scan("a", 3, 1);
    ledger.record_scan("a", 4, 2);
    ledger.record_scan("b", 1, 3);
    assert_eq!(quantity_of(&ledger, "a"), Some(7));
    assert_eq!(quantity_of(&ledger, "b"), Some(1));
}

#[test]
fn blank_identifier_is_ignored() {
    let mut ledger = Ledger::new();
    ledger.record_scan("", 5, 1);
    assert!(ledger.get("").is_none());
    assert_eq!(ledger.render(), "");
    ledger.record_scan("a", 2, 2);
    let before = ledger.render();
    ledger.record_scan("", 9, 3);
    assert_eq!(ledger.render(), before);
    assert_eq!(ledger.get("a").unwrap().last_touched, 2);
}

#[test]
fn render_is_idempotent() {
    let mut ledger = Ledger::new();
    ledger.record_scan("p", 1, 4);
    ledger.record_scan("q", 2, 4);
    ledger.record_scan("r", 3, 1);
    let first = ledger.render();
    let second = ledger.render();
    assert_eq!(first, second);
}

#[test]
fn rescan_moves_entry_first() {
    let mut ledger = Ledger::new();
    ledger.record_scan("a", 1, 1);
    ledger.record_scan("b", 1, 2);
    ledger.record_scan("a", 1, 3);
    assert_eq!(ledger.render(), "a\t2\nb\t1\n");
}

#[test]
fn round_trip_report() {
    let mut ledger = Ledger::new();
    ledger.record_scan("X1", 5, 10);
    ledger.record_scan("X2", 2, 11);
    ledger.record_scan("X1", 1, 12);
    assert_eq!(ledger.render(), "X1\t6\nX2\t2\n");
}

#[test]
fn each_scanned_identifier_listed_once() {
    let mut ledger = Ledger::new();
    let ids = ["k", "m", "k", "", "n", "m", "k"];
    for (t, id) in ids.iter().enumerate() {
        ledger.record_scan(id, 1, t as u64);
    }
    let report = ledger.render();
    let mut listed: Vec<&str> = report.lines().map(|l| l.split('\t').next().unwrap()).collect();
    assert_eq!(listed, vec!["k", "m", "n"]);
    listed.sort();
    assert_eq!(listed, vec!["k", "m", "n"]);
}

#[test]
fn quantity_is_sum_of_deltas() {
    let mut ledger = Ledger::new();
    ledger.record_scan("w", 10, 1);
    ledger.record_scan("v", 4, 2);
    ledger.record_scan("w", -3, 3);
    ledger.record_scan("w", 0, 4);
    ledger.record_scan("w", 25, 5);
    assert_eq!(quantity_of(&ledger, "w"), Some(32));
    assert_eq!(ledger.render(), "w\t32\nv\t4\n");
}

#[test]
fn empty_ledger_renders_nothing() {
    let ledger = Ledger::new();
    assert_eq!(ledger.render(), "");
    assert!(ledger.get("a").is_none());
}

#[test]
fn zero_delta_still_updates_recency() {
    let mut ledger = Ledger::new();
    ledger.record_scan("a", 2, 1);
    ledger.record_scan("b", 3, 2);
    ledger.record_scan("a", 0, 3);
    let entry = ledger.get("a").unwrap();
    assert_eq!(entry.quantity, 2);
    assert_eq!(entry.last_touched, 3);
    assert_eq!(ledger.render(), "a\t2\nb\t3\n");
}

#[test]
fn equal_times_keep_a_stable_order() {
    let mut ledger = Ledger::new();
    ledger.record_scan("a", 1, 5);
    ledger.record_scan("b", 1, 5);
    ledger.record_scan("c", 1, 5);
    assert_eq!(ledger.render(), "c\t1\nb\t1\na\t1\n");
    assert_eq!(ledger.render(), "c\t1\nb\t1\na\t1\n");
}

#[test]
fn order_follows_times_not_scan_order() {
    let mut ledger = Ledger::new();
    ledger.record_scan("late", 1, 50);
    ledger.record_scan("early", 2, 7);
    ledger.record_scan("middle", 3, 20);
    assert_eq!(ledger.render(), "late\t1\nmiddle\t3\nearly\t2\n");
}

#[test]
fn quantity_saturates_at_bounds() {
    let mut ledger = Ledger::new();
    ledger.record_scan("big", i64::MAX, 1);
    ledger.record_scan("big", 1, 2);
    assert_eq!(quantity_of(&ledger, "big"), Some(i64::MAX));
    ledger.record_scan("small", i64::MIN, 3);
    ledger.record_scan("small", -1, 4);
    assert_eq!(quantity_of(&ledger, "small"), Some(i64::MIN));
    assert_eq!(
        ledger.render(),
        "small\t-9223372036854775808\nbig\t9223372036854775807\n"
    );
}

#[test]
fn negative_and_zero_quantities_in_decimal() {
    let mut ledger = Ledger::new();
    ledger.record_scan("neg", -1205, 1);
    ledger.record_scan("zero", 0, 2);
    ledger.record_scan("ten", 10, 3);
    assert_eq!(ledger.render(), "ten\t10\nzero\t0\nneg\t-1205\n");
}

#[test]
fn display_string_from_entries() {
    let entries = vec![
        LedgerEntry { identifier: "0113035".to_string(), quantity: 3, last_touched: 9 },
        LedgerEntry { identifier: "18572054".to_string(), quantity: 1, last_touched: 12 },
        LedgerEntry { identifier: "A7".to_string(), quantity: 100, last_touched: 9 },
    ];
    assert_eq!(
        make_display_string(&entries),
        "18572054\t1\nA7\t100\n0113035\t3\n"
    );
    assert_eq!(make_display_string(&Vec::new()), "");
}
