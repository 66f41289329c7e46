use toy_pay::account::AccountDetails;
use toy_pay::amount::parse_amount;
use toy_pay::record::{parse_kind, Record};
use toy_pay::registry::AccountRegistry;

fn rec(kind: &str, client: u16, tx: u32, amount: Option<&str>) -> Record {
    Record {
        kind: parse_kind(kind),
        client,
        tx,
        amount: amount.map(|s| parse_amount(s).unwrap()),
    }
}

fn row_for(rows: &[AccountDetails], client: u16) -> AccountDetails {
    for row in rows {
        if row.client == client {
            return *row;
        }
    }
    panic!("no row for client {}", client);
}

fn units(s: &str) -> i64 {
    parse_amount(s).unwrap()
}

#[test]
fn scenario_deposits_and_withdrawal() {
    let mut registry = AccountRegistry::new();
    registry.process_record(rec("deposit", 1, 1, Some("10.0")));
    registry.process_record(rec("deposit", 1, 2, Some("5.0")));
    registry.process_record(rec("withdrawal", 1, 3, Some("3.0")));
    let rows = registry.output_records();
    let row = row_for(&rows, 1);
    assert_eq!(row.available, units("12.0"));
    assert_eq!(row.held, 0);
    assert_eq!(row.total, units("12.0"));
    assert_eq!(row.locked, false);
}

#[test]
fn scenario_dispute_holds_funds() {
    let mut registry = AccountRegistry::new();
    registry.process_record(rec("deposit", 1, 1, Some("10.0")));
    registry.process_record(rec("dispute", 1, 1, None));
    let rows = registry.output_records();
    let row = row_for(&rows, 1);
    assert_eq!(row.available, 0);
    assert_eq!(row.held, units("10.0"));
    assert_eq!(row.total, units("10.0"));
    assert_eq!(row.locked, false);
}

#[test]
fn scenario_chargeback_locks() {
    let mut registry = AccountRegistry::new();
    registry.process_record(rec("deposit", 1, 1, Some("10.0")));
    registry.process_record(rec("dispute", 1, 1, None));
    registry.process_record(rec("chargeback", 1, 1, None));
    let rows = registry.output_records();
    let row = row_for(&rows, 1);
    assert_eq!(row.available, 0);
    assert_eq!(row.held, 0);
    assert_eq!(row.total, 0);
    assert_eq!(row.locked, true);
}

#[test]
fn scenario_resolve_restores() {
    let mut registry = AccountRegistry::new();
    registry.process_record(rec("deposit", 1, 1, Some("10.0")));
    registry.process_record(rec("dispute", 1, 1, None));
    registry.process_record(rec("resolve", 1, 1, None));
    let rows = registry.output_records();
    let row = row_for(&rows, 1);
    // Identical to the state before the dispute.
    assert_eq!(row.available, units("10.0"));
    assert_eq!(row.held, 0);
    assert_eq!(row.total, units("10.0"));
    assert_eq!(row.locked, false);
}

#[test]
fn scenario_withdrawal_without_deposit_goes_negative() {
    // No sufficiency check: the balance may go negative.
    let mut registry = AccountRegistry::new();
    registry.process_record(rec("withdrawal", 7, 1, Some("50.0")));
    let rows = registry.output_records();
    let row = row_for(&rows, 7);
    assert_eq!(row.available, units("-50.0"));
    assert_eq!(row.held, 0);
    assert_eq!(row.total, units("-50.0"));
    assert_eq!(row.locked, false);
}

#[test]
fn scenario_unrecognized_kind_is_no_op() {
    let mut registry = AccountRegistry::new();
    registry.process_record(rec("foo", 3, 1, None));
    let rows = registry.output_records();
    let row = row_for(&rows, 3);
    assert_eq!(row.available, 0);
    assert_eq!(row.held, 0);
    assert_eq!(row.total, 0);
    assert_eq!(row.locked, false);
}

#[test]
fn locked_account_ignores_further_records() {
    let mut registry = AccountRegistry::new();
    registry.process_record(rec("deposit", 1, 1, Some("10.0")));
    registry.process_record(rec("dispute", 1, 1, None));
    registry.process_record(rec("chargeback", 1, 1, None));
    // All of these must be silent no-ops on the frozen account.
    registry.process_record(rec("deposit", 1, 2, Some("4.0")));
    registry.process_record(rec("withdrawal", 1, 3, Some("1.0")));
    registry.process_record(rec("dispute", 1, 1, None));
    registry.process_record(rec("resolve", 1, 1, None));
    let rows = registry.output_records();
    let row = row_for(&rows, 1);
    assert_eq!(row.available, 0);
    assert_eq!(row.held, 0);
    assert_eq!(row.total, 0);
    assert_eq!(row.locked, true);
}

#[test]
fn dispute_of_unknown_tx_is_no_op() {
    let mut registry = AccountRegistry::new();
    registry.process_record(rec("deposit", 1, 1, Some("10.0")));
    registry.process_record(rec("dispute", 1, 9, None));
    registry.process_record(rec("resolve", 1, 9, None));
    registry.process_record(rec("chargeback", 1, 9, None));
    let rows = registry.output_records();
    let row = row_for(&rows, 1);
    assert_eq!(row.available, units("10.0"));
    assert_eq!(row.held, 0);
    assert_eq!(row.total, units("10.0"));
    assert_eq!(row.locked, false);
}

#[test]
fn second_dispute_is_no_op() {
    let mut registry = AccountRegistry::new();
    registry.process_record(rec("deposit", 1, 1, Some("10.0")));
    registry.process_record(rec("dispute", 1, 1, None));
    registry.process_record(rec("dispute", 1, 1, None));
    let rows = registry.output_records();
    let row = row_for(&rows, 1);
    assert_eq!(row.available, 0);
    assert_eq!(row.held, units("10.0"));
    assert_eq!(row.total, units("10.0"));
    assert_eq!(row.locked, false);
}

#[test]
fn resolve_without_dispute_is_no_op() {
    let mut registry = AccountRegistry::new();
    registry.process_record(rec("deposit", 1, 1, Some("10.0")));
    registry.process_record(rec("resolve", 1, 1, None));
    registry.process_record(rec("chargeback", 1, 1, None));
    let rows = registry.output_records();
    let row = row_for(&rows, 1);
    assert_eq!(row.available, units("10.0"));
    assert_eq!(row.held, 0);
    assert_eq!(row.total, units("10.0"));
    assert_eq!(row.locked, false);
}

#[test]
fn missing_amount_is_no_op() {
    let mut registry = AccountRegistry::new();
    registry.process_record(rec("deposit", 1, 1, None));
    registry.process_record(rec("withdrawal", 1, 2, None));
    let rows = registry.output_records();
    let row = row_for(&rows, 1);
    assert_eq!(row.available, 0);
    assert_eq!(row.total, 0);
}

#[test]
fn duplicate_tx_overwrites_stored_transaction() {
    // The design does not deduplicate: the second deposit under the same
    // id replaces the stored transaction, so a dispute holds its amount.
    let mut registry = AccountRegistry::new();
    registry.process_record(rec("deposit", 1, 1, Some("10.0")));
    registry.process_record(rec("deposit", 1, 1, Some("2.0")));
    registry.process_record(rec("dispute", 1, 1, None));
    let rows = registry.output_records();
    let row = row_for(&rows, 1);
    assert_eq!(row.available, units("10.0"));
    assert_eq!(row.held, units("2.0"));
    assert_eq!(row.total, units("12.0"));
}

#[test]
fn balance_identity_after_each_record() {
    let mut registry = AccountRegistry::new();
    let stream = vec![
        rec("deposit", 1, 1, Some("10.5")),
        rec("deposit", 2, 2, Some("0.0001")),
        rec("withdrawal", 1, 3, Some("20.25")),
        rec("dispute", 1, 1, None),
        rec("resolve", 1, 1, None),
        rec("dispute", 1, 1, None),
        rec("chargeback", 1, 1, None),
        rec("deposit", 2, 4, Some("3.3333")),
    ];
    for r in stream {
        registry.process_record(r);
        for row in registry.output_records() {
            assert_eq!(row.total, row.available + row.held);
        }
    }
}

#[test]
fn snapshot_has_one_row_per_client() {
    let mut registry = AccountRegistry::new();
    registry.process_record(rec("deposit", 1, 1, Some("1.0")));
    registry.process_record(rec("deposit", 2, 2, Some("2.0")));
    registry.process_record(rec("deposit", 1, 3, Some("3.0")));
    let rows = registry.output_records();
    assert_eq!(rows.len(), 2);
    assert_eq!(row_for(&rows, 1).total, units("4.0"));
    assert_eq!(row_for(&rows, 2).total, units("2.0"));
}
