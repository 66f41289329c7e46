use toy_pay::account::{AccountDetails, LiveAccount, StoredTransaction};
use toy_pay::amount::parse_amount;
use toy_pay::record::{parse_kind, Record, TxKind};

pub struct TestCase {
    record: Record,
    account: LiveAccount,
    expected_total: f32,
    expected_held: f32,
    expected_available: f32,
    expected_locked: bool,
}

fn amt(s: &str) -> i64 {
    parse_amount(s).unwrap()
}

fn to_f32(v: i64) -> f32 {
    (v as f64 / 10000.0) as f32
}

fn kind_name(k: &TxKind) -> &'static str {
    match k {
        TxKind::Deposit => "deposit",
        TxKind::Withdrawal => "withdrawal",
        TxKind::Dispute => "dispute",
        TxKind::Resolve => "resolve",
        TxKind::Chargeback => "chargeback",
        TxKind::Unknown => "unknown",
    }
}

// run_test_cases runs through a set of configured test cases
// designed to ensure the main record processing actions completed
// as expected
#[test]
fn run_test_cases() {
    let test_cases: Vec<TestCase> = vec![
        // Deposit
        TestCase {
            record: Record {
                kind: parse_kind("deposit"),
                client: 1,
                tx: 1,
                amount: Some(amt("10")),
            },
            account: LiveAccount {
                transaction_record: vec![],
                account_details: AccountDetails {
                    client: 1,
                    available: 0,
                    held: 0,
                    total: 0,
                    locked: false,
                },
            },
            expected_total: 10.0,
            expected_held: 0.0,
            expected_available: 10.0,
            expected_locked: false,
        },
        // Withdraw
        TestCase {
            record: Record {
                kind: parse_kind("withdrawal"),
                client: 1,
                tx: 1,
                amount: Some(amt("10")),
            },
            account: LiveAccount {
                transaction_record: vec![],
                account_details: AccountDetails {
                    client: 1,
                    available: amt("20"),
                    held: 0,
                    total: 0,
                    locked: false,
                },
            },
            expected_total: 10.0,
            expected_held: 0.0,
            expected_available: 10.0,
            expected_locked: false,
        },
        // Dispute
        TestCase {
            record: Record {
                kind: parse_kind("dispute"),
                client: 1,
                tx: 1,
                amount: None,
            },
            account: LiveAccount {
                transaction_record: vec![(
                    1,
                    StoredTransaction {
                        amount: amt("10"),
                        disputed: false,
                    },
                )],
                account_details: AccountDetails {
                    client: 1,
                    available: amt("10"),
                    held: 0,
                    total: 0,
                    locked: false,
                },
            },
            expected_total: 10.0,
            expected_held: 10.0,
            expected_available: 0.0,
            expected_locked: false,
        },
        // Resolve
        TestCase {
            record: Record {
                kind: parse_kind("resolve"),
                client: 1,
                tx: 1,
                amount: None,
            },
            account: LiveAccount {
                transaction_record: vec![(
                    1,
                    StoredTransaction {
                        amount: amt("10"),
                        disputed: true,
                    },
                )],
                account_details: AccountDetails {
                    client: 1,
                    available: 0,
                    held: amt("10"),
                    total: amt("10"),
                    locked: false,
                },
            },
            expected_total: 10.0,
            expected_held: 0.0,
            expected_available: 10.0,
            expected_locked: false,
        },
        // Chargeback
        TestCase {
            record: Record {
                kind: parse_kind("chargeback"),
                client: 1,
                tx: 1,
                amount: None,
            },
            account: LiveAccount {
                transaction_record: vec![(
                    1,
                    StoredTransaction {
                        amount: amt("10"),
                        disputed: true,
                    },
                )],
                account_details: AccountDetails {
                    client: 1,
                    available: 0,
                    held: amt("10"),
                    total: amt("10"),
                    locked: false,
                },
            },
            expected_total: 0.0,
            expected_held: 0.0,
            expected_available: 0.0,
            expected_locked: true,
        },
    ];
    for test_case in test_cases {
        println!("Runing test case for {}", kind_name(&test_case.record.kind));
        let mut test_account = test_case.account;
        let test_transaction = test_case.record;
        test_account.process_transaction(test_transaction);
        assert_eq!(
            to_f32(test_account.account_details.total),
            test_case.expected_total
        );
        assert_eq!(
            to_f32(test_account.account_details.held),
            test_case.expected_held
        );
        assert_eq!(
            to_f32(test_account.account_details.available),
            test_case.expected_available
        );
        assert_eq!(test_account.account_details.locked, test_case.expected_locked);
    }
}

#[test]
fn test_unsupported_action() {
    // Given a test account
    let mut test_account = LiveAccount::new(1);
    // and a record with an unupported transaction
    let test_transaction = Record {
        kind: parse_kind("unsupported_action"),
        client: 1,
        tx: 1,
        amount: Some(amt("10")),
    };
    // When the transaction is processed
    test_account.process_transaction(test_transaction);

    // Then the account is not updated
    assert!(test_account.transaction_record.is_empty());
    assert!(test_account.account_details.available == 0);
    assert!(test_account.account_details.total == 0);
    assert!(test_account.account_details.held == 0);
    assert!(test_account.account_details.locked == false);
}
