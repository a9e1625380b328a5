use zeroed_books_ledger::dates::Date;
use zeroed_books_ledger::transactions::{
    NewTransaction, NewTransactionData, NewTransactionEntryAmountData, NewTransactionEntryData,
    NewTransactionError,
};

fn date() -> Date {
    Date::new(2023, 4, 15).unwrap()
}

fn entry(account: &str, amount: Option<(&str, i32)>) -> NewTransactionEntryData {
    NewTransactionEntryData {
        account: account.to_owned(),
        amount: amount.map(|(currency, value)| NewTransactionEntryAmountData {
            currency: currency.to_owned(),
            value,
        }),
    }
}

fn data(payee: &str, entries: Vec<NewTransactionEntryData>) -> NewTransactionData {
    NewTransactionData {
        date: date(),
        payee: payee.to_owned(),
        notes: None,
        entries,
    }
}

#[test]
fn new_auto_balanced_transaction_single_currency() {
    let input = data(
        "Gas",
        vec![
            entry("Expenses:Gas", Some(("USD", 2783))),
            entry("Liabilities:Credit", None),
        ],
    );

    let transaction = NewTransaction::from_data("user-id", input).expect("should be valid");

    assert_eq!("user-id", transaction.user_id());
    assert_eq!("Gas", transaction.payee());
    assert_eq!(date(), transaction.date());
    assert!(transaction.notes().is_none());

    let entries = transaction.entries();
    assert_eq!(2, entries.len());
    assert_eq!("Expenses:Gas", entries[0].account());
    assert_eq!("USD", entries[0].amount().currency());
    assert_eq!(2783, entries[0].amount().value());
    assert_eq!("Liabilities:Credit", entries[1].account());
    assert_eq!("USD", entries[1].amount().currency());
    assert_eq!(-2783, entries[1].amount().value());
}

#[test]
fn new_auto_balanced_transaction_multi_currency() {
    let input = data(
        "Gas",
        vec![
            entry("Expenses:Gas", Some(("USD", 2783))),
            entry("Liabilities:Credit", None),
            entry("Expenses:Food", Some(("EUR", 543))),
            entry("Liabilities:Credit", Some(("EUR", -543))),
        ],
    );

    let transaction = NewTransaction::from_data("user-id", input).expect("should be valid");

    let entries = transaction.entries();
    assert_eq!(4, entries.len());
    assert_eq!("USD", entries[0].amount().currency());
    assert_eq!(2783, entries[0].amount().value());
    assert_eq!("USD", entries[1].amount().currency());
    assert_eq!(-2783, entries[1].amount().value());
    assert_eq!("EUR", entries[2].amount().currency());
    assert_eq!(543, entries[2].amount().value());
    assert_eq!("EUR", entries[3].amount().currency());
    assert_eq!(-543, entries[3].amount().value());
}

#[test]
fn new_auto_balanced_transaction_single_currency_zero_amount() {
    let input = data(
        "Gas",
        vec![
            entry("Expenses:Gas", Some(("USD", 0))),
            entry("Liabilities:Credit", None),
        ],
    );

    let errors = NewTransaction::from_data("user-id", input)
        .expect_err("should error for missing amount and no outstanding balance");

    assert_eq!(1, errors.len());
    assert!(
        matches!(errors[0], NewTransactionError::RequiredAmount(1)),
        "expected a required-amount error on the entry at index 1, got {:?}",
        errors
    );
}

#[test]
fn transaction_validate_empty_required_fields() {
    let input = data("", vec![]);

    let errors =
        NewTransaction::from_data("user-id", input).expect_err("should error for empty fields");

    assert_eq!(2, errors.len());
    assert!(matches!(errors[0], NewTransactionError::NoEntries));
    assert!(matches!(errors[1], NewTransactionError::EmptyPayee));
}

#[test]
fn transaction_validate_valid_data() {
    let input = data(
        "Groceries",
        vec![
            entry("Expenses:Food", Some(("USD", 100))),
            entry("Assets:Checking", Some(("USD", -100))),
        ],
    );

    NewTransaction::from_data("user-id", input).expect("should be valid data");
}

#[test]
fn transaction_validate_unbalanced() {
    let input = data(
        "Unbalanced",
        vec![
            entry("Expenses:Food", Some(("USD", 100))),
            // Unbalanced because both entries are positive. Leaves $2.00
            // unaccounted for.
            entry("Assets:Checking", Some(("USD", 100))),
        ],
    );

    let errors = NewTransaction::from_data("user-id", input)
        .expect_err("should error for unbalanced entries");

    assert_eq!(1, errors.len());
    match &errors[0] {
        NewTransactionError::Unbalanced(sums) => {
            assert_eq!(1, sums.len());
            assert_eq!("USD", sums[0].currency);
            assert_eq!(200, sums[0].sum);
        }
        other => panic!("expected an unbalanced error, got {:?}", other),
    }
}

#[test]
fn transaction_validate_balanced_multiple_currencies() {
    let input = data(
        "Groceries",
        vec![
            entry("Expenses:Food", Some(("USD", 100))),
            entry("Assets:Checking", Some(("USD", -100))),
            entry("Expenses:Food", Some(("EUR", 200))),
            entry("Assets:Checking", Some(("EUR", -200))),
        ],
    );

    NewTransaction::from_data("user-id", input).expect("should be valid data");
}

#[test]
fn transaction_validate_unbalanced_multiple_currencies() {
    let input = data(
        "Unbalanced",
        vec![
            entry("Expenses:Food", Some(("USD", 100))),
            entry("Assets:Checking", Some(("USD", 100))),
            entry("Expenses:Food", Some(("EUR", 200))),
            entry("Assets:Checking", Some(("EUR", 200))),
        ],
    );

    let errors = NewTransaction::from_data("user-id", input)
        .expect_err("should error for unbalanced entries");

    assert_eq!(1, errors.len());
    match &errors[0] {
        NewTransactionError::Unbalanced(sums) => {
            assert_eq!(2, sums.len());
            assert_eq!("USD", sums[0].currency);
            assert_eq!(200, sums[0].sum);
            assert_eq!("EUR", sums[1].currency);
            assert_eq!(400, sums[1].sum);
        }
        other => panic!("expected an unbalanced error, got {:?}", other),
    }
}

#[test]
fn transaction_validate_missing_account() {
    let input = data(
        "Groceries",
        vec![
            entry("Expenses:Food", Some(("USD", 100))),
            entry("", Some(("USD", -100))),
        ],
    );

    let errors = NewTransaction::from_data("user-id", input).expect_err("missing account");

    assert_eq!(1, errors.len());
    assert!(
        matches!(errors[0], NewTransactionError::EmptyAccount(1)),
        "expected an empty-account error on the entry at index 1, got {:?}",
        errors
    );
}

#[test]
fn two_entries_missing_amounts_is_rejected() {
    let input = data(
        "Gas",
        vec![
            entry("Expenses:Gas", Some(("USD", 2783))),
            entry("Liabilities:Credit", None),
            entry("Assets:Checking", None),
        ],
    );

    let errors = NewTransaction::from_data("user-id", input)
        .expect_err("two entries without amounts cannot be balanced");

    assert_eq!(1, errors.len());
    assert!(
        matches!(errors[0], NewTransactionError::DuplicateMissingAmount(2)),
        "expected the second missing amount to be reported, got {:?}",
        errors
    );
}

#[test]
fn balancing_entry_with_two_unbalanced_currencies_is_rejected() {
    let input = data(
        "Mixed",
        vec![
            entry("Expenses:Gas", Some(("USD", 100))),
            entry("Expenses:Food", Some(("EUR", 200))),
            entry("Liabilities:Credit", None),
        ],
    );

    let errors = NewTransaction::from_data("user-id", input)
        .expect_err("two unbalanced currencies cannot be auto-balanced");

    assert_eq!(1, errors.len());
    match &errors[0] {
        NewTransactionError::Unbalanced(sums) => {
            assert_eq!(2, sums.len());
            assert_eq!("USD", sums[0].currency);
            assert_eq!(100, sums[0].sum);
            assert_eq!("EUR", sums[1].currency);
            assert_eq!(200, sums[1].sum);
        }
        other => panic!("expected an unbalanced error, got {:?}", other),
    }
}

#[test]
fn built_transactions_balance_per_currency() {
    let input = data(
        "Mixed",
        vec![
            entry("Expenses:Gas", Some(("USD", 750))),
            entry("Expenses:Tolls", Some(("USD", 250))),
            entry("Liabilities:Credit", None),
            entry("Expenses:Food", Some(("EUR", 543))),
            entry("Assets:Cash", Some(("EUR", -543))),
        ],
    );

    let transaction = NewTransaction::from_data("user-id", input).expect("should be valid");

    let mut usd = 0i64;
    let mut eur = 0i64;
    for e in transaction.entries() {
        match e.amount().currency() {
            "USD" => usd += i64::from(e.amount().value()),
            "EUR" => eur += i64::from(e.amount().value()),
            other => panic!("unexpected currency {}", other),
        }
    }
    assert_eq!(0, usd);
    assert_eq!(0, eur);
}

#[test]
fn sums_within_range_detects_overflow() {
    let ok_entries = vec![
        entry("A", Some(("USD", i32::MAX))),
        entry("B", Some(("USD", -1))),
    ];
    assert!(zeroed_books_ledger::transactions::sums_within_range(
        &ok_entries
    ));

    let over_entries = vec![
        entry("A", Some(("USD", i32::MAX))),
        entry("B", Some(("USD", 1))),
    ];
    assert!(!zeroed_books_ledger::transactions::sums_within_range(
        &over_entries
    ));
}
