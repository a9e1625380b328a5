use zeroed_books_ledger::currency::Currency;
use zeroed_books_ledger::dates::Date;
use zeroed_books_ledger::responses::{
    CreateTransactionResponse, GetTransactionResponse, UpdateTransactionResponse,
};
use zeroed_books_ledger::store::{LedgerStore, UpdateTransactionError};
use zeroed_books_ledger::transactions::{
    NewTransaction, NewTransactionData, NewTransactionEntryAmountData, NewTransactionEntryData,
};

fn sample_transaction(user: &str) -> NewTransaction {
    let data = NewTransactionData {
        date: Date::new(2023, 4, 15).unwrap(),
        payee: "Gas".to_owned(),
        notes: Some("fill-up".to_owned()),
        entries: vec![
            NewTransactionEntryData {
                account: "Expenses:Gas".to_owned(),
                amount: Some(NewTransactionEntryAmountData {
                    currency: "USD".to_owned(),
                    value: 2783,
                }),
            },
            NewTransactionEntryData {
                account: "Liabilities:Credit".to_owned(),
                amount: None,
            },
        ],
    };
    NewTransaction::from_data(user, data).expect("input should be valid")
}

#[test]
fn get_response_reports_found_and_missing() {
    let mut store = LedgerStore::new();
    store.add_currency(Currency::new("USD".to_owned(), 2));
    let saved = store
        .persist_transaction(sample_transaction("u"), 5)
        .unwrap();

    match GetTransactionResponse::from_lookup(store.get_transaction("u", saved.id)) {
        GetTransactionResponse::Found(t) => {
            assert_eq!(saved.id, t.id);
            assert_eq!("fill-up", t.notes);
        }
        other => panic!("expected the transaction, got {:?}", other),
    }

    match GetTransactionResponse::from_lookup(store.get_transaction("u", saved.id + 1)) {
        GetTransactionResponse::NotFound(e) => {
            assert_eq!("Transaction not found.", e.message);
        }
        other => panic!("expected not-found, got {:?}", other),
    }
}

#[test]
fn create_response_wraps_validation_errors() {
    let bad = NewTransactionData {
        date: Date::new(2023, 4, 15).unwrap(),
        payee: String::new(),
        notes: None,
        entries: vec![],
    };
    let result = NewTransaction::from_data("u", bad);
    let errors = result.expect_err("empty input should fail");

    match CreateTransactionResponse::from_result(Err(errors)) {
        CreateTransactionResponse::BadRequest(es) => assert_eq!(2, es.len()),
        other => panic!("expected a bad request, got {:?}", other),
    }
}

#[test]
fn update_response_distinguishes_not_found() {
    let mut store = LedgerStore::new();
    store.add_currency(Currency::new("USD".to_owned(), 2));

    let result = store.update_transaction(9, sample_transaction("u"), 5);
    match UpdateTransactionResponse::from_result(result) {
        UpdateTransactionResponse::NotFound(e) => {
            assert_eq!("No transaction found with the provided ID.", e.message);
        }
        other => panic!("expected not-found, got {:?}", other),
    }

    let failure = UpdateTransactionResponse::from_result(Err(
        UpdateTransactionError::DatabaseError("USD".to_owned()),
    ));
    assert!(matches!(failure, UpdateTransactionResponse::Failed(_)));
}
