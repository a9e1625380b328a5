use zeroed_books_ledger::currency::Currency;
use zeroed_books_ledger::store::CurrencyQueries;
use zeroed_books_ledger::dates::Date;
use zeroed_books_ledger::store::{
    LedgerStore, Transaction, TransactionQuery, UpdateTransactionError,
};
use zeroed_books_ledger::transactions::{
    NewTransaction, NewTransactionData, NewTransactionEntryAmountData, NewTransactionEntryData,
};

fn new_store() -> LedgerStore {
    let mut store = LedgerStore::new();
    assert!(store.add_currency(Currency::new("USD".to_owned(), 2)));
    assert!(store.add_currency(Currency::new("EUR".to_owned(), 2)));
    store
}

fn simple_transaction(user: &str, payee: &str, date: Date, value: i32) -> NewTransaction {
    let data = NewTransactionData {
        date,
        payee: payee.to_owned(),
        notes: None,
        entries: vec![
            NewTransactionEntryData {
                account: "Expenses:Gas".to_owned(),
                amount: Some(NewTransactionEntryAmountData {
                    currency: "USD".to_owned(),
                    value,
                }),
            },
            NewTransactionEntryData {
                account: "Liabilities:Credit".to_owned(),
                amount: None,
            },
        ],
    };
    NewTransaction::from_data(user, data).expect("input should be valid")
}

#[test]
fn persist_assigns_ids_and_timestamps() {
    let mut store = new_store();
    let date = Date::new(2023, 4, 15).unwrap();

    let first = store
        .persist_transaction(simple_transaction("user-1", "Gas", date, 2783), 100)
        .expect("persist should succeed");
    let second = store
        .persist_transaction(simple_transaction("user-1", "Tolls", date, 500), 200)
        .expect("persist should succeed");

    assert_ne!(first.id, second.id);
    assert!(second.created_at > first.created_at);
    assert_eq!(100, first.created_at);
    assert_eq!(first.created_at, first.updated_at);
    assert_eq!("Gas", first.payee);
    assert_eq!("", first.notes);
    assert_eq!(2, first.entries.len());
    assert_eq!("Expenses:Gas", first.entries[0].account());
    assert_eq!("USD", first.entries[0].amount().currency().code());
    assert_eq!(2783, first.entries[0].amount().value());
    assert_eq!(-2783, first.entries[1].amount().value());
}

#[test]
fn persist_rejects_unregistered_currency() {
    let mut store = LedgerStore::new();
    let date = Date::new(2023, 4, 15).unwrap();

    let error = store
        .persist_transaction(simple_transaction("user-1", "Gas", date, 2783), 100)
        .expect_err("no currency is registered");

    match error {
        UpdateTransactionError::DatabaseError(code) => assert_eq!("USD", code),
        other => panic!("expected a database error, got {:?}", other),
    }
}

#[test]
fn persist_with_stale_clock_keeps_creation_times_distinct() {
    let mut store = new_store();
    let date = Date::new(2023, 4, 15).unwrap();

    let first = store
        .persist_transaction(simple_transaction("user-1", "A", date, 1), 100)
        .unwrap();
    // The clock did not advance; the store must still move forward.
    let second = store
        .persist_transaction(simple_transaction("user-1", "B", date, 2), 100)
        .unwrap();

    assert!(second.created_at > first.created_at);
}

#[test]
fn get_transaction_finds_only_the_owner() {
    let mut store = new_store();
    let date = Date::new(2023, 4, 15).unwrap();
    let saved = store
        .persist_transaction(simple_transaction("user-1", "Gas", date, 2783), 100)
        .unwrap();

    let found = store
        .get_transaction("user-1", saved.id)
        .expect("the owner should find the transaction");
    assert_eq!(saved.id, found.id);
    assert_eq!("Gas", found.payee);

    assert!(store.get_transaction("user-2", saved.id).is_none());
    assert!(store.get_transaction("user-1", saved.id + 1).is_none());
}

#[test]
fn update_replaces_fields_and_entries() {
    let mut store = new_store();
    let date = Date::new(2023, 4, 15).unwrap();
    let saved = store
        .persist_transaction(simple_transaction("user-1", "Gas", date, 2783), 100)
        .unwrap();

    let new_date = Date::new(2023, 5, 1).unwrap();
    let updated = store
        .update_transaction(
            saved.id,
            simple_transaction("user-1", "Fuel", new_date, 3000),
            999,
        )
        .expect("update should succeed");

    assert_eq!(saved.id, updated.id);
    assert_eq!(saved.created_at, updated.created_at);
    assert_eq!(999, updated.updated_at);
    assert_eq!("Fuel", updated.payee);
    assert_eq!(new_date, updated.date);
    assert_eq!(3000, updated.entries[0].amount().value());

    let found = store.get_transaction("user-1", saved.id).unwrap();
    assert_eq!("Fuel", found.payee);
}

#[test]
fn update_missing_transaction_reports_not_found() {
    let mut store = new_store();
    let date = Date::new(2023, 4, 15).unwrap();

    let error = store
        .update_transaction(7, simple_transaction("user-1", "Gas", date, 2783), 100)
        .expect_err("nothing to update");

    assert!(matches!(error, UpdateTransactionError::TransactionNotFound));
}

#[test]
fn delete_is_idempotent() {
    let mut store = new_store();
    let date = Date::new(2023, 4, 15).unwrap();
    let saved = store
        .persist_transaction(simple_transaction("user-1", "Gas", date, 2783), 100)
        .unwrap();

    // Deleting an id that never existed succeeds and changes nothing.
    store.delete_transaction("user-1", saved.id + 40);
    assert!(store.get_transaction("user-1", saved.id).is_some());

    // Deleting with the wrong owner changes nothing.
    store.delete_transaction("user-2", saved.id);
    assert!(store.get_transaction("user-1", saved.id).is_some());

    store.delete_transaction("user-1", saved.id);
    assert!(store.get_transaction("user-1", saved.id).is_none());

    // Deleting the same id again still succeeds.
    store.delete_transaction("user-1", saved.id);
    assert!(store.get_transaction("user-1", saved.id).is_none());
}

fn date_of_day(day: u32) -> Date {
    // Spread days over months to exercise the date ordering.
    let month = (day / 28) as u8 + 1;
    let day_of_month = (day % 28) as u8 + 1;
    Date::new(2023, month, day_of_month).unwrap()
}

fn collect_pages(store: &LedgerStore, user: &str) -> Vec<Transaction> {
    let mut all = Vec::new();
    let mut after = None;
    let mut calls = 0;
    loop {
        let page = store.list_transactions(&TransactionQuery {
            user_id: user.to_owned(),
            after,
            account: None,
        });
        calls += 1;
        assert!(calls <= 10, "listing should terminate");
        all.extend(page.items);
        match page.next {
            Some(c) => after = Some(c),
            None => break,
        }
    }
    all
}

#[test]
fn listing_pages_cover_every_transaction_once() {
    let mut store = new_store();
    for i in 0..120u32 {
        store
            .persist_transaction(
                simple_transaction("user-1", "Gas", date_of_day(i), 100 + i as i32),
                i as i64,
            )
            .unwrap();
    }

    // Exactly three pages: 50, 50, and 20 rows.
    let first = store.list_transactions(&TransactionQuery {
        user_id: "user-1".to_owned(),
        after: None,
        account: None,
    });
    assert_eq!(50, first.items.len());
    let second = store.list_transactions(&TransactionQuery {
        user_id: "user-1".to_owned(),
        after: first.next,
        account: None,
    });
    assert_eq!(50, second.items.len());
    let third = store.list_transactions(&TransactionQuery {
        user_id: "user-1".to_owned(),
        after: second.next,
        account: None,
    });
    assert_eq!(20, third.items.len());
    assert!(third.next.is_none());

    let all = collect_pages(&store, "user-1");
    assert_eq!(120, all.len());

    // Every transaction appears exactly once, in canonical order.
    let mut seen = Vec::new();
    for t in &all {
        assert!(!seen.contains(&t.id), "transaction listed twice");
        seen.push(t.id);
    }
    for pair in all.windows(2) {
        let newer = &pair[0];
        let older = &pair[1];
        let newer_key = (
            newer.date.year,
            newer.date.month,
            newer.date.day,
            newer.created_at,
        );
        let older_key = (
            older.date.year,
            older.date.month,
            older.date.day,
            older.created_at,
        );
        assert!(older_key < newer_key, "listing out of order");
    }
}

#[test]
fn listing_is_stable_under_concurrent_inserts() {
    let mut store = new_store();
    for i in 0..80u32 {
        store
            .persist_transaction(
                simple_transaction("user-1", "Gas", date_of_day(i), 100),
                i as i64,
            )
            .unwrap();
    }

    let first = store.list_transactions(&TransactionQuery {
        user_id: "user-1".to_owned(),
        after: None,
        account: None,
    });
    assert_eq!(50, first.items.len());
    let cursor = first.next.expect("more rows remain");

    // A newer transaction arrives after the first page was fetched.
    store
        .persist_transaction(
            simple_transaction("user-1", "Late", date_of_day(119), 100),
            1000,
        )
        .unwrap();

    let second = store.list_transactions(&TransactionQuery {
        user_id: "user-1".to_owned(),
        after: Some(cursor),
        account: None,
    });
    assert_eq!(30, second.items.len());

    // Together the two pages hold the original eighty rows, each exactly
    // once; the late row is absent from the resumed page.
    let mut ids: Vec<u64> = first.items.iter().map(|t| t.id).collect();
    ids.extend(second.items.iter().map(|t| t.id));
    ids.sort_unstable();
    ids.dedup();
    assert_eq!(80, ids.len());
}

#[test]
fn listing_filters_by_user_and_account() {
    let mut store = new_store();
    let date = Date::new(2023, 4, 15).unwrap();
    store
        .persist_transaction(simple_transaction("user-1", "Gas", date, 100), 1)
        .unwrap();
    store
        .persist_transaction(simple_transaction("user-2", "Gas", date, 100), 2)
        .unwrap();

    let mine = store.list_transactions(&TransactionQuery {
        user_id: "user-1".to_owned(),
        after: None,
        account: None,
    });
    assert_eq!(1, mine.items.len());

    // The account filter matches the account itself and its sub-accounts.
    let expenses = store.list_transactions(&TransactionQuery {
        user_id: "user-1".to_owned(),
        after: None,
        account: Some("Expenses".to_owned()),
    });
    assert_eq!(1, expenses.items.len());

    // A prefix that is not a sub-account boundary does not match.
    let partial = store.list_transactions(&TransactionQuery {
        user_id: "user-1".to_owned(),
        after: None,
        account: Some("Expen".to_owned()),
    });
    assert_eq!(0, partial.items.len());

    let other = store.list_transactions(&TransactionQuery {
        user_id: "user-1".to_owned(),
        after: None,
        account: Some("Income".to_owned()),
    });
    assert_eq!(0, other.items.len());
}

#[test]
fn currencies_resolve_by_code() {
    let store = new_store();
    let codes = vec!["USD".to_owned(), "JPY".to_owned(), "EUR".to_owned()];

    let found = store.get_currencies_by_code(&codes);

    let names: Vec<&str> = found.iter().map(|c| c.code()).collect();
    assert!(names.contains(&"USD"));
    assert!(names.contains(&"EUR"));
    assert!(!names.contains(&"JPY"));
}

#[test]
fn currencies_resolve_each_code_once() {
    let store = new_store();
    let codes = vec!["USD".to_owned(), "USD".to_owned(), "USD".to_owned()];

    let found = store.get_currencies_by_code(&codes);

    assert_eq!(1, found.len());
    assert_eq!("USD", found[0].code());
}
