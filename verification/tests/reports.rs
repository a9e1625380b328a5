use zeroed_books_ledger::currency::Currency;
use zeroed_books_ledger::dates::{Date, ReportInterval};
use zeroed_books_ledger::store::LedgerStore;
use zeroed_books_ledger::transactions::{
    NewTransaction, NewTransactionData, NewTransactionEntryAmountData, NewTransactionEntryData,
};

fn new_store() -> LedgerStore {
    let mut store = LedgerStore::new();
    assert!(store.add_currency(Currency::new("USD".to_owned(), 2)));
    assert!(store.add_currency(Currency::new("EUR".to_owned(), 2)));
    store
}

fn spend(user: &str, date: Date, account: &str, currency: &str, value: i32) -> NewTransaction {
    let data = NewTransactionData {
        date,
        payee: "Payee".to_owned(),
        notes: None,
        entries: vec![
            NewTransactionEntryData {
                account: account.to_owned(),
                amount: Some(NewTransactionEntryAmountData {
                    currency: currency.to_owned(),
                    value,
                }),
            },
            NewTransactionEntryData {
                account: "Liabilities:Credit".to_owned(),
                amount: None,
            },
        ],
    };
    NewTransaction::from_data(user, data).expect("input should be valid")
}

#[test]
fn account_balance_sums_per_currency() {
    let mut store = new_store();
    let d = Date::new(2023, 4, 15).unwrap();
    store
        .persist_transaction(spend("u", d, "Expenses:Gas", "USD", 2783), 1)
        .unwrap();
    store
        .persist_transaction(spend("u", d, "Expenses:Food", "USD", 1200), 2)
        .unwrap();
    store
        .persist_transaction(spend("u", d, "Expenses:Food", "EUR", 543), 3)
        .unwrap();
    // Another user's spending stays out of the report.
    store
        .persist_transaction(spend("v", d, "Expenses:Food", "USD", 9999), 4)
        .unwrap();

    // One balance per currency, ascending by code.
    let balances = store.get_account_balance("u", "Expenses");
    assert_eq!(2, balances.len());
    assert_eq!("EUR", balances[0].currency.code());
    assert_eq!(543, balances[0].amount);
    assert_eq!("USD", balances[1].currency.code());
    assert_eq!(3983, balances[1].amount);

    // The exact account also matches, without its siblings.
    let food = store.get_account_balance("u", "Expenses:Food");
    let usd_food = food
        .iter()
        .find(|b| b.currency.code() == "USD")
        .expect("a USD balance");
    assert_eq!(1200, usd_food.amount);

    // The offsetting side nets the whole ledger to zero.
    let credit = store.get_account_balance("u", "Liabilities:Credit");
    let usd_credit = credit
        .iter()
        .find(|b| b.currency.code() == "USD")
        .expect("a USD balance");
    assert_eq!(-3983, usd_credit.amount);
}

#[test]
fn account_balance_of_unknown_account_is_empty() {
    let mut store = new_store();
    let d = Date::new(2023, 4, 15).unwrap();
    store
        .persist_transaction(spend("u", d, "Expenses:Gas", "USD", 100), 1)
        .unwrap();

    assert!(store.get_account_balance("u", "Income").is_empty());
    assert!(store.get_account_balance("nobody", "Expenses").is_empty());
}

#[test]
fn monthly_balance_groups_by_month_within_a_year() {
    let mut store = new_store();
    store
        .persist_transaction(
            spend("u", Date::new(2023, 2, 10).unwrap(), "Expenses:Gas", "USD", 100),
            1,
        )
        .unwrap();
    store
        .persist_transaction(
            spend("u", Date::new(2023, 2, 20).unwrap(), "Expenses:Gas", "USD", 50),
            2,
        )
        .unwrap();
    store
        .persist_transaction(
            spend("u", Date::new(2023, 4, 1).unwrap(), "Expenses:Gas", "USD", 7),
            3,
        )
        .unwrap();
    // Too old: more than a year before the report date.
    store
        .persist_transaction(
            spend("u", Date::new(2021, 6, 1).unwrap(), "Expenses:Gas", "USD", 9),
            4,
        )
        .unwrap();

    let today = Date::new(2023, 5, 20).unwrap();
    let months = store.get_monthly_balance("u", "Expenses", &today);

    assert_eq!(2, months.len());
    assert_eq!(Date::new(2023, 2, 1).unwrap(), months[0].month);
    assert_eq!(1, months[0].balances.len());
    assert_eq!("USD", months[0].balances[0].currency.code());
    assert_eq!(150, months[0].balances[0].amount);
    assert_eq!(Date::new(2023, 4, 1).unwrap(), months[1].month);
    assert_eq!(7, months[1].balances[0].amount);
}

#[test]
fn periodic_cumulative_balance_runs_a_prefix_sum() {
    let mut store = new_store();
    store
        .persist_transaction(
            spend("u", Date::new(2023, 1, 10).unwrap(), "Expenses:Gas", "USD", 100),
            1,
        )
        .unwrap();
    store
        .persist_transaction(
            spend("u", Date::new(2023, 2, 5).unwrap(), "Expenses:Gas", "USD", 40),
            2,
        )
        .unwrap();
    store
        .persist_transaction(
            spend("u", Date::new(2023, 2, 25).unwrap(), "Expenses:Gas", "USD", 10),
            3,
        )
        .unwrap();
    store
        .persist_transaction(
            spend("u", Date::new(2023, 4, 3).unwrap(), "Expenses:Gas", "USD", 5),
            4,
        )
        .unwrap();

    let today = Date::new(2023, 5, 20).unwrap();
    let series = store.periodic_cumulative_balance("u", "Expenses", ReportInterval::Monthly, &today);

    assert_eq!(1, series.len());
    assert_eq!("USD", series[0].currency().code());
    let points = series[0].balances();
    assert_eq!(3, points.len());
    assert_eq!(Date::new(2023, 1, 1).unwrap(), points[0].instant());
    assert_eq!(100, points[0].amount());
    assert_eq!(Date::new(2023, 2, 1).unwrap(), points[1].instant());
    assert_eq!(150, points[1].amount());
    assert_eq!(Date::new(2023, 4, 1).unwrap(), points[2].instant());
    assert_eq!(155, points[2].amount());
}

#[test]
fn periodic_cumulative_balance_includes_history_before_the_window() {
    let mut store = new_store();
    // Old spending builds up the balance the window then starts from.
    store
        .persist_transaction(
            spend("u", Date::new(2020, 1, 10).unwrap(), "Expenses:Gas", "USD", 1000),
            1,
        )
        .unwrap();
    store
        .persist_transaction(
            spend("u", Date::new(2023, 3, 5).unwrap(), "Expenses:Gas", "USD", 25),
            2,
        )
        .unwrap();

    let today = Date::new(2023, 5, 20).unwrap();
    let series = store.periodic_cumulative_balance("u", "Expenses", ReportInterval::Monthly, &today);

    assert_eq!(1, series.len());
    let points = series[0].balances();
    // The old month itself is outside the window, but its amount is part of
    // the running total.
    assert_eq!(1, points.len());
    assert_eq!(Date::new(2023, 3, 1).unwrap(), points[0].instant());
    assert_eq!(1025, points[0].amount());
}

#[test]
fn periodic_cumulative_balance_weekly_truncates_to_monday() {
    let mut store = new_store();
    // 2023-04-15 is a Saturday; its week starts Monday 2023-04-10.
    store
        .persist_transaction(
            spend("u", Date::new(2023, 4, 15).unwrap(), "Expenses:Gas", "USD", 60),
            1,
        )
        .unwrap();

    let today = Date::new(2023, 5, 20).unwrap();
    let series = store.periodic_cumulative_balance("u", "Expenses", ReportInterval::Weekly, &today);

    assert_eq!(1, series.len());
    let points = series[0].balances();
    assert_eq!(1, points.len());
    assert_eq!(Date::new(2023, 4, 10).unwrap(), points[0].instant());
    assert_eq!(60, points[0].amount());
}

#[test]
fn active_accounts_deduplicate_within_the_window() {
    let mut store = new_store();
    let d = Date::new(2023, 4, 15).unwrap();
    // Created before the cutoff: its accounts do not count as active.
    store
        .persist_transaction(spend("u", d, "Expenses:Rent", "USD", 7), 5)
        .unwrap();
    store
        .persist_transaction(spend("u", d, "Expenses:Gas", "USD", 100), 50)
        .unwrap();
    store
        .persist_transaction(spend("u", d, "Expenses:Gas", "USD", 10), 60)
        .unwrap();
    store
        .persist_transaction(spend("u", d, "Expenses:Food", "USD", 5), 70)
        .unwrap();
    // Another user's activity stays out.
    store
        .persist_transaction(spend("v", d, "Expenses:Travel", "USD", 7), 80)
        .unwrap();

    let active = store.list_active_accounts("u", 40);

    // Names come in order of first appearance in the listing, newest row
    // first, each name once.
    assert_eq!(
        vec![
            "Expenses:Food".to_owned(),
            "Liabilities:Credit".to_owned(),
            "Expenses:Gas".to_owned(),
        ],
        active
    );
}
