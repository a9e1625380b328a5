//! The in-memory ledger store.
//!
//! Transactions are kept sorted by the canonical listing order — date
//! descending, then creation time descending — so that keyset pagination can
//! walk them without drift. Writes assign ids and strictly increasing
//! creation times; each write either fully succeeds or leaves the store
//! untouched.

use vstd::prelude::*;

use crate::currency::{Currency, CurrencyAmount};
use crate::dates::{date_lt, Date};
use crate::text::str_eq;
use crate::transactions::NewTransaction;

verus! {

/// The most entries the store accepts over all transactions together; the
/// bound keeps every report sum inside a 64-bit accumulator.
pub const ENTRY_CAP: usize = 0x4000_0000;

/// The number of transactions returned per page when listing transactions.
pub const TRANSACTION_PAGE_SIZE: usize = 50;

/// An entry of a persisted transaction.
#[derive(Debug)]
pub struct TransactionEntry {
    account: String,
    amount: CurrencyAmount,
}

impl TransactionEntry {
    pub closed spec fn spec_account(&self) -> Seq<char> {
        self.account@
    }

    pub closed spec fn spec_amount(&self) -> CurrencyAmount {
        self.amount
    }

    pub fn new(account: String, amount: CurrencyAmount) -> (r: Self)
        ensures
            r.spec_account() == account@,
            r.spec_amount() == amount,
    {
        Self { account, amount }
    }

    pub fn account(&self) -> (r: &str)
        ensures
            r@ == self.spec_account(),
    {
        self.account.as_str()
    }

    pub fn amount(&self) -> (r: &CurrencyAmount)
        ensures
            *r == self.spec_amount(),
    {
        &self.amount
    }
}

impl Clone for TransactionEntry {
    fn clone(&self) -> (r: Self)
        ensures
            r == *self,
    {
        TransactionEntry { account: self.account.clone(), amount: self.amount.clone() }
    }
}

/// A persisted transaction: balanced entries against named accounts, with
/// the identity and timestamps the store assigned.
#[derive(Debug)]
pub struct Transaction {
    pub id: u64,
    pub user_id: String,
    pub date: Date,
    pub payee: String,
    pub notes: String,
    pub entries: Vec<TransactionEntry>,
    pub created_at: i64,
    pub updated_at: i64,
}

/// Rows equal in every observable field. Cloning a transaction yields a row
/// equal in this sense.
pub open spec fn tx_eq(a: Transaction, b: Transaction) -> bool {
    &&& a.id == b.id
    &&& a.user_id == b.user_id
    &&& a.date == b.date
    &&& a.payee == b.payee
    &&& a.notes == b.notes
    &&& a.entries@ == b.entries@
    &&& a.created_at == b.created_at
    &&& a.updated_at == b.updated_at
}

impl Clone for Transaction {
    fn clone(&self) -> (r: Self)
        ensures
            tx_eq(r, *self),
    {
        let mut entries: Vec<TransactionEntry> = Vec::new();
        let mut i: usize = 0;
        while i < self.entries.len()
            invariant
                i <= self.entries@.len(),
                entries@ =~= self.entries@.take(i as int),
            decreases self.entries@.len() - i,
        {
            entries.push(self.entries[i].clone());
            proof {
                assert(self.entries@.take(i + 1) =~= self.entries@.take(i as int).push(
                    self.entries@[i as int],
                ));
            }
            i = i + 1;
        }
        proof {
            assert(self.entries@.take(self.entries@.len() as int) =~= self.entries@);
        }
        Transaction {
            id: self.id,
            user_id: self.user_id.clone(),
            date: self.date,
            payee: self.payee.clone(),
            notes: self.notes.clone(),
            entries,
            created_at: self.created_at,
            updated_at: self.updated_at,
        }
    }
}

/// A cursor into a collection of transactions. Since transactions are always
/// ordered by descending date and creation time, those fields mark arbitrary
/// positions in the collection.
#[derive(Clone, Copy, Debug, PartialEq, Eq, Structural)]
pub struct TransactionCursor {
    pub after_date: Date,
    pub after_created_at: i64,
}

/// Query parameters for listing transactions.
#[derive(Debug)]
pub struct TransactionQuery {
    /// The owner of the transactions to search for.
    pub user_id: String,
    /// Only list transactions strictly after this position in the canonical
    /// order.
    pub after: Option<TransactionCursor>,
    /// Only list transactions with at least one entry on this account or one
    /// of its sub-accounts.
    pub account: Option<String>,
}

/// One page of transactions, and where the next page starts if there is one.
#[derive(Debug)]
pub struct TransactionCollection {
    pub next: Option<TransactionCursor>,
    pub items: Vec<Transaction>,
}

/// Strict canonical order on rows: `a` comes later in a listing than `b`
/// exactly when `a` has an earlier date, or the same date and an earlier
/// creation time.
pub open spec fn row_lt(a: Transaction, b: Transaction) -> bool {
    date_lt(a.date, b.date) || (a.date == b.date && a.created_at < b.created_at)
}

/// Rows sorted by the canonical listing order: date descending, then
/// creation time descending.
pub open spec fn sorted_desc(s: Seq<Transaction>) -> bool {
    forall|i: int, j: int| 0 <= i < j < s.len() ==> row_lt(#[trigger] s[j], #[trigger] s[i])
}

/// Whether an entry account lies in the subtree of the account filter: the
/// name itself or any name below it, colon-delimited.
pub open spec fn account_matches_spec(account: Seq<char>, filter: Seq<char>) -> bool {
    account == filter || (account.len() > filter.len() && account.take(filter.len() as int)
        == filter && account[filter.len() as int] == ':')
}

/// Whether an entry account equals the filter or lies below it.
pub fn account_matches(account: &str, filter: &str) -> (r: bool)
    ensures
        r == account_matches_spec(account@, filter@),
{
    let n = account.unicode_len();
    let m = filter.unicode_len();
    if n == m {
        return str_eq(account, filter);
    }
    if n < m {
        assert(account@ != filter@);
        return false;
    }
    assert(account@ != filter@);
    let mut i: usize = 0;
    while i < m
        invariant
            i <= m,
            m < n,
            n == account@.len(),
            m == filter@.len(),
            forall|j: int| 0 <= j < i ==> account@[j] == filter@[j],
        decreases m - i,
    {
        if account.get_char(i) != filter.get_char(i) {
            assert(account@.take(m as int)[i as int] != filter@[i as int]);
            return false;
        }
        i = i + 1;
    }
    proof {
        assert(account@.take(m as int) =~= filter@);
    }
    account.get_char(m) == ':'
}

/// Whether the transaction has an entry on the account or below it.
pub open spec fn tx_touches_account(t: Transaction, filter: Seq<char>) -> bool {
    exists|i: int|
        0 <= i < t.entries@.len() && account_matches_spec(
            #[trigger] t.entries@[i].spec_account(),
            filter,
        )
}

/// Whether the row lies strictly after the cursor in the canonical order.
pub open spec fn before_cursor(t: Transaction, c: TransactionCursor) -> bool {
    date_lt(t.date, c.after_date) || (t.date == c.after_date && t.created_at < c.after_created_at)
}

/// Whether a row answers the query: owned by the user, touching the account
/// filter if one is given, and lying after the cursor if one is given.
pub open spec fn matches_query(t: Transaction, q: TransactionQuery) -> bool {
    &&& t.user_id@ == q.user_id@
    &&& match q.account {
        None => true,
        Some(a) => tx_touches_account(t, a@),
    }
    &&& match q.after {
        None => true,
        Some(c) => before_cursor(t, c),
    }
}

/// The rows answering the query, in the order they are stored.
pub open spec fn filtered(s: Seq<Transaction>, q: TransactionQuery) -> Seq<Transaction>
    decreases s.len(),
{
    if s.len() == 0 {
        Seq::empty()
    } else {
        filtered(s.drop_last(), q) + if matches_query(s.last(), q) {
            seq![s.last()]
        } else {
            Seq::empty()
        }
    }
}

/// How many entries the rows hold together.
pub open spec fn total_entries(s: Seq<Transaction>) -> int
    decreases s.len(),
{
    if s.len() == 0 {
        0
    } else {
        total_entries(s.drop_last()) + s.last().entries@.len()
    }
}

/// Why a write against the store failed.
#[derive(Debug)]
pub enum UpdateTransactionError {
    /// The target transaction does not exist or belongs to another user.
    TransactionNotFound,
    /// The store rejected the write: an entry names a currency that is not
    /// registered. The payload is that code.
    DatabaseError(String),
    /// The store cannot accept further data: its identifier, clock or entry
    /// capacity is exhausted.
    Unknown(String),
}

/// The in-memory ledger store: registered currencies and the persisted
/// transactions of all users, in canonical listing order.
#[derive(Debug)]
pub struct LedgerStore {
    currencies: Vec<Currency>,
    transactions: Vec<Transaction>,
    next_id: u64,
    clock_floor: i64,
    entry_total: usize,
}

impl LedgerStore {
    pub closed spec fn spec_currencies(&self) -> Seq<Currency> {
        self.currencies@
    }

    pub closed spec fn spec_transactions(&self) -> Seq<Transaction> {
        self.transactions@
    }

    pub closed spec fn spec_next_id(&self) -> u64 {
        self.next_id
    }

    pub closed spec fn spec_clock_floor(&self) -> i64 {
        self.clock_floor
    }

    pub closed spec fn spec_entry_total(&self) -> usize {
        self.entry_total
    }

    /// The store's invariant: currencies have distinct codes; rows are
    /// sorted in canonical order with distinct ids and creation times, all
    /// below the id and clock floors; dates are well-formed; and the entry
    /// count stays within capacity.
    pub open spec fn wf(&self) -> bool {
        &&& forall|i: int, j: int|
            0 <= i < j < self.spec_currencies().len() ==> #[trigger] self.spec_currencies()[
                i
            ].spec_code() != #[trigger] self.spec_currencies()[j].spec_code()
        &&& sorted_desc(self.spec_transactions())
        &&& forall|i: int, j: int|
            0 <= i < j < self.spec_transactions().len() ==> #[trigger] self.spec_transactions()[
                i
            ].id != #[trigger] self.spec_transactions()[j].id
        &&& forall|i: int, j: int|
            0 <= i < j < self.spec_transactions().len() ==> self.spec_transactions()[i].created_at
                != self.spec_transactions()[j].created_at
        &&& forall|i: int|
            0 <= i < self.spec_transactions().len() ==> #[trigger] self.spec_transactions()[i].id
                < self.spec_next_id()
        &&& forall|i: int|
            0 <= i < self.spec_transactions().len() ==> #[trigger] self.spec_transactions()[
                i
            ].created_at <= self.spec_clock_floor()
        &&& forall|i: int|
            0 <= i < self.spec_transactions().len() ==> (#[trigger] self.spec_transactions()[
                i
            ].date).wf()
        &&& total_entries(self.spec_transactions()) == self.spec_entry_total()
        &&& self.spec_entry_total() <= ENTRY_CAP
    }

    /// The stored rows, for read-only walks.
    pub(crate) fn transactions_ref(&self) -> (r: &Vec<Transaction>)
        ensures
            r@ == self.spec_transactions(),
    {
        &self.transactions
    }

    /// An empty store.
    pub fn new() -> (r: Self)
        ensures
            r.wf(),
            r.spec_currencies().len() == 0,
            r.spec_transactions().len() == 0,
    {
        LedgerStore {
            currencies: Vec::new(),
            transactions: Vec::new(),
            next_id: 0,
            clock_floor: 0,
            entry_total: 0,
        }
    }

    /// Register a currency. Nothing changes when the code is already taken;
    /// the result tells whether the currency was added.
    pub fn add_currency(&mut self, currency: Currency) -> (r: bool)
        requires
            old(self).wf(),
        ensures
            final (self).wf(),
            final (self).spec_transactions() == old(self).spec_transactions(),
            r == !(exists|i: int|
                0 <= i < old(self).spec_currencies().len() && (#[trigger] old(
                    self,
                ).spec_currencies()[i]).spec_code() == currency.spec_code()),
            r ==> final (self).spec_currencies() == old(self).spec_currencies().push(currency),
            !r ==> final (self).spec_currencies() == old(self).spec_currencies(),
    {
        let mut i: usize = 0;
        while i < self.currencies.len()
            invariant
                *self == *old(self),
                old(self).wf(),
                i <= self.currencies@.len(),
                forall|j: int|
                    0 <= j < i ==> (#[trigger] self.currencies@[j]).spec_code()
                        != currency.spec_code(),
            decreases self.currencies@.len() - i,
        {
            if str_eq(self.currencies[i].code(), currency.code()) {
                proof {
                    assert((old(self).spec_currencies()[i as int]).spec_code()
                        == currency.spec_code());
                }
                return false;
            }
            i = i + 1;
        }
        let ghost before = self.currencies@;
        self.currencies.push(currency);
        proof {
            assert(forall|j: int|
                0 <= j < before.len() ==> #[trigger] self.currencies@[j] == before[j]);
            assert(self.currencies@[before.len() as int] == currency);
        }
        true
    }

    /// Look up a registered currency by its code.
    fn find_currency(&self, code: &str) -> (r: Option<Currency>)
        ensures
            match r {
                Some(c) => self.spec_currencies().contains(c) && c.spec_code() == code@,
                None => forall|i: int|
                    0 <= i < self.spec_currencies().len() ==> (#[trigger] self.spec_currencies()[
                        i
                    ]).spec_code() != code@,
            },
    {
        let mut i: usize = 0;
        while i < self.currencies.len()
            invariant
                i <= self.currencies@.len(),
                forall|j: int|
                    0 <= j < i ==> (#[trigger] self.currencies@[j]).spec_code() != code@,
            decreases self.currencies@.len() - i,
        {
            if str_eq(self.currencies[i].code(), code) {
                let c = self.currencies[i].clone();
                assert(self.currencies@.contains(self.currencies@[i as int]));
                return Some(c);
            }
            i = i + 1;
        }
        None
    }
}


proof fn lemma_total_entries_insert(s: Seq<Transaction>, i: int, t: Transaction)
    requires
        0 <= i <= s.len(),
    ensures
        total_entries(s.insert(i, t)) == total_entries(s) + t.entries@.len(),
    decreases s.len(),
{
    let u = s.insert(i, t);
    if i == s.len() {
        assert(u.drop_last() =~= s);
        assert(u.last() == t);
    } else {
        assert(u.drop_last() =~= s.drop_last().insert(i, t));
        assert(u.last() == s.last());
        lemma_total_entries_insert(s.drop_last(), i, t);
    }
}

proof fn lemma_total_entries_remove(s: Seq<Transaction>, i: int)
    requires
        0 <= i < s.len(),
    ensures
        total_entries(s.remove(i)) == total_entries(s) - s[i].entries@.len(),
    decreases s.len(),
{
    let u = s.remove(i);
    if i == s.len() - 1 {
        assert(u =~= s.drop_last());
    } else {
        assert(u.drop_last() =~= s.drop_last().remove(i));
        assert(u.last() == s.last());
        lemma_total_entries_remove(s.drop_last(), i);
    }
}

proof fn lemma_total_entries_nonneg(s: Seq<Transaction>)
    ensures
        total_entries(s) >= 0,
    decreases s.len(),
{
    if s.len() > 0 {
        lemma_total_entries_nonneg(s.drop_last());
    }
}

/// Insert a row at its place in the canonical order. The row's creation time
/// must differ from every present row's, so the order stays strict.
fn insert_row(rows: &mut Vec<Transaction>, t: Transaction) -> (pos: usize)
    requires
        sorted_desc(old(rows)@),
        forall|k: int|
            0 <= k < old(rows)@.len() ==> (#[trigger] old(rows)@[k]).created_at != t.created_at,
    ensures
        pos <= old(rows)@.len(),
        final (rows)@ == old(rows)@.insert(pos as int, t),
        sorted_desc(final (rows)@),
{
    let ghost orig = rows@;
    let mut i: usize = 0;
    let mut pos_at: usize = rows.len();
    let mut found = false;
    while i < rows.len()
        invariant
            rows@ == orig,
            i <= orig.len(),
            found ==> pos_at < orig.len() && i == orig.len() && row_lt(orig[pos_at as int], t)
                && (forall|k: int| 0 <= k < pos_at ==> !row_lt(#[trigger] orig[k], t)),
            !found ==> pos_at == orig.len() && (forall|k: int|
                0 <= k < i ==> !row_lt(#[trigger] orig[k], t)),
        decreases orig.len() - i,
    {
        let r = &rows[i];
        if r.date.before(&t.date) || (r.date == t.date && r.created_at < t.created_at) {
            pos_at = i;
            found = true;
            i = rows.len();
        } else {
            i = i + 1;
        }
    }
    let i = pos_at;
    let ghost pos = i as int;
    assert(pos < orig.len() ==> row_lt(orig[pos], t));
    assert(forall|k: int| 0 <= k < pos ==> !row_lt(#[trigger] orig[k], t));
    rows.insert(i, t);
    proof {
        let newv = rows@;
        assert(newv == orig.insert(pos, t));
        assert(forall|k: int| 0 <= k < pos ==> #[trigger] newv[k] == orig[k]);
        assert(newv[pos] == t);
        assert(forall|k: int| pos < k < newv.len() ==> #[trigger] newv[k] == orig[k - 1]);
        assert(forall|k: int| 0 <= k < pos ==> row_lt(t, #[trigger] orig[k])) by {
            assert(forall|k: int|
                0 <= k < pos ==> (#[trigger] orig[k]).created_at != t.created_at);
        }
        assert forall|a: int, b: int| 0 <= a < b < newv.len() implies row_lt(
            #[trigger] newv[b],
            #[trigger] newv[a],
        ) by {
            if b < pos {
            } else if a < pos && b == pos {
                assert(row_lt(t, orig[a]));
            } else if a < pos && b > pos {
                assert(row_lt(orig[b - 1], orig[a]));
            } else if a == pos {
                assert(b > pos);
                if b - 1 == pos {
                    assert(row_lt(orig[pos], t));
                } else {
                    assert(row_lt(orig[b - 1], orig[pos]));
                    assert(row_lt(orig[pos], t));
                }
            } else {
                assert(row_lt(orig[b - 1], orig[a - 1]));
            }
        }
    }
    i
}

impl LedgerStore {
    /// Whether the store can still assign an id and a creation time, and has
    /// room for this many more entries.
    pub open spec fn has_capacity(&self, more_entries: int) -> bool {
        &&& self.spec_next_id() < u64::MAX
        &&& self.spec_clock_floor() < i64::MAX
        &&& self.spec_entry_total() + more_entries <= ENTRY_CAP
    }

    /// Whether some registered currency carries this code.
    pub open spec fn code_registered(&self, code: Seq<char>) -> bool {
        exists|j: int|
            0 <= j < self.spec_currencies().len() && (#[trigger] self.spec_currencies()[
                j
            ]).spec_code() == code
    }

    /// Whether every entry of the new transaction names a registered
    /// currency.
    pub open spec fn all_registered(&self, t: NewTransaction) -> bool {
        forall|i: int|
            0 <= i < t.spec_entries().len() ==> self.code_registered(
                (#[trigger] t.spec_entries()[i]).spec_amount().spec_currency(),
            )
    }

    /// The stored entry rows carry the new transaction's accounts, currency
    /// codes and values, in order.
    pub open spec fn entries_stored(
        t: NewTransaction,
        rows: Seq<TransactionEntry>,
    ) -> bool {
        &&& rows.len() == t.spec_entries().len()
        &&& forall|i: int| #![trigger rows[i]]
            0 <= i < rows.len() ==> {
                &&& rows[i].spec_account() == t.spec_entries()[i].spec_account()
                &&& rows[i].spec_amount().spec_currency().spec_code() == t.spec_entries()[
                    i
                ].spec_amount().spec_currency()
                &&& rows[i].spec_amount().spec_value() == t.spec_entries()[
                    i
                ].spec_amount().spec_value()
            }
    }

    /// Build the stored entry rows, resolving each currency code against the
    /// registered currencies.
    fn build_rows(&self, transaction: &NewTransaction) -> (r: Result<
        Vec<TransactionEntry>,
        UpdateTransactionError,
    >)
        ensures
            self.all_registered(*transaction) ==> (r matches Ok(rows) && Self::entries_stored(
                *transaction,
                rows@,
            )),
            !self.all_registered(*transaction) ==> (r matches Err(e) && e
                matches UpdateTransactionError::DatabaseError(code) && (exists|i: int|
                0 <= i < transaction.spec_entries().len() && (#[trigger] transaction.spec_entries()[
                    i
                ]).spec_amount().spec_currency() == code@) && (forall|j: int|
                0 <= j < self.spec_currencies().len() ==> (#[trigger] self.spec_currencies()[
                    j
                ]).spec_code() != code@)),
    {
        let entries = transaction.entries();
        let mut rows: Vec<TransactionEntry> = Vec::new();
        let mut i: usize = 0;
        while i < entries.len()
            invariant
                i <= entries@.len(),
                entries@ == transaction.spec_entries(),
                rows@.len() == i,
                forall|k: int| #![trigger rows@[k]]
                    0 <= k < i ==> {
                        &&& rows@[k].spec_account() == entries@[k].spec_account()
                        &&& rows@[k].spec_amount().spec_currency().spec_code() == entries@[
                            k
                        ].spec_amount().spec_currency()
                        &&& rows@[k].spec_amount().spec_value() == entries@[
                            k
                        ].spec_amount().spec_value()
                        &&& self.spec_currencies().contains(rows@[k].spec_amount().spec_currency())
                    },
            decreases entries@.len() - i,
        {
            let entry = &entries[i];
            match self.find_currency(entry.amount().currency()) {
                Some(c) => {
                    let amount = CurrencyAmount::from_minor(c, entry.amount().value());
                    rows.push(TransactionEntry::new(entry.account().to_owned(), amount));
                },
                None => {
                    proof {
                        assert(entries@[i as int] == transaction.spec_entries()[i as int]);
                        assert(!self.code_registered(
                            transaction.spec_entries()[i as int].spec_amount().spec_currency(),
                        ));
                        assert(!self.all_registered(*transaction));
                    }
                    return Err(
                        UpdateTransactionError::DatabaseError(entry.amount().currency().to_owned()),
                    );
                },
            }
            i = i + 1;
        }
        proof {
            assert forall|k: int|
                0 <= k < transaction.spec_entries().len() implies self.code_registered(
                (#[trigger] transaction.spec_entries()[k]).spec_amount().spec_currency(),
            ) by {
                assert(entries@[k] == transaction.spec_entries()[k]);
                let c = rows@[k].spec_amount().spec_currency();
                assert(self.spec_currencies().contains(c));
                let j = choose|j: int|
                    0 <= j < self.spec_currencies().len() && self.spec_currencies()[j] == c;
                assert((self.spec_currencies()[j]).spec_code() == transaction.spec_entries()[
                    k
                ].spec_amount().spec_currency());
            }
            assert(self.all_registered(*transaction));
        }
        Ok(rows)
    }

    /// Persist a new transaction: assign it the next id and a creation time
    /// strictly later than every present row's, and file it in canonical
    /// order. The stored row is returned. The write fails, leaving the store
    /// untouched, when an entry names an unregistered currency or the store
    /// is out of capacity.
    pub fn persist_transaction(&mut self, transaction: NewTransaction, now: i64) -> (r: Result<
        Transaction,
        UpdateTransactionError,
    >)
        requires
            old(self).wf(),
            transaction.spec_date().wf(),
        ensures
            final (self).wf(),
            final (self).spec_currencies() == old(self).spec_currencies(),
            !old(self).has_capacity(transaction.spec_entries().len() as int) ==> (r matches Err(
                e,
            ) && e matches UpdateTransactionError::Unknown(_) && *final (self) == *old(self)),
            old(self).has_capacity(transaction.spec_entries().len() as int) && !old(
                self,
            ).all_registered(transaction) ==> (r matches Err(e) && e
                matches UpdateTransactionError::DatabaseError(_) && *final (self) == *old(self)),
            old(self).has_capacity(transaction.spec_entries().len() as int) && old(
                self,
            ).all_registered(transaction) ==> (r matches Ok(t) && {
                &&& t.id == old(self).spec_next_id()
                &&& t.user_id@ == transaction.spec_user_id()
                &&& t.date == transaction.spec_date()
                &&& t.payee@ == transaction.spec_payee()
                &&& match transaction.spec_notes() {
                    None => t.notes@.len() == 0,
                    Some(n) => t.notes@ == n,
                }
                &&& Self::entries_stored(transaction, t.entries@)
                &&& t.created_at == if now > old(self).spec_clock_floor() {
                    now as int
                } else {
                    old(self).spec_clock_floor() + 1
                }
                &&& t.updated_at == t.created_at
                &&& forall|k: int|
                    0 <= k < old(self).spec_transactions().len() ==> (#[trigger] old(
                        self,
                    ).spec_transactions()[k]).created_at < t.created_at
                &&& exists|i: int|
                    0 <= i <= old(self).spec_transactions().len() && final (self).spec_transactions() == old(self).spec_transactions().insert(
                        i,
                        #[trigger] final (self).spec_transactions()[i],
                    ) && tx_eq(t, final (self).spec_transactions()[i])
                &&& final (self).spec_next_id() == old(self).spec_next_id() + 1
            }),
    {
        let more = transaction.entries().len();
        if self.next_id == u64::MAX || self.clock_floor == i64::MAX || more > ENTRY_CAP
            - self.entry_total {
            return Err(
                UpdateTransactionError::Unknown(String::from_str("the store is out of capacity")),
            );
        }
        let rows = match self.build_rows(&transaction) {
            Ok(rows) => rows,
            Err(e) => {
                return Err(e);
            },
        };
        let assigned: i64 = if now > self.clock_floor {
            now
        } else {
            self.clock_floor + 1
        };
        let notes = match transaction.notes() {
            Some(n) => n.to_owned(),
            None => String::new(),
        };
        let row = Transaction {
            id: self.next_id,
            user_id: transaction.user_id().to_owned(),
            date: transaction.date(),
            payee: transaction.payee().to_owned(),
            notes,
            entries: rows,
            created_at: assigned,
            updated_at: assigned,
        };
        let result = row.clone();
        proof {
            lemma_total_entries_nonneg(self.transactions@);
        }
        let pos = insert_row(&mut self.transactions, row);
        self.next_id = self.next_id + 1;
        self.clock_floor = assigned;
        self.entry_total = self.entry_total + more;
        proof {
            let olds = old(self).spec_transactions();
            let news = self.spec_transactions();
            lemma_total_entries_insert(olds, pos as int, news[pos as int]);
            assert(news == olds.insert(pos as int, news[pos as int]));
            assert(forall|k: int| 0 <= k < pos ==> #[trigger] news[k] == olds[k]);
            assert(forall|k: int| pos < k < news.len() ==> #[trigger] news[k] == olds[k - 1]);
        }
        Ok(result)
    }

    /// Get a single transaction by its id, for its owner.
    pub fn get_transaction(&self, user_id: &str, transaction_id: u64) -> (r: Option<Transaction>)
        requires
            self.wf(),
        ensures
            match r {
                Some(t) => t.id == transaction_id && t.user_id@ == user_id@ && exists|i: int|
                    0 <= i < self.spec_transactions().len() && tx_eq(
                        t,
                        #[trigger] self.spec_transactions()[i],
                    ),
                None => forall|i: int|
                    0 <= i < self.spec_transactions().len() ==> !((#[trigger] self.spec_transactions()[
                        i
                    ]).id == transaction_id && self.spec_transactions()[i].user_id@ == user_id@),
            },
    {
        let mut i: usize = 0;
        while i < self.transactions.len()
            invariant
                i <= self.transactions@.len(),
                forall|k: int|
                    0 <= k < i ==> !((#[trigger] self.transactions@[k]).id == transaction_id
                        && self.transactions@[k].user_id@ == user_id@),
            decreases self.transactions@.len() - i,
        {
            let t = &self.transactions[i];
            if t.id == transaction_id && str_eq(t.user_id.as_str(), user_id) {
                let found = t.clone();
                proof {
                    assert(tx_eq(found, self.spec_transactions()[i as int]));
                }
                return Some(found);
            }
            i = i + 1;
        }
        None
    }

    /// Delete a transaction by its id, for its owner. Deleting a transaction
    /// that does not exist changes nothing: the operation always succeeds.
    pub fn delete_transaction(&mut self, user_id: &str, transaction_id: u64)
        requires
            old(self).wf(),
        ensures
            final (self).wf(),
            final (self).spec_currencies() == old(self).spec_currencies(),
            final (self).spec_next_id() == old(self).spec_next_id(),
            final (self).spec_clock_floor() == old(self).spec_clock_floor(),
            (exists|j: int|
                0 <= j < old(self).spec_transactions().len() && (#[trigger] old(
                    self,
                ).spec_transactions()[j]).id == transaction_id && old(self).spec_transactions()[
                    j
                ].user_id@ == user_id@) ==> (exists|j: int|
                0 <= j < old(self).spec_transactions().len() && (#[trigger] old(
                    self,
                ).spec_transactions()[j]).id == transaction_id && old(self).spec_transactions()[
                    j
                ].user_id@ == user_id@ && final (self).spec_transactions() == old(
                    self,
                ).spec_transactions().remove(j)),
            !(exists|j: int|
                0 <= j < old(self).spec_transactions().len() && (#[trigger] old(
                    self,
                ).spec_transactions()[j]).id == transaction_id && old(self).spec_transactions()[
                    j
                ].user_id@ == user_id@) ==> final (self).spec_transactions() == old(
                self,
            ).spec_transactions(),
    {
        let mut i: usize = 0;
        while i < self.transactions.len()
            invariant
                *self == *old(self),
                old(self).wf(),
                i <= self.transactions@.len(),
                forall|k: int|
                    0 <= k < i ==> !((#[trigger] self.transactions@[k]).id == transaction_id
                        && self.transactions@[k].user_id@ == user_id@),
            decreases self.transactions@.len() - i,
        {
            let hit = self.transactions[i].id == transaction_id && str_eq(
                self.transactions[i].user_id.as_str(),
                user_id,
            );
            if hit {
                let ghost olds = self.transactions@;
                proof {
                    lemma_total_entries_remove(olds, i as int);
                    lemma_total_entries_nonneg(olds.remove(i as int));
                }
                let removed = self.transactions.remove(i);
                self.entry_total = self.entry_total - removed.entries.len();
                proof {
                    let news = self.spec_transactions();
                    assert(news == olds.remove(i as int));
                    assert(forall|k: int| 0 <= k < i ==> #[trigger] news[k] == olds[k]);
                    assert(forall|k: int|
                        i <= k < news.len() ==> #[trigger] news[k] == olds[k + 1]);
                    assert(olds[i as int].id == transaction_id && olds[i as int].user_id@
                        == user_id@);
                    assert forall|a: int, b: int| 0 <= a < b < news.len() implies row_lt(
                        #[trigger] news[b],
                        #[trigger] news[a],
                    ) by {
                        if b < i {
                            assert(row_lt(olds[b], olds[a]));
                        } else if a < i {
                            assert(row_lt(olds[b + 1], olds[a]));
                        } else {
                            assert(row_lt(olds[b + 1], olds[a + 1]));
                        }
                    }
                    assert forall|a: int, b: int| 0 <= a < b < news.len() implies news[a].id
                        != news[b].id && news[a].created_at != news[b].created_at by {
                        if b < i {
                        } else if a < i {
                            assert(news[b] == olds[b + 1]);
                        } else {
                            assert(news[a] == olds[a + 1] && news[b] == olds[b + 1]);
                        }
                    }
                    assert forall|k: int| 0 <= k < news.len() implies (#[trigger] news[k]).id
                        < self.spec_next_id() && news[k].created_at <= self.spec_clock_floor() && (
                    news[k].date).wf() by {
                        if k < i {
                        } else {
                            assert(news[k] == olds[k + 1]);
                        }
                    }
                    assert(sorted_desc(news));
                    assert(total_entries(news) == self.spec_entry_total());
                    assert(self.spec_entry_total() <= ENTRY_CAP);
                    assert(forall|a: int, b: int|
                        0 <= a < b < news.len() ==> (#[trigger] news[a]).id
                            != (#[trigger] news[b]).id);
                    assert(forall|a: int, b: int|
                        0 <= a < b < news.len() ==> news[a].created_at != news[b].created_at);
                    assert(forall|k: int|
                        0 <= k < news.len() ==> (#[trigger] news[k]).id < self.spec_next_id());
                    assert(forall|k: int|
                        0 <= k < news.len() ==> (#[trigger] news[k]).created_at
                            <= self.spec_clock_floor());
                    assert(forall|k: int|
                        0 <= k < news.len() ==> (#[trigger] news[k].date).wf());
                    assert(self.spec_currencies() == old(self).spec_currencies());
                    assert forall|a: int, b: int|
                        0 <= a < b < self.spec_currencies().len() implies (
                    #[trigger] self.spec_currencies()[a]).spec_code() != (
                    #[trigger] self.spec_currencies()[b]).spec_code() by {
                        assert(self.spec_currencies()[a] == old(self).spec_currencies()[a]);
                        assert(self.spec_currencies()[b] == old(self).spec_currencies()[b]);
                    }
                    assert(self.wf());
                }
                return ;
            }
            i = i + 1;
        }
    }
}


impl LedgerStore {
    /// Update an existing transaction: replace its date, payee, notes and
    /// full entry set in one step, keeping its id and creation time. The
    /// update fails, leaving the store untouched, when no transaction has
    /// this id and owner, an entry names an unregistered currency, or the
    /// store is out of entry capacity.
    pub fn update_transaction(&mut self, transaction_id: u64, update: NewTransaction, now: i64) -> (r: Result<
        Transaction,
        UpdateTransactionError,
    >)
        requires
            old(self).wf(),
            update.spec_date().wf(),
        ensures
            final (self).wf(),
            final (self).spec_currencies() == old(self).spec_currencies(),
            !(exists|j: int|
                0 <= j < old(self).spec_transactions().len() && (#[trigger] old(
                    self,
                ).spec_transactions()[j]).id == transaction_id && old(self).spec_transactions()[
                    j
                ].user_id@ == update.spec_user_id()) ==> (r matches Err(e) && e
                matches UpdateTransactionError::TransactionNotFound && *final (self) == *old(
                self,
            )),
            (exists|j: int|
                0 <= j < old(self).spec_transactions().len() && (#[trigger] old(
                    self,
                ).spec_transactions()[j]).id == transaction_id && old(self).spec_transactions()[
                    j
                ].user_id@ == update.spec_user_id() && old(self).spec_entry_total() - old(
                    self,
                ).spec_transactions()[j].entries@.len() + update.spec_entries().len()
                    <= ENTRY_CAP) && old(self).all_registered(update) ==> r is Ok,
            r matches Ok(t) ==> {
                &&& t.id == transaction_id
                &&& t.user_id@ == update.spec_user_id()
                &&& t.date == update.spec_date()
                &&& t.payee@ == update.spec_payee()
                &&& match update.spec_notes() {
                    None => t.notes@.len() == 0,
                    Some(n) => t.notes@ == n,
                }
                &&& Self::entries_stored(update, t.entries@)
                &&& t.updated_at == now
                &&& exists|j: int|
                    0 <= j < old(self).spec_transactions().len() && (#[trigger] old(
                        self,
                    ).spec_transactions()[j]).id == transaction_id && old(self).spec_transactions()[
                        j
                    ].user_id@ == update.spec_user_id() && t.created_at == old(self).spec_transactions()[j].created_at && (exists|i: int|
                        0 <= i < final (self).spec_transactions().len() && final (self).spec_transactions() == old(self).spec_transactions().remove(j).insert(
                            i,
                            #[trigger] final (self).spec_transactions()[i],
                        ) && tx_eq(t, final (self).spec_transactions()[i]))
            },
            r matches Err(_) ==> *final (self) == *old(self),
    {
        // Find the row to replace.
        let mut j: usize = 0;
        let mut found = false;
        let n = self.transactions.len();
        let mut scan: usize = 0;
        while scan < n
            invariant
                *self == *old(self),
                old(self).wf(),
                n == self.transactions@.len(),
                scan <= n,
                found ==> j < n && scan == n && self.transactions@[j as int].id == transaction_id
                    && self.transactions@[j as int].user_id@ == update.spec_user_id(),
                !found ==> forall|k: int|
                    0 <= k < scan ==> !((#[trigger] self.transactions@[k]).id == transaction_id
                        && self.transactions@[k].user_id@ == update.spec_user_id()),
            decreases n - scan,
        {
            if self.transactions[scan].id == transaction_id && str_eq(
                self.transactions[scan].user_id.as_str(),
                update.user_id(),
            ) {
                found = true;
                j = scan;
                scan = n;
            } else {
                scan = scan + 1;
            }
        }
        if !found {
            proof {
                assert(forall|j2: int|
                    0 <= j2 < old(self).spec_transactions().len() ==> !((#[trigger] old(
                        self,
                    ).spec_transactions()[j2]).id == transaction_id && old(
                        self,
                    ).spec_transactions()[j2].user_id@ == update.spec_user_id()));
            }
            return Err(UpdateTransactionError::TransactionNotFound);
        }
        assert(self.transactions@[j as int].id == transaction_id && self.transactions@[
            j as int
        ].user_id@ == update.spec_user_id());

        let rows = match self.build_rows(&update) {
            Ok(rows) => rows,
            Err(e) => {
                return Err(e);
            },
        };
        let old_len = self.transactions[j].entries.len();
        let new_len = rows.len();
        proof {
            lemma_total_entries_remove(self.transactions@, j as int);
            lemma_total_entries_nonneg(self.transactions@.remove(j as int));
        }
        if new_len > ENTRY_CAP - (self.entry_total - old_len) {
            proof {
                // The matching row is unique, so the capacity that failed for
                // it fails for every match.
                assert forall|j2: int|
                    0 <= j2 < old(self).spec_transactions().len() && (#[trigger] old(
                        self,
                    ).spec_transactions()[j2]).id == transaction_id && old(
                        self,
                    ).spec_transactions()[j2].user_id@ == update.spec_user_id() implies old(
                    self,
                ).spec_entry_total() - old(self).spec_transactions()[j2].entries@.len()
                    + update.spec_entries().len() > ENTRY_CAP by {
                    if j2 < j {
                        assert(old(self).spec_transactions()[j2].id != old(
                            self,
                        ).spec_transactions()[j as int].id);
                    } else if j2 > j {
                        assert(old(self).spec_transactions()[j as int].id != old(
                            self,
                        ).spec_transactions()[j2].id);
                    }
                }
            }
            return Err(
                UpdateTransactionError::Unknown(String::from_str("the store is out of capacity")),
            );
        }

        let ghost olds = self.transactions@;
        let removed = self.transactions.remove(j);
        self.entry_total = self.entry_total - old_len;
        let ghost mid = self.transactions@;
        proof {
            assert(mid == olds.remove(j as int));
            assert(forall|k: int| 0 <= k < j ==> #[trigger] mid[k] == olds[k]);
            assert(forall|k: int| j <= k < mid.len() ==> #[trigger] mid[k] == olds[k + 1]);
            assert forall|a: int, b: int| 0 <= a < b < mid.len() implies row_lt(
                #[trigger] mid[b],
                #[trigger] mid[a],
            ) by {
                if b < j {
                } else if a < j {
                    assert(mid[b] == olds[b + 1]);
                } else {
                    assert(mid[a] == olds[a + 1] && mid[b] == olds[b + 1]);
                }
            }
            assert forall|k: int| 0 <= k < mid.len() implies (#[trigger] mid[k]).created_at
                != removed.created_at && mid[k].id != removed.id by {
                if k < j {
                } else {
                    assert(mid[k] == olds[k + 1]);
                }
            }
        }
        let row = Transaction {
            id: removed.id,
            user_id: removed.user_id,
            date: update.date(),
            payee: update.payee().to_owned(),
            notes: match update.notes() {
                Some(nts) => nts.to_owned(),
                None => String::new(),
            },
            entries: rows,
            created_at: removed.created_at,
            updated_at: now,
        };
        let result = row.clone();
        let ghost the_row = row;
        let pos = insert_row(&mut self.transactions, row);
        self.entry_total = self.entry_total + new_len;
        proof {
            let news = self.spec_transactions();
            lemma_total_entries_insert(mid, pos as int, news[pos as int]);
            assert(news == mid.insert(pos as int, news[pos as int]));
            assert(forall|k: int| 0 <= k < pos ==> #[trigger] news[k] == mid[k]);
            assert(forall|k: int| pos < k < news.len() ==> #[trigger] news[k] == mid[k - 1]);
            assert(news[pos as int] == the_row);
            assert forall|a: int, b: int| 0 <= a < b < news.len() implies (#[trigger] news[a]).id
                != (#[trigger] news[b]).id by {
                if a != pos && b != pos {
                    let a0 = if a < pos {
                        a
                    } else {
                        a - 1
                    };
                    let b0 = if b < pos {
                        b
                    } else {
                        b - 1
                    };
                    assert(news[a] == mid[a0] && news[b] == mid[b0]);
                }
            }
            assert(forall|a: int, b: int|
                0 <= a < b < news.len() ==> news[a].created_at != news[b].created_at) by {
                assert(forall|k: int|
                    0 <= k < news.len() && k != pos ==> #[trigger] news[k] == mid[if k < pos {
                        k
                    } else {
                        k - 1
                    }]);
            }
            assert(forall|k: int|
                0 <= k < news.len() && k != pos ==> #[trigger] news[k] == mid[if k < pos {
                    k
                } else {
                    k - 1
                }]);
            assert(forall|k: int|
                0 <= k < news.len() ==> (#[trigger] news[k]).id < self.spec_next_id());
            assert(forall|k: int|
                0 <= k < news.len() ==> (#[trigger] news[k]).created_at
                    <= self.spec_clock_floor());
            assert(forall|k: int| 0 <= k < news.len() ==> (#[trigger] news[k].date).wf());
            assert(self.spec_currencies() == old(self).spec_currencies());
            assert forall|a: int, b: int|
                0 <= a < b < self.spec_currencies().len() implies (
            #[trigger] self.spec_currencies()[a]).spec_code() != (
            #[trigger] self.spec_currencies()[b]).spec_code() by {
                assert(self.spec_currencies()[a] == old(self).spec_currencies()[a]);
                assert(self.spec_currencies()[b] == old(self).spec_currencies()[b]);
            }
            assert(self.wf());
            assert(olds[j as int].id == transaction_id);
            assert(tx_eq(result, news[pos as int]));
        }
        Ok(result)
    }
}

/// Build a query that resumes after the given cursor.
pub open spec fn with_after(q: TransactionQuery, c: TransactionCursor) -> TransactionQuery {
    TransactionQuery { user_id: q.user_id, after: Some(c), account: q.account }
}

/// The rows of `s` lying strictly after the cursor.
pub open spec fn after_filter(s: Seq<Transaction>, c: TransactionCursor) -> Seq<Transaction>
    decreases s.len(),
{
    if s.len() == 0 {
        Seq::empty()
    } else {
        after_filter(s.drop_last(), c) + if before_cursor(s.last(), c) {
            seq![s.last()]
        } else {
            Seq::empty()
        }
    }
}

/// Filtering with a cursor filters without it and keeps the rows after the
/// cursor.
proof fn lemma_filtered_with_after(s: Seq<Transaction>, q: TransactionQuery, c: TransactionCursor)
    requires
        q.after is None,
    ensures
        filtered(s, with_after(q, c)) == after_filter(filtered(s, q), c),
    decreases s.len(),
{
    if s.len() > 0 {
        lemma_filtered_with_after(s.drop_last(), q, c);
        let t = s.last();
        let f = filtered(s.drop_last(), q);
        if matches_query(t, q) {
            assert(filtered(s, q) == f.push(t));
            assert(f.push(t).drop_last() =~= f);
            assert(f.push(t).last() == t);
            if before_cursor(t, c) {
                assert(matches_query(t, with_after(q, c)));
            } else {
                assert(!matches_query(t, with_after(q, c)));
                assert(filtered(s, with_after(q, c)) =~= after_filter(f.push(t), c));
            }
        } else {
            assert(!matches_query(t, with_after(q, c)));
        }
    }
}

/// No row of `s` lies after the cursor: the cursor filter keeps nothing.
proof fn lemma_after_filter_empty(s: Seq<Transaction>, c: TransactionCursor)
    requires
        forall|k: int| 0 <= k < s.len() ==> !before_cursor(#[trigger] s[k], c),
    ensures
        after_filter(s, c) == Seq::<Transaction>::empty(),
    decreases s.len(),
{
    if s.len() > 0 {
        lemma_after_filter_empty(s.drop_last(), c);
        assert(after_filter(s, c) =~= Seq::<Transaction>::empty());
    }
}

/// On a sorted sequence whose row at `n` sits exactly at the cursor, the
/// cursor filter keeps exactly the rows after position `n`.
proof fn lemma_after_filter_skip(s: Seq<Transaction>, c: TransactionCursor, n: int)
    requires
        sorted_desc(s),
        0 <= n < s.len(),
        c.after_date == s[n].date,
        c.after_created_at == s[n].created_at,
    ensures
        after_filter(s, c) == s.skip(n + 1),
    decreases s.len(),
{
    if n == s.len() - 1 {
        assert(!before_cursor(s.last(), c));
        assert forall|k: int| 0 <= k < s.drop_last().len() implies !before_cursor(
            #[trigger] s.drop_last()[k],
            c,
        ) by {
            assert(s.drop_last()[k] == s[k]);
            assert(row_lt(s[n], s[k]));
        }
        lemma_after_filter_empty(s.drop_last(), c);
        assert(after_filter(s, c) =~= s.skip(n + 1));
    } else {
        assert(forall|i: int, j: int|
            0 <= i < j < s.drop_last().len() ==> row_lt(
                #[trigger] s.drop_last()[j],
                #[trigger] s.drop_last()[i],
            ));
        lemma_after_filter_skip(s.drop_last(), c, n);
        assert(row_lt(s.last(), s[n]));
        assert(before_cursor(s.last(), c));
        assert(after_filter(s, c) == s.drop_last().skip(n + 1).push(s.last()));
        assert(s.drop_last().skip(n + 1).push(s.last()) =~= s.skip(n + 1));
    }
}

/// Pagination resumes exactly where a page ended: filtering with a cursor
/// built from the row at position `n` of the full listing yields precisely
/// the rows after that position. Following every returned cursor therefore
/// walks the whole listing, each row exactly once.
pub proof fn lemma_pagination_resume(
    s: Seq<Transaction>,
    q: TransactionQuery,
    c: TransactionCursor,
    n: int,
)
    requires
        sorted_desc(s),
        q.after is None,
        0 <= n < filtered(s, q).len(),
        c.after_date == filtered(s, q)[n].date,
        c.after_created_at == filtered(s, q)[n].created_at,
    ensures
        filtered(s, with_after(q, c)) == filtered(s, q).skip(n + 1),
{
    lemma_filtered_with_after(s, q, c);
    lemma_filtered_sorted(s, q);
    lemma_after_filter_skip(filtered(s, q), c, n);
}

/// A filtered listing inherits the canonical order.
proof fn lemma_filtered_sorted(s: Seq<Transaction>, q: TransactionQuery)
    requires
        sorted_desc(s),
    ensures
        sorted_desc(filtered(s, q)),
        forall|k: int|
            0 <= k < filtered(s, q).len() ==> exists|i: int|
                0 <= i < s.len() && #[trigger] filtered(s, q)[k] == s[i],
    decreases s.len(),
{
    if s.len() > 0 {
        assert(forall|i: int, j: int|
            0 <= i < j < s.drop_last().len() ==> row_lt(
                #[trigger] s.drop_last()[j],
                #[trigger] s.drop_last()[i],
            ));
        lemma_filtered_sorted(s.drop_last(), q);
        let f = filtered(s.drop_last(), q);
        if matches_query(s.last(), q) {
            let g = filtered(s, q);
            assert(g == f.push(s.last()));
            assert forall|k: int| 0 <= k < g.len() implies exists|i: int|
                0 <= i < s.len() && #[trigger] g[k] == s[i] by {
                if k < f.len() {
                    assert(g[k] == f[k]);
                    let i = choose|i: int| 0 <= i < s.drop_last().len() && f[k] == s.drop_last()[i];
                    assert(g[k] == s[i]);
                } else {
                    assert(g[k] == s[s.len() - 1]);
                }
            }
            assert forall|a: int, b: int| 0 <= a < b < g.len() implies row_lt(
                #[trigger] g[b],
                #[trigger] g[a],
            ) by {
                if b < f.len() {
                    assert(g[a] == f[a] && g[b] == f[b]);
                } else {
                    assert(g[b] == s[s.len() - 1]);
                    assert(g[a] == f[a]);
                    let i = choose|i: int| 0 <= i < s.drop_last().len() && f[a] == s.drop_last()[i];
                    assert(row_lt(s[s.len() - 1], s[i]));
                }
            }
        } else {
            assert(filtered(s, q) == f);
        }
    }
}

/// Inserting a row that does not answer the query leaves its listing
/// untouched.
proof fn lemma_filtered_insert_excluded(
    s: Seq<Transaction>,
    j: int,
    t: Transaction,
    q: TransactionQuery,
)
    requires
        0 <= j <= s.len(),
        !matches_query(t, q),
    ensures
        filtered(s.insert(j, t), q) == filtered(s, q),
    decreases s.len(),
{
    let u = s.insert(j, t);
    if j == s.len() {
        assert(u.drop_last() =~= s);
        assert(u.last() == t);
        assert(filtered(u, q) =~= filtered(s, q));
    } else {
        assert(u.drop_last() =~= s.drop_last().insert(j, t));
        assert(u.last() == s.last());
        lemma_filtered_insert_excluded(s.drop_last(), j, t, q);
    }
}

/// Keyset pagination is stable under concurrent inserts: a row inserted at
/// or before the cursor position — in particular any row newer than the
/// cursor — does not change what a resumed listing returns.
pub proof fn lemma_pagination_stable(
    s: Seq<Transaction>,
    j: int,
    t: Transaction,
    q: TransactionQuery,
)
    requires
        0 <= j <= s.len(),
        q.after is Some,
        !before_cursor(t, q.after->0),
    ensures
        filtered(s.insert(j, t), q) == filtered(s, q),
{
    assert(!matches_query(t, q));
    lemma_filtered_insert_excluded(s, j, t, q);
}

impl LedgerStore {
    /// List the transactions matching the query, newest first: one page of
    /// at most fifty rows, and a cursor to resume after the last retained
    /// row when more remain.
    #[verifier::rlimit(100)]
    pub fn list_transactions(&self, query: &TransactionQuery) -> (r: TransactionCollection)
        requires
            self.wf(),
        ensures
            ({
                let f = filtered(self.spec_transactions(), *query);
                &&& r.items@.len() == if f.len() <= 50 {
                    f.len() as int
                } else {
                    50int
                }
                &&& forall|k: int| #![trigger r.items@[k]]
                    0 <= k < r.items@.len() ==> tx_eq(r.items@[k], f[k])
                &&& f.len() <= 50 ==> r.next is None
                &&& f.len() > 50 ==> (r.next matches Some(c) && c.after_date == f[49].date
                    && c.after_created_at == f[49].created_at)
            }),
    {
        let ghost all = self.spec_transactions();
        let ghost q = *query;
        let mut items: Vec<Transaction> = Vec::new();
        let mut i: usize = 0;
        proof {
            assert(all.take(0) =~= Seq::<Transaction>::empty());
        }
        while i < self.transactions.len()
            invariant
                self.wf(),
                all == self.spec_transactions(),
                q == *query,
                i <= all.len(),
                items@.len() <= i,
                items@.len() <= 51,
                items@.len() == filtered(all.take(i as int), q).len() || (items@.len() == 51
                    && filtered(all.take(i as int), q).len() >= 51),
                items@.len() < 51 ==> items@.len() == filtered(all.take(i as int), q).len(),
                forall|k: int| #![trigger items@[k]]
                    0 <= k < items@.len() ==> tx_eq(items@[k], filtered(all.take(i as int), q)[k]),
                forall|k: int|
                    0 <= k < items@.len() ==> #[trigger] filtered(all.take(i as int), q)[k]
                        == filtered(all, q)[k],
            decreases all.len() - i,
        {
            let ghost pre = all.take(i as int);
            proof {
                assert(all.take(i + 1) =~= pre.push(all[i as int]));
                assert(pre.push(all[i as int]).drop_last() =~= pre);
                assert(pre.push(all[i as int]).last() == all[i as int]);
                lemma_filtered_prefix(all, q, i as int);
                lemma_filtered_prefix(all, q, i + 1);
            }
            let t = &self.transactions[i];
            let user_ok = str_eq(t.user_id.as_str(), query.user_id.as_str());
            let account_ok = match &query.account {
                None => true,
                Some(a) => tx_touches(t, a.as_str()),
            };
            let after_ok = match &query.after {
                None => true,
                Some(c) => t.date.before(&c.after_date) || (t.date == c.after_date && t.created_at
                    < c.after_created_at),
            };
            if user_ok && account_ok && after_ok && items.len() < 51 {
                assert(matches_query(all[i as int], q));
                items.push(t.clone());
                proof {
                    assert(filtered(all.take(i + 1), q) =~= filtered(pre, q).push(all[i as int]));
                }
            } else {
                proof {
                    if user_ok && account_ok && after_ok {
                        assert(filtered(all.take(i + 1), q) =~= filtered(pre, q).push(
                            all[i as int],
                        ));
                    } else {
                        assert(!matches_query(all[i as int], q));
                        assert(filtered(all.take(i + 1), q) =~= filtered(pre, q));
                    }
                }
            }
            i = i + 1;
        }
        proof {
            assert(all.take(all.len() as int) =~= all);
        }
        let ghost f = filtered(all, q);

        if items.len() == 51 {
            items.pop();
            let last = &items[49];
            let next = TransactionCursor {
                after_date: last.date,
                after_created_at: last.created_at,
            };
            proof {
                assert(f.len() >= 51);
                assert(tx_eq(items@[49], f[49]));
            }
            TransactionCollection { next: Some(next), items }
        } else {
            assert(f.len() <= 50);
            TransactionCollection { next: None, items }
        }
    }
}

/// A prefix of the rows filters to a prefix of the filtered rows.
proof fn lemma_filtered_prefix(s: Seq<Transaction>, q: TransactionQuery, i: int)
    requires
        0 <= i <= s.len(),
    ensures
        filtered(s.take(i), q).len() <= filtered(s, q).len(),
        forall|k: int|
            0 <= k < filtered(s.take(i), q).len() ==> #[trigger] filtered(s.take(i), q)[k]
                == filtered(s, q)[k],
    decreases s.len() - i,
{
    if i < s.len() {
        lemma_filtered_prefix(s, q, i + 1);
        assert(s.take(i + 1).drop_last() =~= s.take(i));
        assert(s.take(i + 1).last() == s[i]);
        assert(filtered(s.take(i + 1), q) == filtered(s.take(i), q) + if matches_query(s[i], q) {
            seq![s[i]]
        } else {
            Seq::<Transaction>::empty()
        });
        assert(forall|k: int|
            0 <= k < filtered(s.take(i), q).len() ==> #[trigger] filtered(s.take(i), q)[k]
                == filtered(s.take(i + 1), q)[k]);
    } else {
        assert(s.take(i) =~= s);
    }
}

/// Whether the transaction has an entry on the account or below it.
fn tx_touches(t: &Transaction, filter: &str) -> (r: bool)
    ensures
        r == tx_touches_account(*t, filter@),
{
    let mut i: usize = 0;
    while i < t.entries.len()
        invariant
            i <= t.entries@.len(),
            forall|k: int|
                0 <= k < i ==> !account_matches_spec(
                    (#[trigger] t.entries@[k]).spec_account(),
                    filter@,
                ),
        decreases t.entries@.len() - i,
    {
        if account_matches(t.entries[i].account(), filter) {
            assert(account_matches_spec(t.entries@[i as int].spec_account(), filter@));
            return true;
        }
        i = i + 1;
    }
    false
}

/// Whether `code` is one of the requested codes.
pub open spec fn code_requested(codes: Seq<String>, code: Seq<char>) -> bool {
    exists|i: int| 0 <= i < codes.len() && (#[trigger] codes[i])@ == code
}

/// A storage backend that resolves currency codes to currencies.
pub trait CurrencyQueries {
    /// The currencies the backend knows.
    spec fn known_currencies(&self) -> Seq<Currency>;

    /// Get the currencies registered under the requested codes, each code
    /// answered once. Every returned currency is a known one under a
    /// requested code, and every requested code that is known is answered.
    fn get_currencies_by_code(&self, currency_codes: &Vec<String>) -> (r: Vec<Currency>)
        ensures
            forall|j: int|
                0 <= j < r@.len() ==> self.known_currencies().contains(#[trigger] r@[j]),
            forall|j: int|
                0 <= j < r@.len() ==> code_requested(
                    currency_codes@,
                    (#[trigger] r@[j]).spec_code(),
                ),
            forall|j: int, k: int|
                0 <= j < k < r@.len() ==> (#[trigger] r@[j]).spec_code() != (
                #[trigger] r@[k]).spec_code(),
            forall|i: int|
                0 <= i < currency_codes@.len() && (exists|j: int|
                    0 <= j < self.known_currencies().len() && (#[trigger] self.known_currencies()[
                        j
                    ]).spec_code() == (#[trigger] currency_codes@[i])@) ==> exists|k: int|
                    0 <= k < r@.len() && (#[trigger] r@[k]).spec_code() == currency_codes@[i]@,
    ;
}

impl CurrencyQueries for LedgerStore {
    open spec fn known_currencies(&self) -> Seq<Currency> {
        self.spec_currencies()
    }

    fn get_currencies_by_code(&self, currency_codes: &Vec<String>) -> (r: Vec<Currency>) {
        let mut out: Vec<Currency> = Vec::new();
        let mut i: usize = 0;
        while i < currency_codes.len()
            invariant
                i <= currency_codes@.len(),
                forall|j: int|
                    0 <= j < out@.len() ==> self.spec_currencies().contains(#[trigger] out@[j]),
                forall|j: int|
                    0 <= j < out@.len() ==> code_requested(
                        currency_codes@,
                        (#[trigger] out@[j]).spec_code(),
                    ),
                forall|j: int, k: int|
                    0 <= j < k < out@.len() ==> (#[trigger] out@[j]).spec_code() != (
                    #[trigger] out@[k]).spec_code(),
                forall|k: int|
                    0 <= k < i && (exists|j: int|
                        0 <= j < self.spec_currencies().len() && (
                        #[trigger] self.spec_currencies()[j]).spec_code() == (
                        #[trigger] currency_codes@[k])@) ==> exists|m: int|
                        0 <= m < out@.len() && (#[trigger] out@[m]).spec_code()
                            == currency_codes@[k]@,
            decreases currency_codes@.len() - i,
        {
            // Skip a code that has already been answered.
            let m0 = out.len();
            let mut answered = false;
            let mut scan: usize = 0;
            while scan < m0
                invariant
                    m0 == out@.len(),
                    scan <= m0,
                    i < currency_codes@.len(),
                    answered ==> scan == m0 && (exists|m: int|
                        0 <= m < out@.len() && (#[trigger] out@[m]).spec_code()
                            == currency_codes@[i as int]@),
                    !answered ==> forall|k: int|
                        0 <= k < scan ==> (#[trigger] out@[k]).spec_code()
                            != currency_codes@[i as int]@,
                decreases m0 - scan,
            {
                if crate::text::str_eq(out[scan].code(), currency_codes[i].as_str()) {
                    proof {
                        assert(out@[scan as int].spec_code() == currency_codes@[i as int]@);
                    }
                    answered = true;
                    scan = m0;
                } else {
                    scan = scan + 1;
                }
            }
            if answered {
                i = i + 1;
                continue ;
            }
            let ghost before = out@;
            match self.find_currency(currency_codes[i].as_str()) {
                Some(c) => {
                    out.push(c);
                    proof {
                        assert(forall|j: int|
                            0 <= j < before.len() ==> #[trigger] out@[j] == before[j]);
                        assert(out@[before.len() as int].spec_code() == currency_codes@[i as int]@);
                        assert(self.spec_currencies().contains(out@[before.len() as int]));
                        assert(code_requested(
                            currency_codes@,
                            out@[before.len() as int].spec_code(),
                        ));
                        assert forall|k: int|
                            0 <= k < i + 1 && (exists|j: int|
                                0 <= j < self.spec_currencies().len() && (
                                #[trigger] self.spec_currencies()[j]).spec_code() == (
                                #[trigger] currency_codes@[k])@) implies exists|m: int|
                            0 <= m < out@.len() && (#[trigger] out@[m]).spec_code()
                                == currency_codes@[k]@ by {
                            if k < i {
                                let m = choose|m: int|
                                    0 <= m < before.len() && (#[trigger] before[m]).spec_code()
                                        == currency_codes@[k]@;
                                assert(out@[m].spec_code() == currency_codes@[k]@);
                            } else {
                                assert(out@[before.len() as int].spec_code()
                                    == currency_codes@[k]@);
                            }
                        }
                    }
                },
                None => {
                    proof {
                        assert(forall|j: int|
                            0 <= j < self.spec_currencies().len() ==> (
                            #[trigger] self.spec_currencies()[j]).spec_code()
                                != currency_codes@[i as int]@);
                    }
                },
            }
            i = i + 1;
        }
        out
    }
}

} // verus!
