//! Transaction construction and auto-balancing.
//!
//! A transaction is built from raw entry data in which each entry names an
//! account and optionally carries an amount. At most one entry may omit its
//! amount; when exactly one currency's amounts do not sum to zero, that entry
//! receives the negated remainder, so that every constructed transaction is
//! balanced: for each currency, its entry values sum to exactly zero.

use vstd::prelude::*;

use crate::dates::Date;

verus! {

/// An amount of money in a specific currency, as raw input data.
#[derive(Debug)]
pub struct NewTransactionEntryAmountData {
    /// The unique currency code.
    pub currency: String,
    /// The amount as an integer in the currency's minor units.
    pub value: i32,
}

/// An entry in a new transaction, as raw input data.
#[derive(Debug)]
pub struct NewTransactionEntryData {
    /// The account that money is being transferred from/to.
    pub account: String,
    /// The amount of money being transferred. One entry of a transaction may
    /// omit an amount, in which case it will be automatically populated with
    /// an amount that balances the transaction.
    pub amount: Option<NewTransactionEntryAmountData>,
}

/// Data for a new transaction provided by a user.
#[derive(Debug)]
pub struct NewTransactionData {
    /// The date that the transaction was made.
    pub date: Date,
    /// The payee that the transaction targets.
    pub payee: String,
    /// Notes providing additional details about the transaction.
    pub notes: Option<String>,
    /// The entries of the transaction detailing the accounts that money was
    /// transferred from/to.
    pub entries: Vec<NewTransactionEntryData>,
}

/// A monetary amount of a constructed transaction entry.
#[derive(Debug)]
pub struct NewTransactionEntryAmount {
    currency: String,
    value: i32,
}

/// An entry of a constructed transaction, with its amount always present.
#[derive(Debug)]
pub struct NewTransactionEntry {
    account: String,
    amount: NewTransactionEntryAmount,
}

/// A new transaction that passed validation and balancing but has not been
/// persisted yet.
#[derive(Debug)]
pub struct NewTransaction {
    user_id: String,
    date: Date,
    payee: String,
    notes: Option<String>,
    entries: Vec<NewTransactionEntry>,
}

/// One currency's non-zero sum, reported when entries do not balance.
#[derive(Debug)]
pub struct CurrencySum {
    /// The currency code.
    pub currency: String,
    /// The non-zero sum of that currency's entry values.
    pub sum: i32,
}

/// Why raw transaction data could not be turned into a transaction.
#[derive(Debug)]
pub enum NewTransactionError {
    /// The transaction has fewer than the two entries double-entry
    /// bookkeeping needs.
    NoEntries,
    /// The payee is empty.
    EmptyPayee,
    /// The entry at this index has an empty account name.
    EmptyAccount(usize),
    /// A second entry at this index omits its amount; only one entry may.
    DuplicateMissingAmount(usize),
    /// The entry at this index omits its amount, but no imbalance remains
    /// for it to absorb, so an explicit amount is required.
    RequiredAmount(usize),
    /// The entries do not sum to zero. The payload holds every currency
    /// whose sum is non-zero, in order of first appearance.
    Unbalanced(Vec<CurrencySum>),
}

/// What the entry at an index contributes to the sum of a currency.
pub open spec fn entry_contribution(e: NewTransactionEntryData, code: Seq<char>) -> int {
    if e.amount is Some && e.amount->0.currency@ == code {
        e.amount->0.value as int
    } else {
        0
    }
}

/// The sum of the explicit amounts carried in currency `code`.
pub open spec fn currency_sum(s: Seq<NewTransactionEntryData>, code: Seq<char>) -> int
    decreases s.len(),
{
    if s.len() == 0 {
        0
    } else {
        currency_sum(s.drop_last(), code) + entry_contribution(s.last(), code)
    }
}

/// The currency codes that appear among the explicit amounts, in order of
/// first appearance.
pub open spec fn currency_list(s: Seq<NewTransactionEntryData>) -> Seq<Seq<char>>
    decreases s.len(),
{
    if s.len() == 0 {
        Seq::empty()
    } else {
        let rest = currency_list(s.drop_last());
        if s.last().amount is Some && !rest.contains(s.last().amount->0.currency@) {
            rest.push(s.last().amount->0.currency@)
        } else {
            rest
        }
    }
}

/// The first `k` appearing currencies whose sums are not zero.
pub open spec fn unbalanced_prefix(s: Seq<NewTransactionEntryData>, k: int) -> Seq<Seq<char>> {
    currency_list(s).take(k).filter(|c: Seq<char>| currency_sum(s, c) != 0)
}

/// The currencies whose explicit amounts do not sum to zero, in order of
/// first appearance.
pub open spec fn unbalanced_list(s: Seq<NewTransactionEntryData>) -> Seq<Seq<char>> {
    unbalanced_prefix(s, currency_list(s).len() as int)
}

/// How many entries omit their amount.
pub open spec fn none_count(s: Seq<NewTransactionEntryData>) -> int
    decreases s.len(),
{
    if s.len() == 0 {
        0
    } else {
        none_count(s.drop_last()) + if s.last().amount is None {
            1int
        } else {
            0int
        }
    }
}

/// Every per-currency sum of the explicit amounts fits the amount type, with
/// room to negate it: at most `i32::MAX` in magnitude.
pub open spec fn sums_fit(s: Seq<NewTransactionEntryData>) -> bool {
    forall|c: Seq<char>| -0x7fff_ffff <= #[trigger] currency_sum(s, c) <= 0x7fff_ffff
}

pub proof fn lemma_none_count_bounds(s: Seq<NewTransactionEntryData>)
    ensures
        0 <= none_count(s) <= s.len(),
    decreases s.len(),
{
    if s.len() > 0 {
        lemma_none_count_bounds(s.drop_last());
    }
}

/// A currency that never appears contributes nothing.
pub proof fn lemma_absent_currency_sum(s: Seq<NewTransactionEntryData>, c: Seq<char>)
    requires
        !currency_list(s).contains(c),
    ensures
        currency_sum(s, c) == 0,
    decreases s.len(),
{
    if s.len() > 0 {
        let rest = currency_list(s.drop_last());
        assert(forall|x: Seq<char>| rest.contains(x) ==> currency_list(s).contains(x)) by {
            assert(forall|i: int|
                0 <= i < rest.len() && currency_list(s) == rest.push(
                    s.last().amount->0.currency@,
                ) ==> currency_list(s)[i] == #[trigger] rest[i]);
        }
        lemma_absent_currency_sum(s.drop_last(), c);
        if s.last().amount is Some {
            if s.last().amount->0.currency@ == c {
                if rest.contains(c) {
                    assert(currency_list(s).contains(c));
                } else {
                    assert(currency_list(s) == rest.push(c));
                    assert(currency_list(s).last() == c);
                    assert(currency_list(s).contains(c));
                }
            }
        }
    }
}

/// Each per-currency sum is bounded by the number of entries times the
/// largest amount, so a wide accumulator never overflows.
pub proof fn lemma_currency_sum_bound(s: Seq<NewTransactionEntryData>, c: Seq<char>)
    ensures
        -(s.len() as int) * 0x8000_0000 <= currency_sum(s, c) <= (s.len() as int) * 0x8000_0000,
    decreases s.len(),
{
    if s.len() == 0 {
    } else {
        lemma_currency_sum_bound(s.drop_last(), c);
        assert(s.drop_last().len() == s.len() - 1);
        assert((s.len() - 1) * 0x8000_0000 + 0x8000_0000 == (s.len() as int) * 0x8000_0000)
            by (nonlinear_arith);
    }
}


/// Appending an entry extends the currency list exactly when it carries a
/// currency not seen before.
proof fn lemma_currency_list_push(s: Seq<NewTransactionEntryData>, e: NewTransactionEntryData)
    ensures
        currency_list(s.push(e)) == if e.amount is Some && !currency_list(s).contains(
            e.amount->0.currency@,
        ) {
            currency_list(s).push(e.amount->0.currency@)
        } else {
            currency_list(s)
        },
{
    assert(s.push(e).drop_last() =~= s);
    assert(s.push(e).last() == e);
}

/// Appending an entry leaves the count of missing amounts, or raises it by
/// one.
proof fn lemma_none_count_push(s: Seq<NewTransactionEntryData>, e: NewTransactionEntryData)
    ensures
        none_count(s.push(e)) == none_count(s) + if e.amount is None {
            1int
        } else {
            0int
        },
{
    assert(s.push(e).drop_last() =~= s);
    assert(s.push(e).last() == e);
}

/// The currencies of the currency list are distinct.
proof fn lemma_currency_list_distinct(s: Seq<NewTransactionEntryData>)
    ensures
        forall|i: int, j: int|
            0 <= i < j < currency_list(s).len() ==> #[trigger] currency_list(s)[i]
                != #[trigger] currency_list(s)[j],
    decreases s.len(),
{
    if s.len() > 0 {
        lemma_currency_list_distinct(s.drop_last());
        let rest = currency_list(s.drop_last());
        let whole = currency_list(s);
        if s.last().amount is Some && !rest.contains(s.last().amount->0.currency@) {
            assert(whole == rest.push(s.last().amount->0.currency@));
            assert(forall|i: int| 0 <= i < rest.len() ==> whole[i] == #[trigger] rest[i]);
            assert(forall|i: int|
                0 <= i < rest.len() ==> #[trigger] rest[i] != s.last().amount->0.currency@) by {
                assert(forall|i: int|
                    0 <= i < rest.len() && rest[i] == s.last().amount->0.currency@
                        ==> rest.contains(#[trigger] rest[i]));
            }
        }
    }
}

/// One currency code and the running sum of its amounts.
struct CodeSum {
    code: String,
    sum: i128,
}

/// Sum the explicit amounts per currency, in order of first appearance.
fn currency_sums(entries: &Vec<NewTransactionEntryData>) -> (r: Vec<CodeSum>)
    ensures
        r@.len() == currency_list(entries@).len(),
        forall|j: int| #![trigger r@[j]]
            0 <= j < r@.len() ==> r@[j].code@ == currency_list(entries@)[j]
                && r@[j].sum as int == currency_sum(entries@, currency_list(entries@)[j]),
{
    let mut acc: Vec<CodeSum> = Vec::new();
    let mut i: usize = 0;
    proof {
        assert(entries@.take(0) =~= Seq::<NewTransactionEntryData>::empty());
    }
    while i < entries.len()
        invariant
            i <= entries@.len(),
            acc@.len() == currency_list(entries@.take(i as int)).len(),
            forall|j: int| #![trigger acc@[j]]
                0 <= j < acc@.len() ==> acc@[j].code@ == currency_list(
                    entries@.take(i as int),
                )[j] && acc@[j].sum as int == currency_sum(
                    entries@.take(i as int),
                    currency_list(entries@.take(i as int))[j],
                ),
        decreases entries@.len() - i,
    {
        let ghost pre = entries@.take(i as int);
        let ghost e = entries@[i as int];
        proof {
            assert(entries@.take(i + 1) =~= pre.push(e));
            lemma_currency_list_push(pre, e);
            lemma_currency_list_distinct(pre);
            assert(pre.push(e).drop_last() =~= pre);
            assert(pre.push(e).last() == e);
            assert(forall|c: Seq<char>|
                #[trigger] currency_sum(pre.push(e), c) == currency_sum(pre, c)
                    + entry_contribution(e, c));
        }
        match &entries[i].amount {
            None => {},
            Some(amount) => {
                // Look for the currency among those already seen.
                let mut j: usize = 0;
                let mut found = false;
                while j < acc.len() && !found
                    invariant
                        j <= acc@.len(),
                        found ==> j < acc@.len() && acc@[j as int].code@ == amount.currency@,
                        !found ==> forall|k: int|
                            0 <= k < j ==> #[trigger] acc@[k].code@ != amount.currency@,
                    decreases acc@.len() - j + if found {
                        0int
                    } else {
                        1int
                    },
                {
                    if acc[j].code == amount.currency {
                        found = true;
                    } else {
                        j = j + 1;
                    }
                }
                if found {
                    proof {
                        lemma_currency_sum_bound(pre, acc@[j as int].code@);
                        assert(pre.len() * 0x8000_0000 + 0x8000_0000 <= 0x1_0000_0000_0000_0000i128
                            * 0x8000_0000) by (nonlinear_arith)
                            requires
                                pre.len() < 0x1_0000_0000_0000_0000,
                        ;
                    }
                    let updated = CodeSum {
                        code: acc[j].code.clone(),
                        sum: acc[j].sum + amount.value as i128,
                    };
                    acc[j] = updated;
                    proof {
                        assert(currency_list(pre)[j as int] == amount.currency@);
                        assert(currency_list(pre).contains(amount.currency@));
                        let list = currency_list(entries@.take(i + 1));
                        assert(list == currency_list(pre));
                        assert(forall|k: int|
                            0 <= k < acc@.len() && k != j ==> #[trigger] acc@[k].sum as int
                                == currency_sum(pre.push(e), acc@[k].code@)) by {
                            assert(forall|k: int|
                                0 <= k < acc@.len() && k != j ==> #[trigger] acc@[k].code@
                                    != amount.currency@);
                        }
                    }
                } else {
                    proof {
                        assert(!currency_list(pre).contains(amount.currency@)) by {
                            assert(forall|k: int|
                                0 <= k < acc@.len() ==> #[trigger] currency_list(pre)[k]
                                    == acc@[k].code@);
                        }
                        lemma_absent_currency_sum(pre, amount.currency@);
                    }
                    acc.push(CodeSum { code: amount.currency.clone(), sum: amount.value as i128 });
                    proof {
                        let list1 = currency_list(entries@.take(i + 1));
                        assert(list1 == currency_list(pre).push(amount.currency@));
                        assert(forall|k: int|
                            0 <= k < currency_list(pre).len() ==> #[trigger] list1[k]
                                == currency_list(pre)[k]);
                        assert(list1[list1.len() - 1] == amount.currency@);
                        assert(forall|k: int|
                            0 <= k < acc@.len() - 1 ==> #[trigger] acc@[k].code@
                                != amount.currency@) by {
                            assert(forall|k: int|
                                0 <= k < currency_list(pre).len() && currency_list(pre)[k]
                                    == amount.currency@ ==> currency_list(pre).contains(
                                    #[trigger] currency_list(pre)[k],
                                ));
                        }
                    }
                }
            },
        }
        i = i + 1;
    }
    proof {
        assert(entries@.take(i as int) =~= entries@);
        assert(currency_list(entries@.take(i as int)) == currency_list(entries@));
        assert(forall|j: int| #![trigger acc@[j]]
            0 <= j < acc@.len() ==> acc@[j].code@ == currency_list(entries@)[j]
                && acc@[j].sum as int == currency_sum(entries@, currency_list(entries@)[j]));
    }
    acc
}


/// Collect the currencies whose explicit amounts do not sum to zero, with
/// their sums, in order of first appearance.
fn unbalanced_sums(entries: &Vec<NewTransactionEntryData>) -> (r: Vec<CodeSum>)
    ensures
        r@.len() == unbalanced_list(entries@).len(),
        forall|j: int| #![trigger r@[j]]
            0 <= j < r@.len() ==> r@[j].code@ == unbalanced_list(entries@)[j]
                && r@[j].sum as int == currency_sum(entries@, unbalanced_list(entries@)[j])
                && r@[j].sum != 0,
{
    let sums = currency_sums(entries);
    let ghost list = currency_list(entries@);
    let mut out: Vec<CodeSum> = Vec::new();
    let mut i: usize = 0;
    proof {
        reveal(Seq::filter);
        assert(list.take(0) =~= Seq::<Seq<char>>::empty());
        assert(unbalanced_prefix(entries@, 0) =~= Seq::<Seq<char>>::empty());
    }
    while i < sums.len()
        invariant
            i <= sums@.len(),
            sums@.len() == list.len(),
            list == currency_list(entries@),
            forall|j: int| #![trigger sums@[j]]
                0 <= j < sums@.len() ==> sums@[j].code@ == list[j] && sums@[j].sum as int
                    == currency_sum(entries@, list[j]),
            out@.len() == unbalanced_prefix(entries@, i as int).len(),
            forall|j: int| #![trigger out@[j]]
                0 <= j < out@.len() ==> out@[j].code@ == unbalanced_prefix(entries@, i as int)[j]
                    && out@[j].sum as int == currency_sum(entries@, out@[j].code@) && out@[j].sum
                    != 0,
        decreases sums@.len() - i,
    {
        proof {
            reveal(Seq::filter);
            assert(list.take(i + 1).drop_last() =~= list.take(i as int));
            assert(list.take(i + 1).last() == list[i as int]);
        }
        if sums[i].sum != 0 {
            out.push(CodeSum { code: sums[i].code.clone(), sum: sums[i].sum });
            proof {
                assert(unbalanced_prefix(entries@, i + 1) =~= unbalanced_prefix(
                    entries@,
                    i as int,
                ).push(list[i as int]));
            }
        } else {
            proof {
                assert(unbalanced_prefix(entries@, i + 1) =~= unbalanced_prefix(
                    entries@,
                    i as int,
                ));
            }
        }
        i = i + 1;
    }
    proof {
        assert(unbalanced_prefix(entries@, list.len() as int) == unbalanced_list(entries@));
    }
    out
}

/// Whether the auto-balance rule applies: exactly one entry omits its amount
/// and exactly one currency's sum is not zero.
pub open spec fn balance_applies(s: Seq<NewTransactionEntryData>) -> bool {
    none_count(s) == 1 && unbalanced_list(s).len() == 1
}

/// The amount the balancing entry receives: the negation of the one non-zero
/// currency sum.
pub open spec fn balancing_currency(s: Seq<NewTransactionEntryData>) -> Seq<char> {
    unbalanced_list(s)[0]
}

pub open spec fn balancing_value(s: Seq<NewTransactionEntryData>) -> int {
    -currency_sum(s, balancing_currency(s))
}

/// An entry with no amount makes the count of missing amounts positive.
proof fn lemma_one_none(s: Seq<NewTransactionEntryData>, i: int)
    requires
        0 <= i < s.len(),
        s[i].amount is None,
    ensures
        none_count(s) >= 1,
    decreases s.len(),
{
    if i == s.len() - 1 {
        lemma_none_count_bounds(s.drop_last());
    } else {
        lemma_one_none(s.drop_last(), i);
    }
}

/// Two entries with no amount make the count at least two.
proof fn lemma_two_nones(s: Seq<NewTransactionEntryData>, i: int, j: int)
    requires
        0 <= i < j < s.len(),
        s[i].amount is None,
        s[j].amount is None,
    ensures
        none_count(s) >= 2,
    decreases s.len(),
{
    if j == s.len() - 1 {
        lemma_one_none(s.drop_last(), i);
    } else {
        lemma_two_nones(s.drop_last(), i, j);
    }
}

/// Attempt to auto-balance the entries of a transaction.
///
/// In the case where there is exactly one entry that does not specify an
/// amount and exactly one currency whose amounts do not sum to zero, that
/// entry's amount is set to the negation of the outstanding balance.
///
/// In all other cases, no changes are made to the entries.
pub fn try_balance(entries: &mut Vec<NewTransactionEntryData>)
    requires
        sums_fit(old(entries)@),
    ensures
        final (entries)@.len() == old(entries)@.len(),
        !balance_applies(old(entries)@) ==> final (entries)@ == old(entries)@,
        balance_applies(old(entries)@) ==> {
            &&& forall|i: int|
                0 <= i < old(entries)@.len() && old(entries)@[i].amount is Some
                    ==> #[trigger] final (entries)@[i] == old(entries)@[i]
            &&& forall|i: int|
                #![trigger final (entries)@[i]]
                0 <= i < old(entries)@.len() && old(entries)@[i].amount is None ==> {
                    &&& final (entries)@[i].account@ == old(entries)@[i].account@
                    &&& final (entries)@[i].amount is Some
                    &&& final (entries)@[i].amount->0.currency@ == balancing_currency(
                        old(entries)@,
                    )
                    &&& final (entries)@[i].amount->0.value as int == balancing_value(
                        old(entries)@,
                    )
                }
        },
{
    let ghost orig = entries@;

    // Find the single entry with no amount, if there is one.
    let mut first: Option<usize> = None;
    let mut count: usize = 0;
    let mut i: usize = 0;
    proof {
        assert(orig.take(0) =~= Seq::<NewTransactionEntryData>::empty());
    }
    while i < entries.len()
        invariant
            entries@ == orig,
            i <= orig.len(),
            count == none_count(orig.take(i as int)),
            match first {
                None => count == 0,
                Some(k) => k < i && orig[k as int].amount is None && count >= 1,
            },
        decreases orig.len() - i,
    {
        proof {
            assert(orig.take(i + 1) =~= orig.take(i as int).push(orig[i as int]));
            lemma_none_count_push(orig.take(i as int), orig[i as int]);
            lemma_none_count_bounds(orig.take(i as int));
        }
        if entries[i].amount.is_none() {
            if first.is_none() {
                first = Some(i);
            }
            count = count + 1;
        }
        i = i + 1;
    }
    proof {
        assert(orig.take(orig.len() as int) =~= orig);
    }

    let k = match first {
        None => {
            // No balancing entry: nothing to do.
            assert(none_count(orig) == 0);
            return ;
        },
        Some(k) => k,
    };
    if count != 1 {
        // Two or more entries omit their amount: balancing is impossible.
        return ;
    }

    let sums = unbalanced_sums(entries);
    if sums.len() != 1 {
        // Balancing needs exactly one currency with an outstanding balance.
        return ;
    }

    assert(balance_applies(orig));
    let code = sums[0].code.clone();
    let sum = sums[0].sum;
    assert(sum as int == currency_sum(orig, balancing_currency(orig)));
    assert(-0x7fff_ffff <= sum <= 0x7fff_ffff);
    let value: i32 = (-sum) as i32;

    let account = entries[k].account.clone();
    entries[k] = NewTransactionEntryData {
        account,
        amount: Some(NewTransactionEntryAmountData { currency: code, value }),
    };
    proof {
        assert(forall|i: int|
            0 <= i < orig.len() && i != k ==> #[trigger] entries@[i] == orig[i]);
        assert forall|i: int|
            0 <= i < orig.len() && orig[i].amount is None implies i == k by {
            if i < k {
                lemma_two_nones(orig, i, k as int);
            } else if i > k {
                lemma_two_nones(orig, k as int, i);
            }
        }
    }
}


impl NewTransactionEntryAmount {
    pub closed spec fn spec_currency(&self) -> Seq<char> {
        self.currency@
    }

    pub closed spec fn spec_value(&self) -> i32 {
        self.value
    }

    pub fn currency(&self) -> (r: &str)
        ensures
            r@ == self.spec_currency(),
    {
        self.currency.as_str()
    }

    pub fn value(&self) -> (r: i32)
        ensures
            r == self.spec_value(),
    {
        self.value
    }
}

impl NewTransactionEntry {
    pub closed spec fn spec_account(&self) -> Seq<char> {
        self.account@
    }

    pub closed spec fn spec_amount(&self) -> NewTransactionEntryAmount {
        self.amount
    }

    pub fn new(account: String, amount: NewTransactionEntryAmount) -> (r: Self)
        ensures
            r.spec_account() == account@,
            r.spec_amount() == amount,
    {
        Self { account, amount }
    }

    pub fn account(&self) -> (r: &str)
        ensures
            r@ == self.spec_account(),
    {
        self.account.as_str()
    }

    pub fn amount(&self) -> (r: &NewTransactionEntryAmount)
        ensures
            *r == self.spec_amount(),
    {
        &self.amount
    }
}

/// What a constructed entry contributes to the sum of a currency.
pub open spec fn built_contribution(e: NewTransactionEntry, code: Seq<char>) -> int {
    if e.spec_amount().spec_currency() == code {
        e.spec_amount().spec_value() as int
    } else {
        0
    }
}

/// The sum of a constructed transaction's entry values in currency `code`.
pub open spec fn entry_sum(s: Seq<NewTransactionEntry>, code: Seq<char>) -> int
    decreases s.len(),
{
    if s.len() == 0 {
        0
    } else {
        entry_sum(s.drop_last(), code) + built_contribution(s.last(), code)
    }
}

/// The double-entry invariant: for every currency, the entry values sum to
/// exactly zero.
pub open spec fn balanced(s: Seq<NewTransactionEntry>) -> bool {
    forall|c: Seq<char>| #[trigger] entry_sum(s, c) == 0
}

/// The constructed entries carry the raw entries' accounts and amounts, in
/// order.
pub open spec fn built_from(
    data: Seq<NewTransactionEntryData>,
    built: Seq<NewTransactionEntry>,
) -> bool {
    &&& built.len() == data.len()
    &&& forall|i: int| #![trigger built[i]]
        0 <= i < data.len() ==> {
            &&& built[i].spec_account() == data[i].account@
            &&& data[i].amount is Some
            &&& built[i].spec_amount().spec_currency() == data[i].amount->0.currency@
            &&& built[i].spec_amount().spec_value() == data[i].amount->0.value
        }
}

/// The per-field errors of the structural validation stage, in field order:
/// too few entries, an empty payee, then each empty account name by index.
pub open spec fn empty_account_errs(
    s: Seq<NewTransactionEntryData>,
    k: int,
) -> Seq<NewTransactionError>
    decreases k,
{
    if k <= 0 {
        Seq::empty()
    } else {
        empty_account_errs(s, k - 1) + if s[k - 1].account@.len() == 0 {
            seq![NewTransactionError::EmptyAccount((k - 1) as usize)]
        } else {
            Seq::empty()
        }
    }
}

pub open spec fn structural_errors(data: NewTransactionData) -> Seq<NewTransactionError> {
    (if data.entries@.len() < 2 {
        seq![NewTransactionError::NoEntries]
    } else {
        Seq::empty()
    }) + (if data.payee@.len() == 0 {
        seq![NewTransactionError::EmptyPayee]
    } else {
        Seq::empty()
    }) + empty_account_errs(data.entries@, data.entries@.len() as int)
}

/// The view of optional notes.
pub open spec fn notes_view(notes: Option<String>) -> Option<Seq<char>> {
    match notes {
        None => None,
        Some(n) => Some(n@),
    }
}

/// Replacing one entry moves each currency sum by the difference of the two
/// entries' contributions.
proof fn lemma_currency_sum_update(
    s: Seq<NewTransactionEntryData>,
    k: int,
    e: NewTransactionEntryData,
    c: Seq<char>,
)
    requires
        0 <= k < s.len(),
    ensures
        currency_sum(s.update(k, e), c) == currency_sum(s, c) - entry_contribution(s[k], c)
            + entry_contribution(e, c),
    decreases s.len(),
{
    let u = s.update(k, e);
    if k == s.len() - 1 {
        assert(u.drop_last() =~= s.drop_last());
        assert(u.last() == e);
    } else {
        assert(u.drop_last() =~= s.drop_last().update(k, e));
        assert(u.last() == s.last());
        lemma_currency_sum_update(s.drop_last(), k, e, c);
    }
}

/// Constructed entries sum exactly as the raw entries they were built from.
proof fn lemma_built_sum(
    data: Seq<NewTransactionEntryData>,
    built: Seq<NewTransactionEntry>,
    c: Seq<char>,
)
    requires
        built_from(data, built),
    ensures
        entry_sum(built, c) == currency_sum(data, c),
    decreases data.len(),
{
    if data.len() > 0 {
        assert(built_from(data.drop_last(), built.drop_last())) by {
            assert(forall|i: int|
                0 <= i < data.len() - 1 ==> #[trigger] built.drop_last()[i] == built[i]);
        }
        lemma_built_sum(data.drop_last(), built.drop_last(), c);
        assert(built.last() == built[data.len() - 1]);
        assert(built_contribution(built.last(), c) == entry_contribution(data.last(), c));
    }
}

/// A currency that appears with a non-zero sum stands in the unbalanced list.
proof fn lemma_unbalanced_mem(s: Seq<NewTransactionEntryData>, j: int, k: int)
    requires
        0 <= j < k <= currency_list(s).len(),
        currency_sum(s, currency_list(s)[j]) != 0,
    ensures
        unbalanced_prefix(s, k).contains(currency_list(s)[j]),
    decreases k,
{
    reveal(Seq::filter);
    let list = currency_list(s);
    assert(list.take(k).drop_last() =~= list.take(k - 1));
    assert(list.take(k).last() == list[k - 1]);
    if k == j + 1 {
        assert(unbalanced_prefix(s, k).last() == list[j]);
    } else {
        lemma_unbalanced_mem(s, j, k - 1);
        let pre = unbalanced_prefix(s, k - 1);
        let i = choose|i: int| 0 <= i < pre.len() && pre[i] == list[j];
        if currency_sum(s, list[k - 1]) != 0 {
            assert(unbalanced_prefix(s, k) == pre.push(list[k - 1]));
            assert(unbalanced_prefix(s, k)[i] == list[j]);
        } else {
            assert(unbalanced_prefix(s, k) == pre);
        }
    }
}

/// With an empty unbalanced list, every currency sums to zero.
proof fn lemma_all_balanced(s: Seq<NewTransactionEntryData>, c: Seq<char>)
    requires
        unbalanced_list(s).len() == 0,
    ensures
        currency_sum(s, c) == 0,
{
    let list = currency_list(s);
    if list.contains(c) {
        let j = choose|j: int| 0 <= j < list.len() && list[j] == c;
        if currency_sum(s, c) != 0 {
            lemma_unbalanced_mem(s, j, list.len() as int);
        }
    } else {
        lemma_absent_currency_sum(s, c);
    }
}

/// With a one-element unbalanced list, every other currency sums to zero.
proof fn lemma_one_unbalanced(s: Seq<NewTransactionEntryData>, c: Seq<char>)
    requires
        unbalanced_list(s).len() == 1,
        c != unbalanced_list(s)[0],
    ensures
        currency_sum(s, c) == 0,
{
    let list = currency_list(s);
    if list.contains(c) {
        let j = choose|j: int| 0 <= j < list.len() && list[j] == c;
        if currency_sum(s, c) != 0 {
            lemma_unbalanced_mem(s, j, list.len() as int);
            let u = unbalanced_list(s);
            let i = choose|i: int| 0 <= i < u.len() && u[i] == c;
            assert(u[0] == c);
        }
    } else {
        lemma_absent_currency_sum(s, c);
    }
}

/// When no entry omits its amount, every entry carries one.
proof fn lemma_no_nones(s: Seq<NewTransactionEntryData>, i: int)
    requires
        none_count(s) == 0,
        0 <= i < s.len(),
    ensures
        s[i].amount is Some,
{
    if s[i].amount is None {
        lemma_one_none(s, i);
    }
}

/// When every entry carries an amount, none is counted missing.
proof fn lemma_all_some(s: Seq<NewTransactionEntryData>)
    requires
        forall|i: int| 0 <= i < s.len() ==> #[trigger] s[i].amount is Some,
    ensures
        none_count(s) == 0,
    decreases s.len(),
{
    if s.len() > 0 {
        assert(forall|i: int|
            0 <= i < s.len() - 1 ==> #[trigger] s.drop_last()[i] == s[i]);
        lemma_all_some(s.drop_last());
    }
}

/// Build the constructed entries from raw entries that all carry an amount.
fn build_entries(entries: &Vec<NewTransactionEntryData>) -> (r: Vec<NewTransactionEntry>)
    requires
        none_count(entries@) == 0,
    ensures
        built_from(entries@, r@),
{
    let mut out: Vec<NewTransactionEntry> = Vec::new();
    let mut i: usize = 0;
    while i < entries.len()
        invariant
            i <= entries@.len(),
            none_count(entries@) == 0,
            out@.len() == i,
            forall|j: int| #![trigger out@[j]]
                0 <= j < i ==> {
                    &&& out@[j].spec_account() == entries@[j].account@
                    &&& entries@[j].amount is Some
                    &&& out@[j].spec_amount().spec_currency() == entries@[j].amount->0.currency@
                    &&& out@[j].spec_amount().spec_value() == entries@[j].amount->0.value
                },
        decreases entries@.len() - i,
    {
        proof {
            lemma_no_nones(entries@, i as int);
        }
        let account = entries[i].account.clone();
        match &entries[i].amount {
            Some(amount) => {
                out.push(
                    NewTransactionEntry {
                        account,
                        amount: NewTransactionEntryAmount {
                            currency: amount.currency.clone(),
                            value: amount.value,
                        },
                    },
                );
            },
            None => {
                proof {
                    assert(false);
                }
            },
        }
        i = i + 1;
    }
    out
}

/// Narrow wide sums to the amount type; the caller guarantees they fit.
fn narrow_sums(sums: Vec<CodeSum>, ghost_entries: Ghost<Seq<NewTransactionEntryData>>) -> (r: Vec<
    CurrencySum,
>)
    requires
        sums_fit(ghost_entries@),
        forall|j: int| #![trigger sums@[j]]
            0 <= j < sums@.len() ==> sums@[j].sum as int == currency_sum(
                ghost_entries@,
                sums@[j].code@,
            ),
    ensures
        r@.len() == sums@.len(),
        forall|j: int| #![trigger r@[j]]
            0 <= j < r@.len() ==> r@[j].currency@ == sums@[j].code@ && r@[j].sum as int
                == sums@[j].sum as int,
{
    let mut out: Vec<CurrencySum> = Vec::new();
    let mut i: usize = 0;
    while i < sums.len()
        invariant
            i <= sums@.len(),
            sums_fit(ghost_entries@),
            forall|j: int| #![trigger sums@[j]]
                0 <= j < sums@.len() ==> sums@[j].sum as int == currency_sum(
                    ghost_entries@,
                    sums@[j].code@,
                ),
            out@.len() == i,
            forall|j: int| #![trigger out@[j]]
                0 <= j < i ==> out@[j].currency@ == sums@[j].code@ && out@[j].sum as int
                    == sums@[j].sum as int,
        decreases sums@.len() - i,
    {
        proof {
            assert(currency_sum(ghost_entries@, sums@[i as int].code@) == sums@[i as int].sum);
        }
        out.push(CurrencySum { currency: sums[i].code.clone(), sum: sums[i].sum as i32 });
        i = i + 1;
    }
    out
}


impl NewTransaction {
    pub closed spec fn spec_user_id(&self) -> Seq<char> {
        self.user_id@
    }

    pub closed spec fn spec_date(&self) -> Date {
        self.date
    }

    pub closed spec fn spec_payee(&self) -> Seq<char> {
        self.payee@
    }

    pub closed spec fn spec_notes(&self) -> Option<Seq<char>> {
        notes_view(self.notes)
    }

    pub closed spec fn spec_entries(&self) -> Seq<NewTransactionEntry> {
        self.entries@
    }

    pub fn user_id(&self) -> (r: &str)
        ensures
            r@ == self.spec_user_id(),
    {
        self.user_id.as_str()
    }

    pub fn date(&self) -> (r: Date)
        ensures
            r == self.spec_date(),
    {
        self.date
    }

    pub fn payee(&self) -> (r: &str)
        ensures
            r@ == self.spec_payee(),
    {
        self.payee.as_str()
    }

    pub fn notes(&self) -> (r: Option<&str>)
        ensures
            match r {
                None => self.spec_notes() is None,
                Some(n) => self.spec_notes() is Some && n@ == self.spec_notes()->0,
            },
    {
        match &self.notes {
            None => None,
            Some(n) => Some(n.as_str()),
        }
    }

    pub fn entries(&self) -> (r: &[NewTransactionEntry])
        ensures
            r@ == self.spec_entries(),
    {
        self.entries.as_slice()
    }
}

/// Whether every per-currency sum of the raw entries stays within the range
/// the amount type can carry and negate.
pub fn sums_within_range(entries: &Vec<NewTransactionEntryData>) -> (r: bool)
    ensures
        r == sums_fit(entries@),
{
    let sums = currency_sums(entries);
    let mut i: usize = 0;
    while i < sums.len()
        invariant
            i <= sums@.len(),
            sums@.len() == currency_list(entries@).len(),
            forall|j: int| #![trigger sums@[j]]
                0 <= j < sums@.len() ==> sums@[j].code@ == currency_list(entries@)[j]
                    && sums@[j].sum as int == currency_sum(entries@, currency_list(entries@)[j]),
            forall|j: int|
                0 <= j < i ==> -0x7fff_ffff <= #[trigger] sums@[j].sum <= 0x7fff_ffff,
        decreases sums@.len() - i,
    {
        if sums[i].sum < -0x7fff_ffff || sums[i].sum > 0x7fff_ffff {
            proof {
                assert(currency_sum(entries@, sums@[i as int].code@) == sums@[i as int].sum);
            }
            return false;
        }
        i = i + 1;
    }
    proof {
        assert forall|c: Seq<char>|
            -0x7fff_ffff <= #[trigger] currency_sum(entries@, c) <= 0x7fff_ffff by {
            let list = currency_list(entries@);
            if list.contains(c) {
                let j = choose|j: int| 0 <= j < list.len() && list[j] == c;
                assert(sums@[j].code@ == c && sums@[j].sum as int == currency_sum(entries@, c));
            } else {
                lemma_absent_currency_sum(entries@, c);
            }
        }
    }
    true
}

impl NewTransaction {
    /// Construct a new transaction from a set of input data.
    ///
    /// The data passes structural validation first: it must hold at least
    /// two entries, a payee, and no empty account name. At most one entry
    /// may omit its amount; when exactly one currency's amounts do not sum
    /// to zero, that entry receives the negated remainder. Entries that do
    /// not balance, an unused balancing entry, or a second entry with no
    /// amount are each rejected with an error that names the field, and a
    /// constructed transaction is always balanced.
    pub fn from_data(user_id: &str, data: NewTransactionData) -> (r: Result<
        NewTransaction,
        Vec<NewTransactionError>,
    >)
        requires
            sums_fit(data.entries@),
        ensures
            structural_errors(data).len() > 0 ==> (r matches Err(es) && es@ == structural_errors(
                data,
            )),
            structural_errors(data).len() == 0 && none_count(data.entries@) >= 2 ==> (r
                matches Err(es) && es@.len() == 1 && (es@[0]
                matches NewTransactionError::DuplicateMissingAmount(k) && 0 <= k
                < data.entries@.len() && data.entries@[k as int].amount is None && none_count(
                data.entries@.take(k as int),
            ) == 1)),
            structural_errors(data).len() == 0 && none_count(data.entries@) == 1
                && unbalanced_list(data.entries@).len() == 0 ==> (r matches Err(es) && es@.len()
                == 1 && (es@[0] matches NewTransactionError::RequiredAmount(k) && 0 <= k
                < data.entries@.len() && data.entries@[k as int].amount is None)),
            structural_errors(data).len() == 0 && ((none_count(data.entries@) == 0
                && unbalanced_list(data.entries@).len() > 0) || (none_count(data.entries@) == 1
                && unbalanced_list(data.entries@).len() >= 2)) ==> (r matches Err(es) && es@.len()
                == 1 && (es@[0] matches NewTransactionError::Unbalanced(v) && v@.len()
                == unbalanced_list(data.entries@).len() && (forall|j: int| #![trigger v@[j]]
                0 <= j < v@.len() ==> v@[j].currency@ == unbalanced_list(data.entries@)[j]
                    && v@[j].sum as int == currency_sum(
                    data.entries@,
                    unbalanced_list(data.entries@)[j],
                )))),
            structural_errors(data).len() == 0 && none_count(data.entries@) == 0
                && unbalanced_list(data.entries@).len() == 0 ==> (r matches Ok(t)
                && built_from(data.entries@, t.spec_entries())),
            structural_errors(data).len() == 0 && balance_applies(data.entries@) ==> (r
                matches Ok(t) && t.spec_entries().len() == data.entries@.len() && (forall|i: int|
                #![trigger t.spec_entries()[i]]
                0 <= i < data.entries@.len() ==> {
                    &&& t.spec_entries()[i].spec_account() == data.entries@[i].account@
                    &&& (data.entries@[i].amount is Some ==> t.spec_entries()[
                        i
                    ].spec_amount().spec_currency() == data.entries@[i].amount->0.currency@
                        && t.spec_entries()[i].spec_amount().spec_value() == data.entries@[
                        i
                    ].amount->0.value)
                    &&& (data.entries@[i].amount is None ==> t.spec_entries()[
                        i
                    ].spec_amount().spec_currency() == balancing_currency(data.entries@)
                        && t.spec_entries()[i].spec_amount().spec_value() as int
                        == balancing_value(data.entries@))
                })),
            r matches Ok(t) ==> t.spec_user_id() == user_id@ && t.spec_date() == data.date
                && t.spec_payee() == data.payee@ && t.spec_notes() == notes_view(data.notes)
                && balanced(t.spec_entries()),
            r matches Ok(t) ==> structural_errors(data).len() == 0 && (none_count(data.entries@)
                == 0 && unbalanced_list(data.entries@).len() == 0 || balance_applies(
                data.entries@,
            )),
    {
        let ghost d = data;
        let NewTransactionData { date, payee, notes, entries: mut entries } = data;
        let ghost orig = entries@;

        // Structural validation: at least two entries, a payee, and no empty
        // account names.
        let mut errs: Vec<NewTransactionError> = Vec::new();
        if entries.len() < 2 {
            errs.push(NewTransactionError::NoEntries);
        }
        if payee.as_str().is_empty() {
            errs.push(NewTransactionError::EmptyPayee);
        }
        let ghost head = errs@;
        let mut i: usize = 0;
        while i < entries.len()
            invariant
                i <= orig.len(),
                entries@ == orig,
                errs@ == head + empty_account_errs(orig, i as int),
            decreases orig.len() - i,
        {
            if entries[i].account.as_str().is_empty() {
                errs.push(NewTransactionError::EmptyAccount(i));
                proof {
                    assert(errs@ =~= head + empty_account_errs(orig, i + 1));
                }
            } else {
                proof {
                    assert(errs@ =~= head + empty_account_errs(orig, i + 1));
                }
            }
            i = i + 1;
        }
        if errs.len() > 0 {
            proof {
                assert(errs@ =~= structural_errors(d));
            }
            return Err(errs);
        }
        assert(structural_errors(d).len() == 0);

        // Count the entries that omit an amount; remember the first and
        // second.
        let mut first: Option<usize> = None;
        let mut second: Option<usize> = None;
        let mut count: usize = 0;
        let mut i2: usize = 0;
        proof {
            assert(orig.take(0) =~= Seq::<NewTransactionEntryData>::empty());
        }
        while i2 < entries.len()
            invariant
                i2 <= orig.len(),
                entries@ == orig,
                count == none_count(orig.take(i2 as int)),
                count <= i2,
                match first {
                    None => count == 0,
                    Some(k) => k < i2 && orig[k as int].amount is None && none_count(
                        orig.take(k as int),
                    ) == 0 && count >= 1,
                },
                match second {
                    None => count <= 1,
                    Some(k) => k < i2 && orig[k as int].amount is None && none_count(
                        orig.take(k as int),
                    ) == 1 && count >= 2,
                },
            decreases orig.len() - i2,
        {
            proof {
                assert(orig.take(i2 + 1) =~= orig.take(i2 as int).push(orig[i2 as int]));
                lemma_none_count_push(orig.take(i2 as int), orig[i2 as int]);
                lemma_none_count_bounds(orig.take(i2 as int));
            }
            if entries[i2].amount.is_none() {
                if count == 0 {
                    first = Some(i2);
                } else if count == 1 {
                    second = Some(i2);
                }
                count = count + 1;
            }
            i2 = i2 + 1;
        }
        proof {
            assert(orig.take(orig.len() as int) =~= orig);
        }

        if count >= 2 {
            match second {
                Some(k2) => {
                    return Err(vec![NewTransactionError::DuplicateMissingAmount(k2)]);
                },
                None => {
                    proof {
                        assert(false);
                    }
                    return Err(Vec::new());
                },
            }
        }

        let sums = unbalanced_sums(&entries);

        if count == 1 {
            let k = match first {
                Some(k) => k,
                None => {
                    proof {
                        assert(false);
                    }
                    return Err(Vec::new());
                },
            };
            if sums.len() == 0 {
                // The balancing entry has nothing to absorb: its amount is
                // required.
                return Err(vec![NewTransactionError::RequiredAmount(k)]);
            }
            if sums.len() >= 2 {
                let list = narrow_sums(sums, Ghost(orig));
                return Err(vec![NewTransactionError::Unbalanced(list)]);
            }
            // Exactly one unbalanced currency: fill the balancing entry.
            assert(balance_applies(orig));
            try_balance(&mut entries);
            let ghost filled = entries@;
            proof {
                assert forall|j: int| 0 <= j < filled.len() implies #[trigger] filled[j].amount
                    is Some by {
                    if orig[j].amount is None {
                    } else {
                        assert(filled[j] == orig[j]);
                    }
                }
                lemma_all_some(filled);
                assert forall|j: int|
                    0 <= j < orig.len() && j != k implies #[trigger] orig[j].amount is Some by {
                    if orig[j].amount is None {
                        if j < k {
                            lemma_two_nones(orig, j, k as int);
                        } else {
                            lemma_two_nones(orig, k as int, j);
                        }
                    }
                }
            }
            let built = build_entries(&entries);
            let t = NewTransaction {
                user_id: user_id.to_owned(),
                date,
                payee,
                notes,
                entries: built,
            };
            proof {
                let e = filled[k as int];
                assert(filled =~= orig.update(k as int, e));
                assert forall|c: Seq<char>| #[trigger] entry_sum(t.spec_entries(), c) == 0 by {
                    lemma_built_sum(filled, t.spec_entries(), c);
                    lemma_currency_sum_update(orig, k as int, e, c);
                    if c == balancing_currency(orig) {
                    } else {
                        lemma_one_unbalanced(orig, c);
                    }
                }
            }
            return Ok(t);
        }

        // No entry omits an amount: the entries must already balance.
        if sums.len() > 0 {
            let list = narrow_sums(sums, Ghost(orig));
            return Err(vec![NewTransactionError::Unbalanced(list)]);
        }
        let built = build_entries(&entries);
        let t = NewTransaction { user_id: user_id.to_owned(), date, payee, notes, entries: built };
        proof {
            assert forall|c: Seq<char>| #[trigger] entry_sum(t.spec_entries(), c) == 0 by {
                lemma_built_sum(orig, t.spec_entries(), c);
                lemma_all_balanced(orig, c);
            }
        }
        Ok(t)
    }
}

} // verus!
