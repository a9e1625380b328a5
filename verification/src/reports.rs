//! Balance reporting.
//!
//! Reports answer what an account's balance is and how it moved over time.
//! Every report first flattens the store into the rows relevant to one user
//! and account subtree — one row per matching entry — and then aggregates
//! those rows: a single sum per currency, per-month sums, or a running
//! cumulative balance per reporting period.

use vstd::prelude::*;

use crate::currency::Currency;
use crate::dates::{date_le, date_lt, spec_truncate, truncate, Date, ReportInterval};
use crate::store::{account_matches, account_matches_spec, LedgerStore, Transaction, TransactionEntry, ENTRY_CAP};

verus! {

/// One matching entry, flattened for aggregation: the transaction's date and
/// the entry's currency and value.
#[derive(Debug)]
pub struct ReportRow {
    pub date: Date,
    pub currency: Currency,
    pub value: i32,
}

/// One currency's exact balance.
#[derive(Debug)]
pub struct CurrencyBalance {
    pub currency: Currency,
    pub amount: i64,
}

/// Whether some row carries exactly this currency.
pub open spec fn rows_contain_currency(rows: Seq<ReportRow>, c: Currency) -> bool {
    exists|i: int| 0 <= i < rows.len() && (#[trigger] rows[i]).currency == c
}

/// The currency codes of the rows, in order of first appearance, each once.
pub open spec fn rows_code_list(rows: Seq<ReportRow>) -> Seq<Seq<char>>
    decreases rows.len(),
{
    if rows.len() == 0 {
        Seq::empty()
    } else {
        let rest = rows_code_list(rows.drop_last());
        if rest.contains(rows.last().currency.spec_code()) {
            rest
        } else {
            rest.push(rows.last().currency.spec_code())
        }
    }
}

/// What a correct per-currency grouping of `rs` looks like: one element for
/// each appearing currency, in order of first appearance, each carrying that
/// currency's exact sum.
pub open spec fn balances_for(bs: Seq<CurrencyBalance>, rs: Seq<ReportRow>) -> bool {
    &&& bs.len() == rows_code_list(rs).len()
    &&& forall|k: int| #![trigger bs[k]]
        0 <= k < bs.len() ==> bs[k].currency.spec_code() == rows_code_list(rs)[k]
    &&& forall|k: int| #![trigger bs[k]]
        0 <= k < bs.len() ==> bs[k].amount as int == rows_code_sum(rs, bs[k].currency.spec_code())
            && rows_contain_currency(rs, bs[k].currency)
    &&& forall|i: int| #![trigger rs[i]]
        0 <= i < rs.len() ==> contains_code(bs, rs[i].currency.spec_code())
    &&& forall|j: int, k: int|
        0 <= j < k < bs.len() ==> (#[trigger] bs[j]).currency.spec_code() != (
        #[trigger] bs[k]).currency.spec_code()
}

/// Whether some balance in the list carries this currency code.
pub open spec fn contains_code(r: Seq<CurrencyBalance>, code: Seq<char>) -> bool {
    exists|j: int| 0 <= j < r.len() && (#[trigger] r[j]).currency.spec_code() == code
}

/// Balances sorted strictly ascending by currency code.
pub open spec fn sorted_by_code(bs: Seq<CurrencyBalance>) -> bool {
    forall|j: int, k: int|
        0 <= j < k < bs.len() ==> crate::text::lex_lt(
            (#[trigger] bs[j]).currency.spec_code(),
            (#[trigger] bs[k]).currency.spec_code(),
        )
}

/// Whether the balance `b` stands somewhere in `bs`.
pub open spec fn balances_contain(bs: Seq<CurrencyBalance>, b: CurrencyBalance) -> bool {
    exists|j: int| 0 <= j < bs.len() && #[trigger] bs[j] == b
}

/// Whether the balance `b` stands among the first `n` elements of `v`.
spec fn balances_contain_prefix(v: Seq<CurrencyBalance>, n: int, b: CurrencyBalance) -> bool {
    exists|k: int| 0 <= k < n && #[trigger] v[k] == b
}

/// Sort balances ascending by currency code. The input codes must be
/// pairwise distinct; the output holds exactly the input balances.
#[verifier::rlimit(100)]
fn sort_balances(v: Vec<CurrencyBalance>) -> (r: Vec<CurrencyBalance>)
    requires
        forall|j: int, k: int|
            0 <= j < k < v@.len() ==> (#[trigger] v@[j]).currency.spec_code() != (
            #[trigger] v@[k]).currency.spec_code(),
    ensures
        r@.len() == v@.len(),
        sorted_by_code(r@),
        forall|j: int| 0 <= j < r@.len() ==> balances_contain(v@, #[trigger] r@[j]),
        forall|k: int| 0 <= k < v@.len() ==> balances_contain(r@, #[trigger] v@[k]),
{
    let mut out: Vec<CurrencyBalance> = Vec::new();
    let mut i: usize = 0;
    while i < v.len()
        invariant
            i <= v@.len(),
            forall|j: int, k: int|
                0 <= j < k < v@.len() ==> (#[trigger] v@[j]).currency.spec_code() != (
                #[trigger] v@[k]).currency.spec_code(),
            out@.len() == i,
            sorted_by_code(out@),
            forall|j: int|
                0 <= j < out@.len() ==> balances_contain_prefix(
                    v@,
                    i as int,
                    #[trigger] out@[j],
                ),
            forall|k: int| 0 <= k < i ==> balances_contain(out@, #[trigger] v@[k]),
        decreases v@.len() - i,
    {
        let x = CurrencyBalance { currency: v[i].currency.clone(), amount: v[i].amount };
        proof {
            assert(x == v@[i as int]);
            // The new code differs from every code already placed.
            assert forall|j: int|
                0 <= j < out@.len() implies (#[trigger] out@[j]).currency.spec_code()
                != x.currency.spec_code() by {
                let k = choose|k: int| 0 <= k < i && #[trigger] v@[k] == out@[j];
                assert(v@[k].currency.spec_code() != v@[i as int].currency.spec_code());
            }
        }
        // Find where the code sorts in.
        let m = out.len();
        let mut pos: usize = 0;
        let mut scan: usize = 0;
        while scan < m
            invariant
                m == out@.len(),
                scan <= m,
                pos <= scan,
                pos == scan || pos < m,
                pos < scan ==> scan == m && crate::text::lex_lt(
                    x.currency.spec_code(),
                    out@[pos as int].currency.spec_code(),
                ),
                forall|k: int|
                    0 <= k < pos ==> crate::text::lex_lt(
                        (#[trigger] out@[k]).currency.spec_code(),
                        x.currency.spec_code(),
                    ) || out@[k].currency.spec_code() == x.currency.spec_code(),
            decreases m - scan,
        {
            if crate::text::str_lt(x.currency.code(), out[scan].currency.code()) {
                pos = scan;
                scan = m;
            } else {
                proof {
                    crate::text::lemma_lex_trichotomy(
                        out@[scan as int].currency.spec_code(),
                        x.currency.spec_code(),
                    );
                }
                pos = scan + 1;
                scan = scan + 1;
            }
        }
        let ghost before = out@;
        out.insert(pos, x);
        proof {
            assert(out@ == before.insert(pos as int, x));
            assert(forall|k: int| 0 <= k < pos ==> #[trigger] out@[k] == before[k]);
            assert(out@[pos as int] == x);
            assert(forall|k: int| pos < k < out@.len() ==> #[trigger] out@[k] == before[k - 1]);
            assert forall|a: int, b: int| 0 <= a < b < out@.len() implies crate::text::lex_lt(
                (#[trigger] out@[a]).currency.spec_code(),
                (#[trigger] out@[b]).currency.spec_code(),
            ) by {
                if b < pos {
                } else if a < pos && b == pos {
                    assert(crate::text::lex_lt(
                        before[a].currency.spec_code(),
                        x.currency.spec_code(),
                    ) || before[a].currency.spec_code() == x.currency.spec_code());
                    assert(before[a].currency.spec_code() != x.currency.spec_code());
                } else if a < pos && b > pos {
                    assert(out@[b] == before[b - 1]);
                } else if a == pos {
                    assert(out@[b] == before[b - 1] && b - 1 >= pos);
                    if b - 1 == pos {
                        assert(crate::text::lex_lt(
                            x.currency.spec_code(),
                            before[pos as int].currency.spec_code(),
                        ));
                    } else {
                        assert(crate::text::lex_lt(
                            x.currency.spec_code(),
                            before[pos as int].currency.spec_code(),
                        ));
                        assert(crate::text::lex_lt(
                            before[pos as int].currency.spec_code(),
                            before[b - 1].currency.spec_code(),
                        ));
                        crate::text::lemma_lex_trans(
                            x.currency.spec_code(),
                            before[pos as int].currency.spec_code(),
                            before[b - 1].currency.spec_code(),
                        );
                    }
                } else {
                    assert(out@[a] == before[a - 1] && out@[b] == before[b - 1]);
                }
            }
            assert forall|j: int|
                0 <= j < out@.len() implies balances_contain_prefix(
                v@,
                i + 1,
                #[trigger] out@[j],
            ) by {
                if j < pos {
                    let k = choose|k: int| 0 <= k < i && #[trigger] v@[k] == before[j];
                    assert(v@[k] == out@[j]);
                } else if j == pos {
                    assert(v@[i as int] == out@[j]);
                } else {
                    let k = choose|k: int| 0 <= k < i && #[trigger] v@[k] == before[j - 1];
                    assert(v@[k] == out@[j]);
                }
            }
            assert forall|k: int| 0 <= k < i + 1 implies balances_contain(
                out@,
                #[trigger] v@[k],
            ) by {
                if k < i {
                    let j = choose|j: int| 0 <= j < before.len() && #[trigger] before[j] == v@[k];
                    if j < pos {
                        assert(out@[j] == v@[k]);
                    } else {
                        assert(out@[j + 1] == v@[k]);
                    }
                } else {
                    assert(out@[pos as int] == v@[k]);
                }
            }
        }
        i = i + 1;
    }
    proof {
        assert forall|j: int| 0 <= j < out@.len() implies balances_contain(
            v@,
            #[trigger] out@[j],
        ) by {
            let k = choose|k: int| 0 <= k < i && #[trigger] v@[k] == out@[j];
            assert(v@[k] == out@[j]);
        }
    }
    out
}

/// The rows one transaction contributes for an account filter: one per entry
/// on the account or below it.
pub open spec fn entry_rows(es: Seq<TransactionEntry>, date: Date, account: Seq<char>) -> Seq<
    ReportRow,
>
    decreases es.len(),
{
    if es.len() == 0 {
        Seq::empty()
    } else {
        entry_rows(es.drop_last(), date, account) + if account_matches_spec(
            es.last().spec_account(),
            account,
        ) {
            seq![
                ReportRow {
                    date,
                    currency: es.last().spec_amount().spec_currency(),
                    value: es.last().spec_amount().spec_value(),
                },
            ]
        } else {
            Seq::empty()
        }
    }
}

/// The rows the whole store contributes for one user and account filter.
pub open spec fn spec_rows(s: Seq<Transaction>, user: Seq<char>, account: Seq<char>) -> Seq<
    ReportRow,
>
    decreases s.len(),
{
    if s.len() == 0 {
        Seq::empty()
    } else {
        spec_rows(s.drop_last(), user, account) + if s.last().user_id@ == user {
            entry_rows(s.last().entries@, s.last().date, account)
        } else {
            Seq::empty()
        }
    }
}

/// The sum of the rows carried in one currency.
pub open spec fn rows_code_sum(rows: Seq<ReportRow>, code: Seq<char>) -> int
    decreases rows.len(),
{
    if rows.len() == 0 {
        0
    } else {
        rows_code_sum(rows.drop_last(), code) + if rows.last().currency.spec_code() == code {
            rows.last().value as int
        } else {
            0
        }
    }
}

proof fn lemma_rows_code_sum_bound(rows: Seq<ReportRow>, code: Seq<char>)
    ensures
        -(rows.len() as int) * 0x8000_0000 <= rows_code_sum(rows, code) <= (rows.len() as int)
            * 0x8000_0000,
    decreases rows.len(),
{
    if rows.len() > 0 {
        lemma_rows_code_sum_bound(rows.drop_last(), code);
        assert((rows.len() - 1) * 0x8000_0000 + 0x8000_0000 == (rows.len() as int) * 0x8000_0000)
            by (nonlinear_arith);
    }
}

proof fn lemma_entry_rows_len(es: Seq<TransactionEntry>, date: Date, account: Seq<char>)
    ensures
        entry_rows(es, date, account).len() <= es.len(),
    decreases es.len(),
{
    if es.len() > 0 {
        lemma_entry_rows_len(es.drop_last(), date, account);
    }
}

proof fn lemma_spec_rows_len(s: Seq<Transaction>, user: Seq<char>, account: Seq<char>)
    ensures
        spec_rows(s, user, account).len() <= crate::store::total_entries(s),
    decreases s.len(),
{
    if s.len() > 0 {
        lemma_spec_rows_len(s.drop_last(), user, account);
        lemma_entry_rows_len(s.last().entries@, s.last().date, account);
    }
}

impl LedgerStore {
    /// Flatten the store into the report rows for one user and account
    /// subtree.
    fn collect_rows(&self, user_id: &str, account_name: &str) -> (r: Vec<ReportRow>)
        requires
            self.wf(),
        ensures
            r@ == spec_rows(self.spec_transactions(), user_id@, account_name@),
            r@.len() <= ENTRY_CAP,
            forall|i: int| 0 <= i < r@.len() ==> (#[trigger] r@[i]).date.wf(),
    {
        let ghost all = self.spec_transactions();
        let mut rows: Vec<ReportRow> = Vec::new();
        let txs = self.transactions_ref();
        let mut ti: usize = 0;
        proof {
            assert(all.take(0) =~= Seq::<Transaction>::empty());
            lemma_spec_rows_len(all, user_id@, account_name@);
        }
        while ti < txs.len()
            invariant
                self.wf(),
                txs@ == all,
                all == self.spec_transactions(),
                ti <= all.len(),
                rows@ == spec_rows(all.take(ti as int), user_id@, account_name@),
                rows@.len() <= ENTRY_CAP,
                forall|k: int| 0 <= k < rows@.len() ==> (#[trigger] rows@[k]).date.wf(),
            decreases all.len() - ti,
        {
            let ghost pre = all.take(ti as int);
            proof {
                assert(all.take(ti + 1) =~= pre.push(all[ti as int]));
                assert(pre.push(all[ti as int]).drop_last() =~= pre);
                assert(pre.push(all[ti as int]).last() == all[ti as int]);
                lemma_spec_rows_take_len(all, user_id@, account_name@, ti + 1);
                lemma_spec_rows_len(all, user_id@, account_name@);
            }
            let t = &txs[ti];
            if crate::text::str_eq(t.user_id.as_str(), user_id) {
                let ghost base = rows@;
                let mut ei: usize = 0;
                while ei < t.entries.len()
                    invariant
                        ei <= t.entries@.len(),
                        rows@ == base + entry_rows(
                            t.entries@.take(ei as int),
                            t.date,
                            account_name@,
                        ),
                        t.date.wf(),
                        forall|k: int| 0 <= k < rows@.len() ==> (#[trigger] rows@[k]).date.wf(),
                        base + entry_rows(t.entries@, t.date, account_name@) == spec_rows(
                            all.take(ti as int + 1),
                            user_id@,
                            account_name@,
                        ),
                        spec_rows(all.take(ti as int + 1), user_id@, account_name@).len()
                            <= ENTRY_CAP,
                    decreases t.entries@.len() - ei,
                {
                    proof {
                        assert(t.entries@.take(ei + 1) =~= t.entries@.take(ei as int).push(
                            t.entries@[ei as int],
                        ));
                        assert(t.entries@.take(ei as int).push(
                            t.entries@[ei as int],
                        ).drop_last() =~= t.entries@.take(ei as int));
                        lemma_entry_rows_prefix_len(t.entries@, t.date, account_name@, ei + 1);
                    }
                    let e = &t.entries[ei];
                    if account_matches(e.account(), account_name) {
                        rows.push(
                            ReportRow {
                                date: t.date,
                                currency: e.amount().currency().clone(),
                                value: e.amount().value(),
                            },
                        );
                        proof {
                            assert(rows@ =~= base + entry_rows(
                                t.entries@.take(ei + 1),
                                t.date,
                                account_name@,
                            ));
                        }
                    } else {
                        proof {
                            assert(rows@ =~= base + entry_rows(
                                t.entries@.take(ei + 1),
                                t.date,
                                account_name@,
                            ));
                        }
                    }
                    ei = ei + 1;
                }
                proof {
                    assert(t.entries@.take(t.entries@.len() as int) =~= t.entries@);
                }
            } else {
                proof {
                    assert(spec_rows(all.take(ti + 1), user_id@, account_name@) =~= rows@);
                }
            }
            ti = ti + 1;
        }
        proof {
            assert(all.take(all.len() as int) =~= all);
        }
        rows
    }
}

/// A prefix of the rows contributes no more rows than the whole.
proof fn lemma_spec_rows_take_len(s: Seq<Transaction>, user: Seq<char>, account: Seq<char>, i: int)
    requires
        0 <= i <= s.len(),
    ensures
        spec_rows(s.take(i), user, account).len() <= spec_rows(s, user, account).len(),
    decreases s.len() - i,
{
    if i < s.len() {
        lemma_spec_rows_take_len(s, user, account, i + 1);
        assert(s.take(i + 1).drop_last() =~= s.take(i));
        assert(s.take(i + 1).last() == s[i]);
    } else {
        assert(s.take(i) =~= s);
    }
}

proof fn lemma_entry_rows_prefix_len(
    es: Seq<TransactionEntry>,
    date: Date,
    account: Seq<char>,
    i: int,
)
    requires
        0 <= i <= es.len(),
    ensures
        entry_rows(es.take(i), date, account).len() <= entry_rows(es, date, account).len(),
    decreases es.len() - i,
{
    if i < es.len() {
        lemma_entry_rows_prefix_len(es, date, account, i + 1);
        assert(es.take(i + 1).drop_last() =~= es.take(i));
        assert(es.take(i + 1).last() == es[i]);
    } else {
        assert(es.take(i) =~= es);
    }
}

/// Group rows by currency code, in order of first appearance, with each
/// currency's exact sum.
#[verifier::rlimit(100)]
fn group_by_code(rows: &Vec<ReportRow>) -> (r: Vec<CurrencyBalance>)
    requires
        rows@.len() <= ENTRY_CAP,
    ensures
        balances_for(r@, rows@),
{
    let mut out: Vec<CurrencyBalance> = Vec::new();
    let mut i: usize = 0;
    let ghost mut widx: Seq<int> = Seq::empty();
    proof {
        assert(rows@.take(0) =~= Seq::<ReportRow>::empty());
    }
    while i < rows.len()
        invariant
            i <= rows@.len(),
            rows@.len() <= ENTRY_CAP,
            widx.len() == i,
            out@.len() == rows_code_list(rows@.take(i as int)).len(),
            forall|jj: int|
                0 <= jj < out@.len() ==> (#[trigger] out@[jj]).currency.spec_code()
                    == rows_code_list(rows@.take(i as int))[jj],
            forall|j: int| #![trigger out@[j]]
                0 <= j < out@.len() ==> out@[j].amount as int == rows_code_sum(
                    rows@.take(i as int),
                    out@[j].currency.spec_code(),
                ) && (exists|k: int|
                    0 <= k < i && (#[trigger] rows@[k]).currency == out@[j].currency),
            forall|k: int| #![trigger widx[k]]
                0 <= k < i ==> 0 <= widx[k] < out@.len() && out@[widx[k]].currency.spec_code()
                    == rows@[k].currency.spec_code(),
            forall|j: int, k: int|
                0 <= j < k < out@.len() ==> (#[trigger] out@[j]).currency.spec_code() != (
                #[trigger] out@[k]).currency.spec_code(),
        decreases rows@.len() - i,
    {
        let ghost pre = rows@.take(i as int);
        proof {
            assert(rows@.take(i + 1) =~= pre.push(rows@[i as int]));
            assert(pre.push(rows@[i as int]).drop_last() =~= pre);
            assert(pre.push(rows@[i as int]).last() == rows@[i as int]);
            assert(forall|c: Seq<char>|
                #[trigger] rows_code_sum(rows@.take(i + 1), c) == rows_code_sum(pre, c) + if rows@[
                    i as int
                ].currency.spec_code() == c {
                    rows@[i as int].value as int
                } else {
                    0
                });
        }
        let row = &rows[i];
        let mut j: usize = 0;
        let mut found = false;
        let mut scan: usize = 0;
        let m = out.len();
        while scan < m
            invariant
                m == out@.len(),
                scan <= m,
                j <= scan,
                found ==> j < m && scan == m && out@[j as int].currency.spec_code()
                    == row.currency.spec_code(),
                !found ==> forall|k: int|
                    0 <= k < scan ==> (#[trigger] out@[k]).currency.spec_code()
                        != row.currency.spec_code(),
            decreases m - scan,
        {
            if crate::text::str_eq(out[scan].currency.code(), row.currency.code()) {
                j = scan;
                found = true;
                scan = m;
            } else {
                scan = scan + 1;
            }
        }
        let ghost before = out@;
        if found {
            proof {
                lemma_rows_code_sum_bound(pre, out@[j as int].currency.spec_code());
                assert(pre.len() * 0x8000_0000 + 0x8000_0000 <= 0x4000_0000i64 * 0x8000_0000
                    && -(0x4000_0000i64 * 0x8000_0000) <= -(pre.len() as int) * 0x8000_0000
                    - 0x8000_0000) by (nonlinear_arith)
                    requires
                        pre.len() < 0x4000_0000,
                ;
            }
            let updated = CurrencyBalance {
                currency: out[j].currency.clone(),
                amount: out[j].amount + row.value as i64,
            };
            out[j] = updated;
            proof {
                assert(rows_code_list(pre)[j as int] == before[j as int].currency.spec_code());
                assert(rows_code_list(pre).contains(rows@[i as int].currency.spec_code()));
                assert(rows_code_list(rows@.take(i + 1)) == rows_code_list(pre));
                assert(out@ == before.update(j as int, out@[j as int]));
                assert(forall|k: int|
                    0 <= k < out@.len() && k != j ==> #[trigger] out@[k] == before[k]);
                assert(out@[j as int].currency == before[j as int].currency);
                assert(forall|k: int|
                    0 <= k < out@.len() && k != j ==> (#[trigger] out@[k]).currency.spec_code()
                        != rows@[i as int].currency.spec_code());
                widx = widx.push(j as int);
                assert(forall|k: int| #![trigger widx[k]]
                    0 <= k < i + 1 ==> 0 <= widx[k] < out@.len() && out@[
                        widx[k]
                    ].currency.spec_code() == rows@[k].currency.spec_code()) by {
                    assert(forall|k: int|
                        0 <= k < i ==> #[trigger] widx[k] == widx.drop_last()[k]);
                    assert(forall|jj: int|
                        0 <= jj < out@.len() ==> (#[trigger] out@[jj]).currency.spec_code()
                            == before[jj].currency.spec_code());
                }
            }
        } else {
            proof {
                assert forall|k: int|
                    0 <= k < pre.len() implies (#[trigger] pre[k]).currency.spec_code() != rows@[
                    i as int
                ].currency.spec_code() by {
                    assert(pre[k] == rows@[k]);
                    assert(0 <= widx[k] < out@.len() && out@[widx[k]].currency.spec_code()
                        == rows@[k].currency.spec_code());
                }
                lemma_rows_code_sum_absent(pre, rows@[i as int].currency.spec_code());
            }
            out.push(CurrencyBalance { currency: row.currency.clone(), amount: row.value as i64 });
            proof {
                assert(!rows_code_list(pre).contains(rows@[i as int].currency.spec_code())) by {
                    if rows_code_list(pre).contains(rows@[i as int].currency.spec_code()) {
                        let w = choose|w: int|
                            0 <= w < rows_code_list(pre).len() && rows_code_list(pre)[w] == rows@[
                                i as int
                            ].currency.spec_code();
                        assert(before[w].currency.spec_code() == rows@[
                            i as int
                        ].currency.spec_code());
                    }
                }
                assert(rows_code_list(rows@.take(i + 1)) == rows_code_list(pre).push(
                    rows@[i as int].currency.spec_code(),
                ));
                assert(forall|k: int|
                    0 <= k < before.len() ==> #[trigger] out@[k] == before[k]);
                assert(out@[out@.len() - 1].currency == rows@[i as int].currency);
                assert(forall|k: int|
                    0 <= k < out@.len() - 1 ==> (#[trigger] out@[k]).currency.spec_code() != rows@[
                        i as int
                    ].currency.spec_code());
                widx = widx.push(out@.len() - 1);
                assert(forall|k: int| #![trigger widx[k]]
                    0 <= k < i + 1 ==> 0 <= widx[k] < out@.len() && out@[
                        widx[k]
                    ].currency.spec_code() == rows@[k].currency.spec_code()) by {
                    assert(forall|k: int|
                        0 <= k < i ==> #[trigger] widx[k] == widx.drop_last()[k]);
                    assert(forall|jj: int|
                        0 <= jj < before.len() ==> #[trigger] out@[jj] == before[jj]);
                }
            }
        }
        i = i + 1;
    }
    proof {
        assert(i == rows@.len());
        assert(rows@.take(i as int) =~= rows@);
        assert(out@.len() == rows_code_list(rows@).len());
        assert(forall|jj: int|
            0 <= jj < out@.len() ==> (#[trigger] out@[jj]).currency.spec_code() == rows_code_list(
                rows@,
            )[jj]);
        assert forall|j: int| 0 <= j < out@.len() implies #[trigger] out@[j].amount as int
            == rows_code_sum(rows@, out@[j].currency.spec_code()) && rows_contain_currency(
            rows@,
            out@[j].currency,
        ) by {
            assert(out@[j].amount as int == rows_code_sum(
                rows@.take(i as int),
                out@[j].currency.spec_code(),
            ));
            let k = choose|k: int| 0 <= k < i && (#[trigger] rows@[k]).currency == out@[
                j
            ].currency;
            assert(0 <= k < rows@.len() && rows@[k].currency == out@[j].currency);
        }
        assert forall|k: int| #![trigger rows@[k]] 0 <= k < rows@.len() implies contains_code(
            out@,
            rows@[k].currency.spec_code(),
        ) by {
            assert(k < i);
            let j = widx[k];
            assert(0 <= j < out@.len() && out@[j].currency.spec_code()
                == rows@[k].currency.spec_code());
        }
    }
    out
}

/// A code no row carries sums to zero.
proof fn lemma_rows_code_sum_absent(rows: Seq<ReportRow>, code: Seq<char>)
    requires
        forall|i: int| 0 <= i < rows.len() ==> (#[trigger] rows[i]).currency.spec_code() != code,
    ensures
        rows_code_sum(rows, code) == 0,
    decreases rows.len(),
{
    if rows.len() > 0 {
        assert(forall|i: int|
            0 <= i < rows.drop_last().len() ==> #[trigger] rows.drop_last()[i] == rows[i]);
        lemma_rows_code_sum_absent(rows.drop_last(), code);
    }
}

impl LedgerStore {
    /// The balance of an account and its sub-accounts, per currency: one
    /// element per currency that appears among the matching entries, each
    /// the exact sum of those entries over all time, sorted ascending by
    /// currency code.
    pub fn get_account_balance(&self, user_id: &str, account_name: &str) -> (r: Vec<
        CurrencyBalance,
    >)
        requires
            self.wf(),
        ensures
            ({
                let rows = spec_rows(self.spec_transactions(), user_id@, account_name@);
                &&& r@.len() == rows_code_list(rows).len()
                &&& sorted_by_code(r@)
                &&& forall|j: int, k: int|
                    0 <= j < k < r@.len() ==> (#[trigger] r@[j]).currency.spec_code() != (
                    #[trigger] r@[k]).currency.spec_code()
                &&& forall|j: int| #![trigger r@[j]]
                    0 <= j < r@.len() ==> r@[j].amount as int == rows_code_sum(
                        rows,
                        r@[j].currency.spec_code(),
                    ) && rows_contain_currency(rows, r@[j].currency)
                &&& forall|i: int| #![trigger rows[i]]
                    0 <= i < rows.len() ==> contains_code(r@, rows[i].currency.spec_code())
            }),
    {
        let rows = self.collect_rows(user_id, account_name);
        let grouped = group_by_code(&rows);
        let r = sort_balances(grouped);
        proof {
            let srows = spec_rows(self.spec_transactions(), user_id@, account_name@);
            let g = grouped@;
            assert(rows@ == srows);
            assert forall|j: int, k: int|
                0 <= j < k < r@.len() implies (#[trigger] r@[j]).currency.spec_code() != (
            #[trigger] r@[k]).currency.spec_code() by {
                crate::text::lemma_lex_asym(
                    r@[j].currency.spec_code(),
                    r@[k].currency.spec_code(),
                );
            }
            assert forall|j: int| #![trigger r@[j]]
                0 <= j < r@.len() implies r@[j].amount as int == rows_code_sum(
                srows,
                r@[j].currency.spec_code(),
            ) && rows_contain_currency(srows, r@[j].currency) by {
                let m = choose|m: int| 0 <= m < g.len() && #[trigger] g[m] == r@[j];
                assert(g[m].amount as int == rows_code_sum(srows, g[m].currency.spec_code()));
            }
            assert forall|i: int| #![trigger srows[i]]
                0 <= i < srows.len() implies contains_code(
                r@,
                srows[i].currency.spec_code(),
            ) by {
                assert(contains_code(g, srows[i].currency.spec_code()));
                let m = choose|m: int|
                    0 <= m < g.len() && (#[trigger] g[m]).currency.spec_code() == srows[
                        i
                    ].currency.spec_code();
                assert(balances_contain(r@, g[m]));
                let j = choose|j: int| 0 <= j < r@.len() && #[trigger] r@[j] == g[m];
                assert(r@[j].currency.spec_code() == srows[i].currency.spec_code());
            }
        }
        r
    }
}

/// The balances of one month.
#[derive(Debug)]
pub struct MonthlyBalance {
    /// The first day of the month.
    pub month: Date,
    /// The month's per-currency sums.
    pub balances: Vec<CurrencyBalance>,
}

/// The rows dated on or after `w` whose date truncates to the period `p`.
pub open spec fn period_window_rows(
    rows: Seq<ReportRow>,
    interval: ReportInterval,
    w: Date,
    p: Date,
) -> Seq<ReportRow>
    decreases rows.len(),
{
    if rows.len() == 0 {
        Seq::empty()
    } else {
        period_window_rows(rows.drop_last(), interval, w, p) + if date_le(w, rows.last().date)
            && spec_truncate(interval, rows.last().date) == p {
            seq![rows.last()]
        } else {
            Seq::empty()
        }
    }
}

/// Whether some result month is `m`.
pub open spec fn has_month(r: Seq<MonthlyBalance>, m: Date) -> bool {
    exists|j: int| 0 <= j < r.len() && (#[trigger] r[j]).month == m
}

/// One reporting period and the rows that fall in it.
struct PeriodBucket {
    period: Date,
    rows: Vec<ReportRow>,
}

spec fn buckets_have_period(bs: Seq<PeriodBucket>, p: Date) -> bool {
    exists|j: int| 0 <= j < bs.len() && (#[trigger] bs[j]).period == p
}

/// Group the rows dated on or after `w` by the period of `interval` that
/// contains their date, periods ascending.
#[verifier::rlimit(100)]
fn bucket_by_period(rows: &Vec<ReportRow>, interval: ReportInterval, w: &Date) -> (r: Vec<
    PeriodBucket,
>)
    requires
        rows@.len() <= ENTRY_CAP,
        forall|i: int| 0 <= i < rows@.len() ==> (#[trigger] rows@[i]).date.wf(),
    ensures
        forall|a: int, b: int|
            0 <= a < b < r@.len() ==> date_lt(
                (#[trigger] r@[a]).period,
                (#[trigger] r@[b]).period,
            ),
        forall|j: int| #![trigger r@[j]]
            0 <= j < r@.len() ==> r@[j].rows@ == period_window_rows(
                rows@,
                interval,
                *w,
                r@[j].period,
            ) && r@[j].rows@.len() >= 1 && r@[j].rows@.len() <= rows@.len(),
        forall|i: int| #![trigger rows@[i]]
            0 <= i < rows@.len() && date_le(*w, rows@[i].date) ==> buckets_have_period(
                r@,
                spec_truncate(interval, rows@[i].date),
            ),
{
    let mut out: Vec<PeriodBucket> = Vec::new();
    let mut i: usize = 0;
    let ghost mut widx: Seq<int> = Seq::empty();
    proof {
        assert(rows@.take(0) =~= Seq::<ReportRow>::empty());
    }
    while i < rows.len()
        invariant
            i <= rows@.len(),
            rows@.len() <= ENTRY_CAP,
            forall|k: int| 0 <= k < rows@.len() ==> (#[trigger] rows@[k]).date.wf(),
            widx.len() == i,
            forall|a: int, b: int|
                0 <= a < b < out@.len() ==> date_lt(
                    (#[trigger] out@[a]).period,
                    (#[trigger] out@[b]).period,
                ),
            forall|j: int| #![trigger out@[j]]
                0 <= j < out@.len() ==> out@[j].rows@ == period_window_rows(
                    rows@.take(i as int),
                    interval,
                    *w,
                    out@[j].period,
                ) && out@[j].rows@.len() >= 1 && out@[j].rows@.len() <= i,
            forall|k: int| #![trigger widx[k]]
                0 <= k < i ==> (date_le(*w, rows@[k].date) ==> 0 <= widx[k] < out@.len() && out@[
                    widx[k]
                ].period == spec_truncate(interval, rows@[k].date)),
        decreases rows@.len() - i,
    {
        let ghost pre = rows@.take(i as int);
        proof {
            assert(rows@.take(i + 1) =~= pre.push(rows@[i as int]));
            assert(pre.push(rows@[i as int]).drop_last() =~= pre);
            assert(pre.push(rows@[i as int]).last() == rows@[i as int]);
            assert(forall|p: Date|
                #[trigger] period_window_rows(rows@.take(i + 1), interval, *w, p)
                    == period_window_rows(pre, interval, *w, p) + if date_le(
                    *w,
                    rows@[i as int].date,
                ) && spec_truncate(interval, rows@[i as int].date) == p {
                    seq![rows@[i as int]]
                } else {
                    Seq::<ReportRow>::empty()
                });
        }
        let row = &rows[i];
        if w.on_or_before(&row.date) {
            let p = truncate(interval, &row.date);
            // Find where the period sits among those already seen.
            let m = out.len();
            let mut pos: usize = 0;
            let mut scan: usize = 0;
            while scan < m
                invariant
                    m == out@.len(),
                    scan <= m,
                    pos <= scan,
                    pos == scan || pos < m,
                    pos < scan ==> scan == m && date_le(p, out@[pos as int].period),
                    forall|k: int| 0 <= k < pos ==> date_lt((#[trigger] out@[k]).period, p),
                decreases m - scan,
            {
                if out[scan].period.before(&p) {
                    pos = scan + 1;
                    scan = scan + 1;
                } else {
                    pos = scan;
                    scan = m;
                }
            }
            if pos < out.len() && out[pos].period == p {
                // The period exists: add the row to its bucket.
                let ghost before = out@;
                let mut bucket = out.remove(pos);
                bucket.rows.push(
                    ReportRow { date: row.date, currency: row.currency.clone(), value: row.value },
                );
                out.insert(pos, bucket);
                proof {
                    assert(rows@[i as int] == ReportRow {
                        date: rows@[i as int].date,
                        currency: rows@[i as int].currency,
                        value: rows@[i as int].value,
                    });
                    assert(forall|k: int|
                        0 <= k < out@.len() && k != pos ==> #[trigger] out@[k] == before[k]);
                    assert(out@[pos as int].period == before[pos as int].period);
                    assert(out@[pos as int].rows@ =~= before[pos as int].rows@.push(
                        rows@[i as int],
                    ));
                    assert(forall|j: int|
                        0 <= j < out@.len() && j != pos
                            ==> (#[trigger] out@[j]).period != p) by {
                        assert(forall|j: int|
                            0 <= j < out@.len() && j != pos ==> out@[j] == before[j]);
                    }
                    widx = widx.push(pos as int);
                    assert(forall|k: int|
                        0 <= k < i ==> #[trigger] widx[k] == widx.drop_last()[k]);
                    assert(out@[pos as int].rows@ == period_window_rows(
                        rows@.take(i + 1),
                        interval,
                        *w,
                        p,
                    ));
                }
            } else {
                // A new period: insert its bucket in order.
                proof {
                    assert(forall|j: int|
                        0 <= j < out@.len() ==> (#[trigger] out@[j]).period != p) by {
                        assert(forall|j: int|
                            pos < j < out@.len() ==> date_lt(
                                out@[pos as int].period,
                                (#[trigger] out@[j]).period,
                            ));
                    }
                    assert forall|k: int|
                        0 <= k < pre.len() implies !(date_le(*w, (#[trigger] pre[k]).date)
                        && spec_truncate(interval, pre[k].date) == p) by {
                        assert(pre[k] == rows@[k]);
                        if date_le(*w, rows@[k].date) {
                            assert(0 <= widx[k] < out@.len() && out@[widx[k]].period
                                == spec_truncate(interval, rows@[k].date));
                        }
                    }
                    lemma_period_window_rows_absent(pre, interval, *w, p);
                }
                let mut bucket_rows: Vec<ReportRow> = Vec::new();
                bucket_rows.push(
                    ReportRow { date: row.date, currency: row.currency.clone(), value: row.value },
                );
                let ghost before = out@;
                out.insert(pos, PeriodBucket { period: p, rows: bucket_rows });
                proof {
                    assert(rows@[i as int] == ReportRow {
                        date: rows@[i as int].date,
                        currency: rows@[i as int].currency,
                        value: rows@[i as int].value,
                    });
                    assert(out@ == before.insert(pos as int, out@[pos as int]));
                    assert(forall|k: int| 0 <= k < pos ==> #[trigger] out@[k] == before[k]);
                    assert(forall|k: int|
                        pos < k < out@.len() ==> #[trigger] out@[k] == before[k - 1]);
                    assert(out@[pos as int].period == p);
                    assert(out@[pos as int].rows@ =~= Seq::<ReportRow>::empty().push(
                        rows@[i as int],
                    ));
                    assert(period_window_rows(pre, interval, *w, p).push(rows@[i as int]) =~= Seq::<
                        ReportRow,
                    >::empty().push(rows@[i as int]));
                    widx = Seq::new(
                        widx.len(),
                        |k: int|
                            if widx[k] >= pos {
                                widx[k] + 1
                            } else {
                                widx[k]
                            },
                    ).push(pos as int);
                    assert forall|a: int, b: int| 0 <= a < b < out@.len() implies date_lt(
                        (#[trigger] out@[a]).period,
                        (#[trigger] out@[b]).period,
                    ) by {
                        if b < pos {
                        } else if a < pos && b == pos {
                            assert(date_lt(before[a].period, p));
                        } else if a < pos && b > pos {
                            assert(out@[b] == before[b - 1]);
                        } else if a == pos {
                            assert(out@[b] == before[b - 1]);
                            assert(b - 1 >= pos);
                            assert(date_le(p, before[pos as int].period) && before[
                                pos as int
                            ].period != p);
                            if b - 1 > pos {
                                assert(date_lt(before[pos as int].period, before[b - 1].period));
                            }
                        } else {
                            assert(out@[a] == before[a - 1] && out@[b] == before[b - 1]);
                        }
                    }
                    assert forall|k: int| #![trigger widx[k]] 0 <= k < i + 1 implies (date_le(
                        *w,
                        rows@[k].date,
                    ) ==> 0 <= widx[k] < out@.len() && out@[widx[k]].period == spec_truncate(
                        interval,
                        rows@[k].date,
                    )) by {
                        if k < i {
                            let old_w = widx.drop_last()[k];
                            if date_le(*w, rows@[k].date) {
                                if old_w >= pos + 1 {
                                    assert(out@[old_w] == before[old_w - 1]);
                                } else {
                                    assert(out@[old_w] == before[old_w]);
                                }
                            }
                        }
                    }
                }
            }
        } else {
            proof {
                widx = widx.push(-1);
                assert(forall|k: int|
                    0 <= k < i ==> #[trigger] widx[k] == widx.drop_last()[k]);
                assert(forall|p: Date|
                    #[trigger] period_window_rows(rows@.take(i + 1), interval, *w, p)
                        =~= period_window_rows(pre, interval, *w, p));
            }
        }
        i = i + 1;
    }
    proof {
        assert(i == rows@.len());
        assert(rows@.take(i as int) =~= rows@);
        assert forall|k: int| #![trigger rows@[k]]
            0 <= k < rows@.len() && date_le(*w, rows@[k].date) implies buckets_have_period(
            out@,
            spec_truncate(interval, rows@[k].date),
        ) by {
            let j = widx[k];
            assert(0 <= j < out@.len() && out@[j].period == spec_truncate(
                interval,
                rows@[k].date,
            ));
        }
    }
    out
}

/// No row of the window truncates to this period: its bucket would be empty.
proof fn lemma_period_window_rows_absent(
    rows: Seq<ReportRow>,
    interval: ReportInterval,
    w: Date,
    p: Date,
)
    requires
        forall|k: int|
            0 <= k < rows.len() ==> !(date_le(w, (#[trigger] rows[k]).date) && spec_truncate(
                interval,
                rows[k].date,
            ) == p),
    ensures
        period_window_rows(rows, interval, w, p) == Seq::<ReportRow>::empty(),
    decreases rows.len(),
{
    if rows.len() > 0 {
        assert(forall|k: int|
            0 <= k < rows.drop_last().len() ==> #[trigger] rows.drop_last()[k] == rows[k]);
        lemma_period_window_rows_absent(rows.drop_last(), interval, w, p);
        assert(period_window_rows(rows, interval, w, p) =~= Seq::<ReportRow>::empty());
    }
}


/// The window start for a monthly report taken on `today`: the first of this
/// month one year earlier.
pub open spec fn monthly_window_start(today: Date) -> Date {
    spec_truncate(ReportInterval::Monthly, crate::dates::spec_year_before(today))
}

impl LedgerStore {
    /// The monthly balance of an account and its sub-accounts over the last
    /// year: for each month since this month one year ago that saw at least
    /// one matching entry, that month's exact per-currency sums. Months come
    /// in ascending order.
    pub fn get_monthly_balance(&self, user_id: &str, account_name: &str, today: &Date) -> (r: Vec<
        MonthlyBalance,
    >)
        requires
            self.wf(),
            today.wf(),
            today.year >= 2,
        ensures
            ({
                let rows = spec_rows(self.spec_transactions(), user_id@, account_name@);
                let w = monthly_window_start(*today);
                &&& forall|a: int, b: int|
                    0 <= a < b < r@.len() ==> date_lt(
                        (#[trigger] r@[a]).month,
                        (#[trigger] r@[b]).month,
                    )
                &&& forall|j: int| #![trigger r@[j]]
                    0 <= j < r@.len() ==> balances_for(
                        r@[j].balances@,
                        period_window_rows(rows, ReportInterval::Monthly, w, r@[j].month),
                    ) && period_window_rows(rows, ReportInterval::Monthly, w, r@[j].month).len()
                        >= 1
                &&& forall|i: int| #![trigger rows[i]]
                    0 <= i < rows.len() && date_le(w, rows[i].date) ==> has_month(
                        r@,
                        spec_truncate(ReportInterval::Monthly, rows[i].date),
                    )
            }),
    {
        let rows = self.collect_rows(user_id, account_name);
        let yb = crate::dates::year_before(today);
        let w = truncate(ReportInterval::Monthly, &yb);
        let buckets = bucket_by_period(&rows, ReportInterval::Monthly, &w);
        let ghost srows = spec_rows(self.spec_transactions(), user_id@, account_name@);
        let mut out: Vec<MonthlyBalance> = Vec::new();
        let mut bi: usize = 0;
        while bi < buckets.len()
            invariant
                bi <= buckets@.len(),
                rows@ == srows,
                rows@.len() <= ENTRY_CAP,
                w == monthly_window_start(*today),
                forall|a: int, b: int|
                    0 <= a < b < buckets@.len() ==> date_lt(
                        (#[trigger] buckets@[a]).period,
                        (#[trigger] buckets@[b]).period,
                    ),
                forall|j: int| #![trigger buckets@[j]]
                    0 <= j < buckets@.len() ==> buckets@[j].rows@ == period_window_rows(
                        srows,
                        ReportInterval::Monthly,
                        w,
                        buckets@[j].period,
                    ) && buckets@[j].rows@.len() >= 1 && buckets@[j].rows@.len() <= srows.len(),
                out@.len() == bi,
                forall|j: int| #![trigger out@[j]]
                    0 <= j < bi ==> out@[j].month == buckets@[j].period && balances_for(
                        out@[j].balances@,
                        period_window_rows(srows, ReportInterval::Monthly, w, out@[j].month),
                    ),
            decreases buckets@.len() - bi,
        {
            let balances = group_by_code(&buckets[bi].rows);
            out.push(MonthlyBalance { month: buckets[bi].period, balances });
            bi = bi + 1;
        }
        proof {
            assert forall|i: int| #![trigger srows[i]]
                0 <= i < srows.len() && date_le(w, srows[i].date) implies has_month(
                out@,
                spec_truncate(ReportInterval::Monthly, srows[i].date),
            ) by {
                assert(rows@[i] == srows[i]);
                assert(buckets_have_period(
                    buckets@,
                    spec_truncate(ReportInterval::Monthly, rows@[i].date),
                ));
                let j = choose|j: int|
                    0 <= j < buckets@.len() && (#[trigger] buckets@[j]).period == spec_truncate(
                        ReportInterval::Monthly,
                        rows@[i].date,
                    );
                assert(out@[j].month == spec_truncate(ReportInterval::Monthly, srows[i].date));
            }
            assert forall|a: int, b: int| 0 <= a < b < out@.len() implies date_lt(
                (#[trigger] out@[a]).month,
                (#[trigger] out@[b]).month,
            ) by {
                assert(out@[a].month == buckets@[a].period && out@[b].month == buckets@[b].period);
            }
        }
        out
    }
}


/// An account balance at a certain instant in time.
#[derive(Debug)]
pub struct InstantBalance {
    instant: Date,
    amount: i64,
}

/// A collection of instant balances associated with a specific currency.
#[derive(Debug)]
pub struct InstantBalances {
    currency: Currency,
    balances: Vec<InstantBalance>,
}

impl InstantBalance {
    pub closed spec fn spec_instant(&self) -> Date {
        self.instant
    }

    pub closed spec fn spec_amount(&self) -> i64 {
        self.amount
    }

    pub fn instant(&self) -> (r: Date)
        ensures
            r == self.spec_instant(),
    {
        self.instant
    }

    pub fn amount(&self) -> (r: i64)
        ensures
            r == self.spec_amount(),
    {
        self.amount
    }
}

impl InstantBalances {
    pub closed spec fn spec_currency(&self) -> Currency {
        self.currency
    }

    pub closed spec fn spec_balances(&self) -> Seq<InstantBalance> {
        self.balances@
    }

    /// Create a new, empty collection of balances for one currency.
    pub fn new(currency: Currency) -> (r: Self)
        ensures
            r.spec_currency() == currency,
            r.spec_balances().len() == 0,
    {
        Self { currency, balances: Vec::new() }
    }

    /// Create a collection holding a single balance.
    pub fn new_with_balance(currency: Currency, instant: Date, amount: i64) -> (r: Self)
        ensures
            r.spec_currency() == currency,
            r.spec_balances().len() == 1,
            r.spec_balances()[0].spec_instant() == instant,
            r.spec_balances()[0].spec_amount() == amount,
    {
        let mut balances: Vec<InstantBalance> = Vec::new();
        balances.push(InstantBalance { instant, amount });
        Self { currency, balances }
    }

    /// Add a new balance to the end of the collection.
    pub fn push(&mut self, instant: Date, amount: i64)
        ensures
            final (self).spec_currency() == old(self).spec_currency(),
            final (self).spec_balances().len() == old(self).spec_balances().len() + 1,
            forall|k: int|
                0 <= k < old(self).spec_balances().len() ==> final (self).spec_balances()[k]
                    == old(self).spec_balances()[k],
            final (self).spec_balances().last().spec_instant() == instant,
            final (self).spec_balances().last().spec_amount() == amount,
    {
        self.balances.push(InstantBalance { instant, amount });
    }

    pub fn currency(&self) -> (r: &Currency)
        ensures
            *r == self.spec_currency(),
    {
        &self.currency
    }

    pub fn balances(&self) -> (r: &Vec<InstantBalance>)
        ensures
            r@ == self.spec_balances(),
    {
        &self.balances
    }
}

/// The rows carried in one currency.
pub open spec fn code_rows(rows: Seq<ReportRow>, code: Seq<char>) -> Seq<ReportRow>
    decreases rows.len(),
{
    if rows.len() == 0 {
        Seq::empty()
    } else {
        code_rows(rows.drop_last(), code) + if rows.last().currency.spec_code() == code {
            seq![rows.last()]
        } else {
            Seq::empty()
        }
    }
}

/// The sum of the rows whose date truncates to the period `p` or an earlier
/// one: the cumulative balance as of `p`.
pub open spec fn rows_cum_sum(rows: Seq<ReportRow>, interval: ReportInterval, p: Date) -> int
    decreases rows.len(),
{
    if rows.len() == 0 {
        0
    } else {
        rows_cum_sum(rows.drop_last(), interval, p) + if date_le(
            spec_truncate(interval, rows.last().date),
            p,
        ) {
            rows.last().value as int
        } else {
            0
        }
    }
}

proof fn lemma_rows_cum_sum_bound(rows: Seq<ReportRow>, interval: ReportInterval, p: Date)
    ensures
        -(rows.len() as int) * 0x8000_0000 <= rows_cum_sum(rows, interval, p) <= (
        rows.len() as int) * 0x8000_0000,
    decreases rows.len(),
{
    if rows.len() > 0 {
        lemma_rows_cum_sum_bound(rows.drop_last(), interval, p);
        assert((rows.len() - 1) * 0x8000_0000 + 0x8000_0000 == (rows.len() as int) * 0x8000_0000)
            by (nonlinear_arith);
    }
}

/// One currency and its rows.
struct CodeBucket {
    currency: Currency,
    rows: Vec<ReportRow>,
}

spec fn code_buckets_have(bs: Seq<CodeBucket>, code: Seq<char>) -> bool {
    exists|j: int| 0 <= j < bs.len() && (#[trigger] bs[j]).currency.spec_code() == code
}

/// Group the rows by currency, in order of first appearance.
#[verifier::rlimit(100)]
fn bucket_by_code(rows: &Vec<ReportRow>) -> (r: Vec<CodeBucket>)
    ensures
        forall|j: int| #![trigger r@[j]]
            0 <= j < r@.len() ==> r@[j].rows@ == code_rows(rows@, r@[j].currency.spec_code())
                && rows_contain_currency(rows@, r@[j].currency) && r@[j].rows@.len()
                <= rows@.len(),
        forall|i: int| #![trigger rows@[i]]
            0 <= i < rows@.len() ==> code_buckets_have(r@, rows@[i].currency.spec_code()),
        forall|j: int, k: int|
            0 <= j < k < r@.len() ==> (#[trigger] r@[j]).currency.spec_code() != (
            #[trigger] r@[k]).currency.spec_code(),
{
    let mut out: Vec<CodeBucket> = Vec::new();
    let mut i: usize = 0;
    let ghost mut widx: Seq<int> = Seq::empty();
    proof {
        assert(rows@.take(0) =~= Seq::<ReportRow>::empty());
    }
    while i < rows.len()
        invariant
            i <= rows@.len(),
            widx.len() == i,
            forall|j: int| #![trigger out@[j]]
                0 <= j < out@.len() ==> out@[j].rows@ == code_rows(
                    rows@.take(i as int),
                    out@[j].currency.spec_code(),
                ) && (exists|k: int|
                    0 <= k < i && (#[trigger] rows@[k]).currency == out@[j].currency)
                    && out@[j].rows@.len() <= i,
            forall|k: int| #![trigger widx[k]]
                0 <= k < i ==> 0 <= widx[k] < out@.len() && out@[widx[k]].currency.spec_code()
                    == rows@[k].currency.spec_code(),
            forall|j: int, k: int|
                0 <= j < k < out@.len() ==> (#[trigger] out@[j]).currency.spec_code() != (
                #[trigger] out@[k]).currency.spec_code(),
        decreases rows@.len() - i,
    {
        let ghost pre = rows@.take(i as int);
        proof {
            assert(rows@.take(i + 1) =~= pre.push(rows@[i as int]));
            assert(pre.push(rows@[i as int]).drop_last() =~= pre);
            assert(pre.push(rows@[i as int]).last() == rows@[i as int]);
            assert(forall|c: Seq<char>|
                #[trigger] code_rows(rows@.take(i + 1), c) == code_rows(pre, c) + if rows@[
                    i as int
                ].currency.spec_code() == c {
                    seq![rows@[i as int]]
                } else {
                    Seq::<ReportRow>::empty()
                });
        }
        let row = &rows[i];
        let mut j: usize = 0;
        let mut found = false;
        let mut scan: usize = 0;
        let m = out.len();
        while scan < m
            invariant
                m == out@.len(),
                scan <= m,
                j <= scan,
                found ==> j < m && scan == m && out@[j as int].currency.spec_code()
                    == row.currency.spec_code(),
                !found ==> forall|k: int|
                    0 <= k < scan ==> (#[trigger] out@[k]).currency.spec_code()
                        != row.currency.spec_code(),
            decreases m - scan,
        {
            if crate::text::str_eq(out[scan].currency.code(), row.currency.code()) {
                j = scan;
                found = true;
                scan = m;
            } else {
                scan = scan + 1;
            }
        }
        let ghost before = out@;
        let new_row = ReportRow {
            date: row.date,
            currency: row.currency.clone(),
            value: row.value,
        };
        proof {
            assert(new_row == rows@[i as int]);
        }
        if found {
            let mut bucket = out.remove(j);
            bucket.rows.push(new_row);
            out.insert(j, bucket);
            proof {
                assert(forall|k: int|
                    0 <= k < out@.len() && k != j ==> #[trigger] out@[k] == before[k]);
                assert(out@[j as int].currency == before[j as int].currency);
                assert(out@[j as int].rows@ =~= before[j as int].rows@.push(rows@[i as int]));
                assert(forall|k: int|
                    0 <= k < out@.len() && k != j ==> (#[trigger] out@[k]).currency.spec_code()
                        != rows@[i as int].currency.spec_code());
                widx = widx.push(j as int);
                assert(forall|k: int|
                    0 <= k < i ==> #[trigger] widx[k] == widx.drop_last()[k]);
            }
        } else {
            proof {
                assert forall|k: int|
                    0 <= k < pre.len() implies (#[trigger] pre[k]).currency.spec_code() != rows@[
                    i as int
                ].currency.spec_code() by {
                    assert(pre[k] == rows@[k]);
                    assert(0 <= widx[k] < out@.len() && out@[widx[k]].currency.spec_code()
                        == rows@[k].currency.spec_code());
                }
                lemma_code_rows_absent(pre, rows@[i as int].currency.spec_code());
            }
            let mut bucket_rows: Vec<ReportRow> = Vec::new();
            bucket_rows.push(new_row);
            out.push(CodeBucket { currency: row.currency.clone(), rows: bucket_rows });
            proof {
                assert(forall|k: int|
                    0 <= k < before.len() ==> #[trigger] out@[k] == before[k]);
                assert(out@[out@.len() - 1].currency == rows@[i as int].currency);
                assert(out@[out@.len() - 1].rows@ =~= Seq::<ReportRow>::empty().push(
                    rows@[i as int],
                ));
                assert(code_rows(pre, rows@[i as int].currency.spec_code()).push(
                    rows@[i as int],
                ) =~= Seq::<ReportRow>::empty().push(rows@[i as int]));
                assert(forall|k: int|
                    0 <= k < out@.len() - 1 ==> (#[trigger] out@[k]).currency.spec_code() != rows@[
                        i as int
                    ].currency.spec_code());
                widx = widx.push(out@.len() - 1);
                assert(forall|k: int|
                    0 <= k < i ==> #[trigger] widx[k] == widx.drop_last()[k]);
            }
        }
        i = i + 1;
    }
    proof {
        assert(i == rows@.len());
        assert(rows@.take(i as int) =~= rows@);
        assert forall|k: int| #![trigger rows@[k]] 0 <= k < rows@.len() implies code_buckets_have(
            out@,
            rows@[k].currency.spec_code(),
        ) by {
            let j = widx[k];
            assert(0 <= j < out@.len() && out@[j].currency.spec_code()
                == rows@[k].currency.spec_code());
        }
        assert forall|j: int| #![trigger out@[j]] 0 <= j < out@.len() implies rows_contain_currency(
            rows@,
            out@[j].currency,
        ) by {
            let k = choose|k: int| 0 <= k < i && (#[trigger] rows@[k]).currency == out@[
                j
            ].currency;
            assert(0 <= k < rows@.len() && rows@[k].currency == out@[j].currency);
        }
    }
    out
}

proof fn lemma_code_rows_absent(rows: Seq<ReportRow>, code: Seq<char>)
    requires
        forall|i: int| 0 <= i < rows.len() ==> (#[trigger] rows[i]).currency.spec_code() != code,
    ensures
        code_rows(rows, code) == Seq::<ReportRow>::empty(),
    decreases rows.len(),
{
    if rows.len() > 0 {
        assert(forall|i: int|
            0 <= i < rows.drop_last().len() ==> #[trigger] rows.drop_last()[i] == rows[i]);
        lemma_code_rows_absent(rows.drop_last(), code);
        assert(code_rows(rows, code) =~= Seq::<ReportRow>::empty());
    }
}


/// The first supported calendar day.
pub open spec fn min_date() -> Date {
    Date { year: 1, month: 1, day: 1 }
}

proof fn lemma_min_date(d: Date)
    requires
        d.wf(),
    ensures
        date_le(min_date(), d),
{
}

proof fn lemma_code_rows_wf(rows: Seq<ReportRow>, code: Seq<char>)
    requires
        forall|i: int| 0 <= i < rows.len() ==> (#[trigger] rows[i]).date.wf(),
    ensures
        forall|k: int|
            0 <= k < code_rows(rows, code).len() ==> (#[trigger] code_rows(rows, code)[
                k
            ]).date.wf(),
    decreases rows.len(),
{
    if rows.len() > 0 {
        assert(forall|i: int|
            0 <= i < rows.drop_last().len() ==> #[trigger] rows.drop_last()[i] == rows[i]);
        lemma_code_rows_wf(rows.drop_last(), code);
        let pre = code_rows(rows.drop_last(), code);
        let whole = code_rows(rows, code);
        assert forall|k: int| 0 <= k < whole.len() implies (#[trigger] whole[k]).date.wf() by {
            if k < pre.len() {
                assert(whole[k] == pre[k]);
            } else {
                assert(whole[k] == rows.last());
            }
        }
    }
}

/// A row of the given currency appears among that currency's rows.
proof fn lemma_code_rows_mem(rows: Seq<ReportRow>, code: Seq<char>, i: int)
    requires
        0 <= i < rows.len(),
        rows[i].currency.spec_code() == code,
    ensures
        code_rows(rows, code).contains(rows[i]),
    decreases rows.len(),
{
    if i == rows.len() - 1 {
        assert(code_rows(rows, code).last() == rows[i]);
    } else {
        assert(rows.drop_last()[i] == rows[i]);
        lemma_code_rows_mem(rows.drop_last(), code, i);
        let pre = code_rows(rows.drop_last(), code);
        let k = choose|k: int| 0 <= k < pre.len() && pre[k] == rows[i];
        assert(code_rows(rows, code)[k] == rows[i]);
    }
}

/// A row on or after the window start puts its period among the periods.
proof fn lemma_period_window_rows_present(
    rows: Seq<ReportRow>,
    interval: ReportInterval,
    w: Date,
    i: int,
)
    requires
        0 <= i < rows.len(),
        date_le(w, rows[i].date),
    ensures
        period_window_rows(rows, interval, w, spec_truncate(interval, rows[i].date)).len() >= 1,
    decreases rows.len(),
{
    if i < rows.len() - 1 {
        assert(rows.drop_last()[i] == rows[i]);
        lemma_period_window_rows_present(rows.drop_last(), interval, w, i);
    }
}

/// A non-empty period holds at least one row of the window.
proof fn lemma_period_window_rows_mem(
    rows: Seq<ReportRow>,
    interval: ReportInterval,
    w: Date,
    p: Date,
)
    requires
        period_window_rows(rows, interval, w, p).len() >= 1,
    ensures
        exists|i: int|
            0 <= i < rows.len() && date_le(w, (#[trigger] rows[i]).date) && spec_truncate(
                interval,
                rows[i].date,
            ) == p,
    decreases rows.len(),
{
    if rows.len() > 0 {
        if date_le(w, rows.last().date) && spec_truncate(interval, rows.last().date) == p {
            assert(date_le(w, rows[rows.len() - 1].date) && spec_truncate(
                interval,
                rows[rows.len() - 1].date,
            ) == p);
        } else {
            lemma_period_window_rows_mem(rows.drop_last(), interval, w, p);
            let i = choose|i: int|
                0 <= i < rows.drop_last().len() && date_le(
                    w,
                    (#[trigger] rows.drop_last()[i]).date,
                ) && spec_truncate(interval, rows.drop_last()[i].date) == p;
            assert(rows[i] == rows.drop_last()[i]);
            assert(date_le(w, rows[i].date) && spec_truncate(interval, rows[i].date) == p);
        }
    }
}

/// Whether some instant of the series is `p`.
pub open spec fn has_instant(bs: Seq<InstantBalance>, p: Date) -> bool {
    exists|k: int| 0 <= k < bs.len() && (#[trigger] bs[k]).spec_instant() == p
}

/// Whether some series of the result carries this currency code.
pub open spec fn periodic_has_code(r: Seq<InstantBalances>, code: Seq<char>) -> bool {
    exists|j: int| 0 <= j < r.len() && (#[trigger] r[j]).spec_currency().spec_code() == code
}

/// What a correct cumulative series for one currency looks like: each point
/// lies in the window at a period that saw a matching row, carries the exact
/// cumulative sum of that currency up to its period, points ascend, and
/// every in-window period with a matching row appears.
pub open spec fn cumulative_ok(
    ib: InstantBalances,
    rows: Seq<ReportRow>,
    interval: ReportInterval,
    w: Date,
) -> bool {
    let crows = code_rows(rows, ib.spec_currency().spec_code());
    &&& forall|k: int| #![trigger ib.spec_balances()[k]]
        0 <= k < ib.spec_balances().len() ==> {
            &&& date_le(w, ib.spec_balances()[k].spec_instant())
            &&& ib.spec_balances()[k].spec_amount() as int == rows_cum_sum(
                crows,
                interval,
                ib.spec_balances()[k].spec_instant(),
            )
            &&& period_window_rows(
                crows,
                interval,
                min_date(),
                ib.spec_balances()[k].spec_instant(),
            ).len() >= 1
        }
    &&& forall|a: int, b: int|
        0 <= a < b < ib.spec_balances().len() ==> date_lt(
            (#[trigger] ib.spec_balances()[a]).spec_instant(),
            (#[trigger] ib.spec_balances()[b]).spec_instant(),
        )
    &&& forall|p: Date| #![trigger period_window_rows(crows, interval, min_date(), p)]
        date_le(w, p) && period_window_rows(crows, interval, min_date(), p).len() >= 1
            ==> has_instant(ib.spec_balances(), p)
}

/// The cumulative sum of the rows up to and including the period `p`.
fn cum_sum(rows: &Vec<ReportRow>, interval: ReportInterval, p: &Date) -> (r: i64)
    requires
        rows@.len() <= ENTRY_CAP,
        forall|i: int| 0 <= i < rows@.len() ==> (#[trigger] rows@[i]).date.wf(),
    ensures
        r as int == rows_cum_sum(rows@, interval, *p),
{
    let mut acc: i64 = 0;
    let mut i: usize = 0;
    proof {
        assert(rows@.take(0) =~= Seq::<ReportRow>::empty());
    }
    while i < rows.len()
        invariant
            i <= rows@.len(),
            rows@.len() <= ENTRY_CAP,
            forall|k: int| 0 <= k < rows@.len() ==> (#[trigger] rows@[k]).date.wf(),
            acc as int == rows_cum_sum(rows@.take(i as int), interval, *p),
        decreases rows@.len() - i,
    {
        let ghost pre = rows@.take(i as int);
        proof {
            assert(rows@.take(i + 1) =~= pre.push(rows@[i as int]));
            assert(pre.push(rows@[i as int]).drop_last() =~= pre);
            assert(pre.push(rows@[i as int]).last() == rows@[i as int]);
            lemma_rows_cum_sum_bound(pre, interval, *p);
            assert(pre.len() * 0x8000_0000 + 0x8000_0000 <= 0x4000_0000i64 * 0x8000_0000
                && -(0x4000_0000i64 * 0x8000_0000) <= -(pre.len() as int) * 0x8000_0000
                - 0x8000_0000) by (nonlinear_arith)
                requires
                    pre.len() < 0x4000_0000,
            ;
        }
        let t = truncate(interval, &rows[i].date);
        if t.on_or_before(p) {
            acc = acc + rows[i].value as i64;
        }
        i = i + 1;
    }
    proof {
        assert(rows@.take(rows@.len() as int) =~= rows@);
    }
    acc
}

impl LedgerStore {
    /// The cumulative balance of an account and its sub-accounts over time,
    /// one series per currency in order of first appearance: for each period
    /// of the last year in which the currency saw a matching entry, the
    /// running total of all its matching entries up to and including that
    /// period, periods ascending.
    pub fn periodic_cumulative_balance(
        &self,
        user_id: &str,
        account: &str,
        interval: ReportInterval,
        today: &Date,
    ) -> (r: Vec<InstantBalances>)
        requires
            self.wf(),
            today.wf(),
            today.year >= 2,
        ensures
            ({
                let rows = spec_rows(self.spec_transactions(), user_id@, account@);
                let w = spec_truncate(interval, crate::dates::spec_year_before(*today));
                &&& forall|j: int| #![trigger r@[j]]
                    0 <= j < r@.len() ==> cumulative_ok(r@[j], rows, interval, w)
                        && rows_contain_currency(rows, r@[j].spec_currency())
                &&& forall|j: int, k: int|
                    0 <= j < k < r@.len() ==> (#[trigger] r@[j]).spec_currency().spec_code() != (
                    #[trigger] r@[k]).spec_currency().spec_code()
                &&& forall|i: int| #![trigger rows[i]]
                    0 <= i < rows.len() && date_le(w, spec_truncate(interval, rows[i].date))
                        ==> periodic_has_code(r@, rows[i].currency.spec_code())
            }),
    {
        let rows = self.collect_rows(user_id, account);
        let ghost srows = spec_rows(self.spec_transactions(), user_id@, account@);
        let yb = crate::dates::year_before(today);
        let w = truncate(interval, &yb);
        let min = Date { year: 1, month: 1, day: 1 };
        let cbs = bucket_by_code(&rows);
        let mut out: Vec<InstantBalances> = Vec::new();
        let mut ci: usize = 0;
        while ci < cbs.len()
            invariant
                ci <= cbs@.len(),
                rows@ == srows,
                rows@.len() <= ENTRY_CAP,
                forall|i: int| 0 <= i < rows@.len() ==> (#[trigger] rows@[i]).date.wf(),
                min == min_date(),
                w == spec_truncate(interval, crate::dates::spec_year_before(*today)),
                forall|j: int| #![trigger cbs@[j]]
                    0 <= j < cbs@.len() ==> cbs@[j].rows@ == code_rows(
                        srows,
                        cbs@[j].currency.spec_code(),
                    ) && rows_contain_currency(srows, cbs@[j].currency) && cbs@[j].rows@.len()
                        <= srows.len(),
                forall|j: int, k: int|
                    0 <= j < k < cbs@.len() ==> (#[trigger] cbs@[j]).currency.spec_code() != (
                    #[trigger] cbs@[k]).currency.spec_code(),
                out@.len() == ci,
                forall|j: int| #![trigger out@[j]]
                    0 <= j < ci ==> out@[j].spec_currency() == cbs@[j].currency && cumulative_ok(
                        out@[j],
                        srows,
                        interval,
                        w,
                    ),
            decreases cbs@.len() - ci,
        {
            let cb = &cbs[ci];
            let ghost crows = cb.rows@;
            proof {
                lemma_code_rows_wf(srows, cbs@[ci as int].currency.spec_code());
            }
            let pbs = bucket_by_period(&cb.rows, interval, &min);
            let mut ib = InstantBalances::new(cb.currency.clone());
            let mut pi: usize = 0;
            while pi < pbs.len()
                invariant
                    pi <= pbs@.len(),
                    crows == cb.rows@,
                    crows.len() <= ENTRY_CAP,
                    forall|i: int| 0 <= i < crows.len() ==> (#[trigger] crows[i]).date.wf(),
                    min == min_date(),
                    ib.spec_currency() == cb.currency,
                    forall|a: int, b: int|
                        0 <= a < b < pbs@.len() ==> date_lt(
                            (#[trigger] pbs@[a]).period,
                            (#[trigger] pbs@[b]).period,
                        ),
                    forall|j: int| #![trigger pbs@[j]]
                        0 <= j < pbs@.len() ==> pbs@[j].rows@ == period_window_rows(
                            crows,
                            interval,
                            min,
                            pbs@[j].period,
                        ) && pbs@[j].rows@.len() >= 1,
                    forall|k: int| #![trigger ib.spec_balances()[k]]
                        0 <= k < ib.spec_balances().len() ==> {
                            &&& date_le(w, ib.spec_balances()[k].spec_instant())
                            &&& ib.spec_balances()[k].spec_amount() as int == rows_cum_sum(
                                crows,
                                interval,
                                ib.spec_balances()[k].spec_instant(),
                            )
                            &&& period_window_rows(
                                crows,
                                interval,
                                min,
                                ib.spec_balances()[k].spec_instant(),
                            ).len() >= 1
                        },
                    forall|a: int, b: int|
                        0 <= a < b < ib.spec_balances().len() ==> date_lt(
                            (#[trigger] ib.spec_balances()[a]).spec_instant(),
                            (#[trigger] ib.spec_balances()[b]).spec_instant(),
                        ),
                    forall|k: int, b: int|
                        0 <= k < ib.spec_balances().len() && pi <= b < pbs@.len() ==> date_lt(
                            (#[trigger] ib.spec_balances()[k]).spec_instant(),
                            (#[trigger] pbs@[b]).period,
                        ),
                    forall|b: int|
                        0 <= b < pi && date_le(w, (#[trigger] pbs@[b]).period) ==> has_instant(
                            ib.spec_balances(),
                            pbs@[b].period,
                        ),
                decreases pbs@.len() - pi,
            {
                let pb = &pbs[pi];
                if w.on_or_before(&pb.period) {
                    let amount = cum_sum(&cb.rows, interval, &pb.period);
                    let ghost before = ib.spec_balances();
                    ib.push(pb.period, amount);
                    proof {
                        assert(forall|k: int|
                            0 <= k < before.len() ==> #[trigger] ib.spec_balances()[k]
                                == before[k]);
                        assert(ib.spec_balances().last().spec_instant() == pbs@[pi as int].period);
                        assert forall|b: int|
                            0 <= b < pi + 1 && date_le(
                                w,
                                (#[trigger] pbs@[b]).period,
                            ) implies has_instant(ib.spec_balances(), pbs@[b].period) by {
                            if b < pi {
                                let k = choose|k: int|
                                    0 <= k < before.len() && (#[trigger] before[k]).spec_instant()
                                        == pbs@[b].period;
                                assert(ib.spec_balances()[k].spec_instant() == pbs@[b].period);
                            } else {
                                assert(ib.spec_balances()[before.len() as int].spec_instant()
                                    == pbs@[b].period);
                            }
                        }
                    }
                } else {
                    proof {
                        assert(forall|b: int|
                            0 <= b < pi + 1 && date_le(w, (#[trigger] pbs@[b]).period)
                                ==> has_instant(ib.spec_balances(), pbs@[b].period));
                    }
                }
                pi = pi + 1;
            }
            proof {
                let code = cbs@[ci as int].currency.spec_code();
                assert(ib.spec_currency().spec_code() == code);
                assert(crows == code_rows(srows, code));
                assert forall|p: Date|
                    #![trigger period_window_rows(code_rows(srows, ib.spec_currency().spec_code()), interval, min_date(), p)]
                    date_le(w, p) && period_window_rows(
                        code_rows(srows, ib.spec_currency().spec_code()),
                        interval,
                        min_date(),
                        p,
                    ).len() >= 1 implies has_instant(ib.spec_balances(), p) by {
                    lemma_period_window_rows_mem(crows, interval, min, p);
                    let i = choose|i: int|
                        0 <= i < crows.len() && date_le(min, (#[trigger] crows[i]).date)
                            && spec_truncate(interval, crows[i].date) == p;
                    assert(buckets_have_period(pbs@, p));
                    let b = choose|b: int|
                        0 <= b < pbs@.len() && (#[trigger] pbs@[b]).period == p;
                    assert(has_instant(ib.spec_balances(), pbs@[b].period));
                }
                assert(cumulative_ok(ib, srows, interval, w));
            }
            out.push(ib);
            ci = ci + 1;
        }
        proof {
            assert forall|i: int| #![trigger srows[i]]
                0 <= i < srows.len() && date_le(
                    w,
                    spec_truncate(interval, srows[i].date),
                ) implies periodic_has_code(out@, srows[i].currency.spec_code()) by {
                assert(rows@[i] == srows[i]);
                assert(code_buckets_have(cbs@, rows@[i].currency.spec_code()));
                let j = choose|j: int|
                    0 <= j < cbs@.len() && (#[trigger] cbs@[j]).currency.spec_code() == rows@[
                        i
                    ].currency.spec_code();
                assert(out@[j].spec_currency().spec_code() == srows[i].currency.spec_code());
            }
        }
        out
    }
}


/// Whether the user's transaction at index `i` was created at or after
/// `since` and touches the account `name`.
pub open spec fn account_active(
    s: Seq<Transaction>,
    user: Seq<char>,
    since: i64,
    name: Seq<char>,
) -> bool {
    exists|i: int, e: int|
        0 <= i < s.len() && s[i].user_id@ == user && s[i].created_at >= since && 0 <= e < (
        #[trigger] s[i].entries@).len() && (#[trigger] s[i].entries@[e]).spec_account() == name
}

/// Whether one of the names is `name`.
pub open spec fn names_contain(r: Seq<String>, name: Seq<char>) -> bool {
    exists|k: int| 0 <= k < r.len() && (#[trigger] r[k])@ == name
}

impl LedgerStore {
    /// The names of the accounts the user has touched in transactions
    /// created at or after `since`, each once, in order of first appearance.
    pub fn list_active_accounts(&self, user_id: &str, since: i64) -> (r: Vec<String>)
        requires
            self.wf(),
        ensures
            forall|k: int| #![trigger r@[k]]
                0 <= k < r@.len() ==> account_active(
                    self.spec_transactions(),
                    user_id@,
                    since,
                    r@[k]@,
                ),
            forall|i: int, e: int|
                0 <= i < self.spec_transactions().len() && self.spec_transactions()[i].user_id@
                    == user_id@ && self.spec_transactions()[i].created_at >= since && 0 <= e < (
                #[trigger] self.spec_transactions()[i].entries@).len() ==> names_contain(
                    r@,
                    (#[trigger] self.spec_transactions()[i].entries@[e]).spec_account(),
                ),
            forall|j: int, k: int| 0 <= j < k < r@.len() ==> (#[trigger] r@[j])@ != (
            #[trigger] r@[k])@,
    {
        let ghost all = self.spec_transactions();
        let txs = self.transactions_ref();
        let mut out: Vec<String> = Vec::new();
        let mut ti: usize = 0;
        while ti < txs.len()
            invariant
                self.wf(),
                txs@ == all,
                all == self.spec_transactions(),
                ti <= all.len(),
                forall|k: int| #![trigger out@[k]]
                    0 <= k < out@.len() ==> account_active(all, user_id@, since, out@[k]@),
                forall|i: int, e: int|
                    0 <= i < ti && all[i].user_id@ == user_id@ && all[i].created_at >= since && 0
                        <= e < (#[trigger] all[i].entries@).len() ==> names_contain(
                        out@,
                        (#[trigger] all[i].entries@[e]).spec_account(),
                    ),
                forall|j: int, k: int| 0 <= j < k < out@.len() ==> (#[trigger] out@[j])@ != (
                #[trigger] out@[k])@,
            decreases all.len() - ti,
        {
            let t = &txs[ti];
            if t.created_at >= since && crate::text::str_eq(t.user_id.as_str(), user_id) {
                let mut ei: usize = 0;
                while ei < t.entries.len()
                    invariant
                        self.wf(),
                        txs@ == all,
                        all == self.spec_transactions(),
                        ti < all.len(),
                        t == &txs[ti as int],
                        t.user_id@ == user_id@,
                        t.created_at >= since,
                        ei <= t.entries@.len(),
                        forall|k: int| #![trigger out@[k]]
                            0 <= k < out@.len() ==> account_active(all, user_id@, since, out@[k]@),
                        forall|i: int, e: int|
                            0 <= i < ti && all[i].user_id@ == user_id@ && all[i].created_at
                                >= since && 0 <= e < (#[trigger] all[i].entries@).len()
                                ==> names_contain(
                                out@,
                                (#[trigger] all[i].entries@[e]).spec_account(),
                            ),
                        forall|e: int|
                            0 <= e < ei ==> names_contain(
                                out@,
                                (#[trigger] t.entries@[e]).spec_account(),
                            ),
                        forall|j: int, k: int|
                            0 <= j < k < out@.len() ==> (#[trigger] out@[j])@ != (
                            #[trigger] out@[k])@,
                    decreases t.entries@.len() - ei,
                {
                    let account = t.entries[ei].account();
                    let mut found = false;
                    let mut scan: usize = 0;
                    let m = out.len();
                    while scan < m
                        invariant
                            m == out@.len(),
                            scan <= m,
                            account@ == t.entries@[ei as int].spec_account(),
                            ei < t.entries@.len(),
                            found ==> scan == m && names_contain(out@, account@),
                            !found ==> forall|k: int| 0 <= k < scan ==> (#[trigger] out@[k])@
                                != account@,
                        decreases m - scan,
                    {
                        if crate::text::str_eq(out[scan].as_str(), account) {
                            proof {
                                assert(out@[scan as int]@ == account@);
                            }
                            found = true;
                            scan = m;
                        } else {
                            scan = scan + 1;
                        }
                    }
                    if !found {
                        let ghost before = out@;
                        out.push(account.to_owned());
                        proof {
                            assert(forall|k: int|
                                0 <= k < before.len() ==> #[trigger] out@[k] == before[k]);
                            assert(out@[before.len() as int]@ == t.entries@[
                                ei as int
                            ].spec_account());
                            assert(account_active(all, user_id@, since, out@[before.len() as int]@))
                                by {
                                assert(all[ti as int].user_id@ == user_id@ && all[
                                    ti as int
                                ].created_at >= since && all[ti as int].entries@[
                                    ei as int
                                ].spec_account() == out@[before.len() as int]@);
                            }
                            assert forall|i: int, e: int|
                                0 <= i < ti && all[i].user_id@ == user_id@ && all[i].created_at
                                    >= since && 0 <= e < (
                                #[trigger] all[i].entries@).len() implies names_contain(
                                out@,
                                (#[trigger] all[i].entries@[e]).spec_account(),
                            ) by {
                                let k = choose|k: int|
                                    0 <= k < before.len() && (#[trigger] before[k])@ == all[
                                        i
                                    ].entries@[e].spec_account();
                                assert(out@[k]@ == all[i].entries@[e].spec_account());
                            }
                            assert forall|e: int|
                                0 <= e < ei + 1 implies names_contain(
                                out@,
                                (#[trigger] t.entries@[e]).spec_account(),
                            ) by {
                                if e < ei {
                                    let k = choose|k: int|
                                        0 <= k < before.len() && (#[trigger] before[k])@
                                            == t.entries@[e].spec_account();
                                    assert(out@[k]@ == t.entries@[e].spec_account());
                                } else {
                                    assert(out@[before.len() as int]@ == t.entries@[
                                        e
                                    ].spec_account());
                                }
                            }
                        }
                    }
                    ei = ei + 1;
                }
            }
            ti = ti + 1;
        }
        out
    }
}


/// The kinds of periodic account balance reports the ledger offers.
#[derive(Clone, Copy, Debug, PartialEq, Eq, Structural)]
pub enum AccountBalanceType {
    Cummulative,
}

impl LedgerStore {
    /// The periodic balance report of the requested kind.
    pub fn account_periodic_balance(
        &self,
        user_id: &str,
        account: &str,
        balance_type: AccountBalanceType,
        interval: ReportInterval,
        today: &Date,
    ) -> (r: Vec<InstantBalances>)
        requires
            self.wf(),
            today.wf(),
            today.year >= 2,
        ensures
            ({
                let rows = spec_rows(self.spec_transactions(), user_id@, account@);
                let w = spec_truncate(interval, crate::dates::spec_year_before(*today));
                &&& forall|j: int| #![trigger r@[j]]
                    0 <= j < r@.len() ==> cumulative_ok(r@[j], rows, interval, w)
                        && rows_contain_currency(rows, r@[j].spec_currency())
                &&& forall|j: int, k: int|
                    0 <= j < k < r@.len() ==> (#[trigger] r@[j]).spec_currency().spec_code() != (
                    #[trigger] r@[k]).spec_currency().spec_code()
                &&& forall|i: int| #![trigger rows[i]]
                    0 <= i < rows.len() && date_le(w, spec_truncate(interval, rows[i].date))
                        ==> periodic_has_code(r@, rows[i].currency.spec_code())
            }),
    {
        match balance_type {
            AccountBalanceType::Cummulative => self.periodic_cumulative_balance(
                user_id,
                account,
                interval,
                today,
            ),
        }
    }
}

} // verus!
