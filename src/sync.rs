//! The reconciliation engine: merges one snapshot of the aggregation server
//! into the local ledger.
use vstd::prelude::*;
use crate::error::SyncError;
use crate::models::{Account, BalanceHistory, Transaction, opt_view};
use crate::money::{Amount, amount_of, balance_changed, moved_by_a_cent};
use crate::simplefin::{
    SimplefinAccount, SimplefinAccountSet, SimplefinClient, SimplefinTransaction,
    institution_of, posted_date_of, access_url_usable, configured_from,
};
use crate::store::{LocalStore, latest_recent, lemma_latest_recent_in_range};

verus! {

/// Balance samples younger than this many seconds count as recent.
pub const BALANCE_WINDOW_SECS: i64 = 3600;

/// What one pass did.
#[derive(Debug)]
pub struct SyncStats {
    pub accounts_updated: u32,
    pub accounts_created: u32,
    pub transactions_created: u32,
    pub balance_records_created: u32,
    pub sync_duration_ms: u64,
}

/// The reconciliation engine, configured with the client it fetches through.
#[derive(Debug)]
pub struct SyncService {
    pub simplefin_client: SimplefinClient,
}

/// `a` carries the values of the remote account `r` as of `now`.
pub open spec fn reflects_remote(a: Account, r: SimplefinAccount, now: i64) -> bool {
    &&& a.name@ == r.name@
    &&& a.institution@ == institution_of(r)
    &&& a.balance.micros == amount_of(r.balance@)
    &&& a.available_balance == Some(r.available_balance)
    &&& a.is_credit_card == Some(r.is_credit_card)
    &&& a.last_updated == now
    &&& opt_view(a.simplefin_id) == Some(r.id@)
}

/// `a` is the existing account `before` overwritten from `r`.
pub open spec fn updated_from(before: Account, a: Account, r: SimplefinAccount, now: i64) -> bool {
    &&& reflects_remote(a, r, now)
    &&& a.id@ == before.id@
    &&& a.account_type@ == before.account_type@
    &&& a.created_at == before.created_at
    &&& opt_view(a.simplefin_id) == opt_view(before.simplefin_id)
}

/// The category a new account gets: "credit" when the heuristic fired, else "checking".
pub open spec fn category_for(r: SimplefinAccount) -> Seq<char> {
    if r.is_credit_card {
        "credit"@
    } else {
        "checking"@
    }
}

/// `a` is a new account created from `r` under the local identifier `id`.
pub open spec fn created_from(a: Account, r: SimplefinAccount, now: i64, id: Seq<char>) -> bool {
    &&& reflects_remote(a, r, now)
    &&& a.id@ == id
    &&& a.account_type@ == category_for(r)
    &&& a.created_at == now
}

/// `t` is a new transaction imported from `r` into account `account_id`.
pub open spec fn imported_from(
    t: Transaction,
    r: SimplefinTransaction,
    account_id: Seq<char>,
    now: i64,
    today: i32,
    id: Seq<char>,
) -> bool {
    &&& t.id@ == id
    &&& t.account_id@ == account_id
    &&& imported_content(t, r, now, today)
}

/// The fields of `t` other than its keys are those imported from `r`.
pub open spec fn imported_content(t: Transaction, r: SimplefinTransaction, now: i64, today: i32) -> bool {
    &&& t.amount.micros == amount_of(r.amount@)
    &&& t.description@ == r.description@
    &&& t.transaction_date == match posted_date_of(r) {
        Some(p) => p.date,
        None => today,
    }
    &&& t.category is None
    &&& t.created_at == now
    &&& opt_view(t.simplefin_id) == Some(r.id@)
    &&& t.posted_date == match posted_date_of(r) {
        Some(p) => Some(p.timestamp),
        None => None,
    }
    &&& opt_view(t.payee) == opt_view(r.payee)
    &&& opt_view(t.memo) == opt_view(r.memo)
    &&& t.pending == Some(
        match r.pending {
            Some(b) => b,
            None => false,
        },
    )
}

/// The index the local account matching `r` has once `r` is reconciled.
pub open spec fn step_index(before: LocalStore, r: SimplefinAccount) -> int {
    match before.account_with_external_id(r.id@) {
        Some(k) => k,
        None => before.accounts@.len() as int,
    }
}

/// The start of the balance window at time `now`.
pub open spec fn window_start(now: i64) -> i64 {
    (now - BALANCE_WINDOW_SECS) as i64
}

/// The most recent sample of `account_id` newer than `since` exists and is
/// within a cent of `balance`.
pub open spec fn within_recent(samples: Seq<BalanceHistory>, account_id: Seq<char>, balance: Amount, since: i64) -> bool {
    &&& latest_recent(samples, account_id, since) is Some
    &&& !moved_by_a_cent(recent_balance(samples, account_id, since), balance)
}

/// The account with external identifier `ext` has a recent sample within a
/// cent of its balance.
pub open spec fn settled(store: LocalStore, ext: Seq<char>, since: i64) -> bool {
    exists|k: int|
        0 <= k < store.accounts@.len() && opt_view(#[trigger] store.accounts@[k].simplefin_id) == Some(ext)
            && within_recent(store.balance_history@, store.accounts@[k].id@, store.accounts@[k].balance, since)
}

/// What reconciling the remote account `r` did to the ledger, whatever keys it used.
pub open spec fn account_step(before: LocalStore, r: SimplefinAccount, now: i64, after: LocalStore, res: (bool, bool, usize)) -> bool {
    &&& match before.account_with_external_id(r.id@) {
        Some(k) => {
            &&& !res.0
            &&& after.accounts@.len() == before.accounts@.len()
            &&& updated_from(before.accounts@[k], after.accounts@[k], r, now)
            &&& forall|j: int|
                0 <= j < before.accounts@.len() && j != k ==> #[trigger] after.accounts@[j] == before.accounts@[j]
            &&& res.1 == moved_by_a_cent(
                recent_balance(before.balance_history@, before.accounts@[k].id@, window_start(now)),
                Amount { micros: amount_of(r.balance@) as i64 },
            )
        },
        None => {
            &&& res.0
            &&& res.1
            &&& after.accounts@.len() == before.accounts@.len() + 1
            &&& opt_view(after.accounts@.last().simplefin_id) == Some(r.id@)
            &&& forall|j: int| 0 <= j < before.accounts@.len() ==> #[trigger] after.accounts@[j] == before.accounts@[j]
        },
    }
    &&& is_reflected(after, r, now)
    &&& extends(before.balance_history@, after.balance_history@)
    &&& after.balance_history@.len() == before.balance_history@.len() + if res.1 { 1int } else { 0int }
    &&& samples_not_after(before, now) ==> samples_not_after(after, now)
    &&& forall|j: int|
        before.balance_history@.len() <= j < after.balance_history@.len() ==> (#[trigger] after.balance_history@[j]).timestamp
            == now && after.balance_history@[j].account_id@ == after.accounts@[step_index(before, r)].id@
    &&& samples_not_after(before, now) ==> within_recent(
        after.balance_history@,
        after.accounts@[step_index(before, r)].id@,
        after.accounts@[step_index(before, r)].balance,
        window_start(now),
    )
    &&& extends(before.transactions@, after.transactions@)
    &&& after.transactions@.len() == before.transactions@.len() + res.2
    &&& res.2 <= remote_txs(r).len()
    &&& txs_known(after, r)
    &&& txs_known(before, r) ==> res.2 == 0
}

/// `t` was imported from one of the transactions attached to `r`.
pub open spec fn from_remote_txs(t: Transaction, r: SimplefinAccount, now: i64, today: i32) -> bool {
    exists|u: int| 0 <= u < remote_txs(r).len() && imported_content(t, #[trigger] remote_txs(r)[u], now, today)
}

/// Some account of `store` has the key `account_id` and the external identifier `ext`.
pub open spec fn linked(store: LocalStore, account_id: Seq<char>, ext: Seq<char>) -> bool {
    exists|k: int|
        0 <= k < store.accounts@.len() && (#[trigger] store.accounts@[k]).id@ == account_id && opt_view(
            store.accounts@[k].simplefin_id,
        ) == Some(ext)
}

/// The rows that reconciling `r` wrote hold what `r` says.
pub open spec fn account_step_contents(before: LocalStore, r: SimplefinAccount, now: i64, today: i32, after: LocalStore) -> bool {
    &&& forall|j: int| 0 <= j < before.accounts@.len() ==> {
        &&& (#[trigger] after.accounts@[j]).id@ == before.accounts@[j].id@
        &&& opt_view(after.accounts@[j].simplefin_id) == opt_view(before.accounts@[j].simplefin_id)
        &&& after.accounts@[j].account_type@ == before.accounts@[j].account_type@
        &&& after.accounts@[j].created_at == before.accounts@[j].created_at
    }
    &&& before.accounts@.len() < after.accounts@.len() ==> {
        &&& after.accounts@.last().account_type@ == category_for(r)
        &&& after.accounts@.last().created_at == now
    }
    &&& forall|j: int|
        before.transactions@.len() <= j < after.transactions@.len() ==> {
            &&& from_remote_txs(#[trigger] after.transactions@[j], r, now, today)
            &&& after.transactions@[j].account_id@ == after.accounts@[step_index(before, r)].id@
        }
}

/// Keys free in `before` other than `used` are still free in `after`.
pub open spec fn freshness_kept(before: LocalStore, after: LocalStore, used: Seq<char>) -> bool {
    forall|y: Seq<char>| !before.id_in_use(y) && y != used ==> !#[trigger] after.id_in_use(y)
}

/// `b` extends `a`: same rows in front, maybe more after.
pub open spec fn extends<T>(a: Seq<T>, b: Seq<T>) -> bool {
    a.len() <= b.len() && forall|j: int| 0 <= j < a.len() ==> #[trigger] b[j] == a[j]
}

/// The balance of the most recent sample of `account_id` newer than `since`.
pub open spec fn recent_balance(samples: Seq<BalanceHistory>, account_id: Seq<char>, since: i64) -> Option<Amount> {
    match latest_recent(samples, account_id, since) {
        Some(k) => Some(samples[k].balance),
        None => None,
    }
}

/// The transactions attached to a remote account.
pub open spec fn remote_txs(a: SimplefinAccount) -> Seq<SimplefinTransaction> {
    match a.transactions {
        Some(v) => v@,
        None => Seq::empty(),
    }
}

/// Fresh keys a pass over `accounts` may consume: two per account (the account
/// and its balance sample) and one per transaction.
pub open spec fn ids_needed(accounts: Seq<SimplefinAccount>) -> int
    decreases accounts.len(),
{
    if accounts.len() == 0 {
        0
    } else {
        ids_needed(accounts.drop_last()) + 2 + remote_txs(accounts.last()).len()
    }
}

proof fn lemma_ids_needed_prefix(accounts: Seq<SimplefinAccount>, i: int)
    requires
        0 <= i <= accounts.len(),
    ensures
        0 <= ids_needed(accounts.take(i)) <= ids_needed(accounts),
    decreases accounts.len() - i,
{
    if i < accounts.len() {
        lemma_ids_needed_prefix(accounts, i + 1);
        assert(accounts.take(i + 1).drop_last() =~= accounts.take(i));
    } else {
        assert(accounts.take(i) =~= accounts);
    }
    lemma_ids_needed_nonneg(accounts.take(i));
}

proof fn lemma_ids_needed_nonneg(accounts: Seq<SimplefinAccount>)
    ensures
        ids_needed(accounts) >= 0,
    decreases accounts.len(),
{
    if accounts.len() > 0 {
        lemma_ids_needed_nonneg(accounts.drop_last());
    }
}

/// Some account of `store` carries the values of `r` as of `now`.
pub open spec fn is_reflected(store: LocalStore, r: SimplefinAccount, now: i64) -> bool {
    exists|k: int| 0 <= k < store.accounts@.len() && reflects_remote(#[trigger] store.accounts@[k], r, now)
}

/// No account after index `i` of `accounts` has the same external identifier.
pub open spec fn is_last_occurrence(accounts: Seq<SimplefinAccount>, i: int) -> bool {
    forall|j: int| i < j < accounts.len() ==> #[trigger] accounts[j].id@ != accounts[i].id@
}

/// Every transaction attached to `r` is in `store`.
pub open spec fn txs_known(store: LocalStore, r: SimplefinAccount) -> bool {
    forall|t: int| 0 <= t < remote_txs(r).len() ==> store.has_transaction_ext(#[trigger] remote_txs(r)[t].id@)
}

/// Every balance sample of `store` is dated no later than `now`.
pub open spec fn samples_not_after(store: LocalStore, now: i64) -> bool {
    forall|k: int| 0 <= k < store.balance_history@.len() ==> #[trigger] store.balance_history@[k].timestamp <= now
}

/// The keys `ids[from..]` are pairwise distinct and unused in `store`.
pub open spec fn fresh_from(store: LocalStore, ids: Seq<String>, from: int) -> bool {
    &&& forall|j: int| from <= j < ids.len() ==> !store.id_in_use(#[trigger] ids[j]@)
    &&& forall|i: int, j: int| from <= i < j < ids.len() ==> #[trigger] ids[i]@ != #[trigger] ids[j]@
}

proof fn lemma_has_tx_kept(a: LocalStore, b: LocalStore, e: Seq<char>)
    requires
        extends(a.transactions@, b.transactions@),
        a.has_transaction_ext(e),
    ensures
        b.has_transaction_ext(e),
{
    let i = choose|i: int| 0 <= i < a.transactions@.len() && opt_view(#[trigger] a.transactions@[i].simplefin_id) == Some(e);
    assert(b.transactions@[i] == a.transactions@[i]);
}

impl SyncService {
    /// Matches `remote` to the local account with its external identifier and
    /// overwrites that account's synced fields, or creates the account under
    /// `fresh_id`. Returns whether it was created and the account's index.
    pub fn upsert_account(store: &mut LocalStore, remote: &SimplefinAccount, now: i64, fresh_id: String) -> (r: (bool, usize))
        requires
            old(store).wf(),
            !old(store).id_in_use(fresh_id@),
        ensures
            final(store).wf(),
            final(store).transactions == old(store).transactions,
            final(store).balance_history == old(store).balance_history,
            freshness_kept(*old(store), *final(store), fresh_id@),
            r.1 < final(store).accounts@.len(),
            match old(store).account_with_external_id(remote.id@) {
                Some(k) => {
                    &&& !r.0
                    &&& r.1 == k
                    &&& final(store).accounts@.len() == old(store).accounts@.len()
                    &&& updated_from(old(store).accounts@[k], final(store).accounts@[k], *remote, now)
                    &&& forall|j: int|
                        0 <= j < old(store).accounts@.len() && j != k ==> #[trigger] final(store).accounts@[j]
                            == old(store).accounts@[j]
                },
                None => {
                    &&& r.0
                    &&& r.1 == old(store).accounts@.len()
                    &&& final(store).accounts@.len() == old(store).accounts@.len() + 1
                    &&& created_from(final(store).accounts@[r.1 as int], *remote, now, fresh_id@)
                    &&& forall|j: int|
                        0 <= j < old(store).accounts@.len() ==> #[trigger] final(store).accounts@[j]
                            == old(store).accounts@[j]
                },
            },
    {
        let balance = remote.balance_as_f64();
        let found = store.find_account_by_external_id(&remote.id);
        match found {
            Some(k) => {
                let before = &store.accounts[k];
                let updated = Account {
                    id: before.id.clone(),
                    name: remote.name.clone(),
                    institution: remote.institution_name(),
                    account_type: before.account_type.clone(),
                    balance,
                    last_updated: now,
                    created_at: before.created_at,
                    simplefin_id: Some(remote.id.clone()),
                    available_balance: Some(remote.available_balance),
                    is_credit_card: Some(remote.is_credit_card),
                };
                let ghost pre = *store;
                store.accounts.set(k, updated);
                proof {
                    assert(opt_view(pre.accounts@[k as int].simplefin_id) == Some(remote.id@));
                    assert forall|i: int, j: int|
                        0 <= i < j < store.accounts@.len() implies store.accounts@[i].id@
                        != store.accounts@[j].id@ by {
                        assert(pre.accounts@[i].id@ != pre.accounts@[j].id@);
                    }
                    assert forall|i: int, j: int|
                        0 <= i < j < store.accounts@.len() && store.accounts@[i].simplefin_id is Some
                            implies opt_view(store.accounts@[i].simplefin_id) != opt_view(
                        store.accounts@[j].simplefin_id,
                    ) by {
                        assert(pre.accounts@[i].simplefin_id is Some);
                        assert(opt_view(pre.accounts@[i].simplefin_id) != opt_view(pre.accounts@[j].simplefin_id));
                    }
                    assert forall|y: Seq<char>| !pre.id_in_use(y) && y != fresh_id@ implies !#[trigger] store.id_in_use(y) by {
                        if exists|i: int| 0 <= i < store.accounts@.len() && #[trigger] store.accounts@[i].id@ == y {
                            let i = choose|i: int| 0 <= i < store.accounts@.len() && #[trigger] store.accounts@[i].id@ == y;
                            assert(pre.accounts@[i].id@ == y);
                        }
                    }
                }
                (false, k)
            },
            None => {
                let account_type = if remote.is_credit_card {
                    String::from_str("credit")
                } else {
                    String::from_str("checking")
                };
                let created = Account {
                    id: fresh_id,
                    name: remote.name.clone(),
                    institution: remote.institution_name(),
                    account_type,
                    balance,
                    last_updated: now,
                    created_at: now,
                    simplefin_id: Some(remote.id.clone()),
                    available_balance: Some(remote.available_balance),
                    is_credit_card: Some(remote.is_credit_card),
                };
                let ghost pre = *store;
                let ghost fid = created.id@;
                store.accounts.push(created);
                let n = store.accounts.len() - 1;
                proof {
                    assert forall|i: int, j: int|
                        0 <= i < j < store.accounts@.len() implies store.accounts@[i].id@
                        != store.accounts@[j].id@ by {
                        if j == n {
                            assert(pre.accounts@[i].id@ != fid);
                        } else {
                            assert(pre.accounts@[i].id@ != pre.accounts@[j].id@);
                        }
                    }
                    assert forall|i: int, j: int|
                        0 <= i < j < store.accounts@.len() && store.accounts@[i].simplefin_id is Some
                            implies opt_view(store.accounts@[i].simplefin_id) != opt_view(
                        store.accounts@[j].simplefin_id,
                    ) by {
                        if j == n {
                            assert(opt_view(pre.accounts@[i].simplefin_id) != Some(remote.id@));
                        } else {
                            assert(pre.accounts@[i].simplefin_id is Some);
                            assert(opt_view(pre.accounts@[i].simplefin_id) != opt_view(pre.accounts@[j].simplefin_id));
                        }
                    }
                    assert forall|y: Seq<char>| !pre.id_in_use(y) && y != fresh_id@ implies !#[trigger] store.id_in_use(y) by {
                        if exists|i: int| 0 <= i < store.accounts@.len() && #[trigger] store.accounts@[i].id@ == y {
                            let i = choose|i: int| 0 <= i < store.accounts@.len() && #[trigger] store.accounts@[i].id@ == y;
                            assert(pre.accounts@[i].id@ == y);
                        }
                    }
                }
                (true, n)
            },
        }
    }

    /// Records a sample of the account at `index` at time `now` unless its most
    /// recent sample of the last hour is within a cent of its balance.
    pub fn record_balance_history(store: &mut LocalStore, index: usize, now: i64, fresh_id: String) -> (r: bool)
        requires
            old(store).wf(),
            index < old(store).accounts@.len(),
            !old(store).id_in_use(fresh_id@),
            now >= i64::MIN + BALANCE_WINDOW_SECS,
        ensures
            final(store).wf(),
            final(store).accounts == old(store).accounts,
            final(store).transactions == old(store).transactions,
            freshness_kept(*old(store), *final(store), fresh_id@),
            r == moved_by_a_cent(
                recent_balance(
                    old(store).balance_history@,
                    old(store).accounts@[index as int].id@,
                    (now - BALANCE_WINDOW_SECS) as i64,
                ),
                old(store).accounts@[index as int].balance,
            ),
            !r ==> final(store).balance_history@ == old(store).balance_history@,
            r ==> {
                let s = final(store).balance_history@.last();
                &&& final(store).balance_history@.drop_last() == old(store).balance_history@
                &&& final(store).balance_history@.len() == old(store).balance_history@.len() + 1
                &&& s.id@ == fresh_id@
                &&& s.account_id@ == old(store).accounts@[index as int].id@
                &&& s.balance == old(store).accounts@[index as int].balance
                &&& s.timestamp == now
            },
    {
        let since = now - BALANCE_WINDOW_SECS;
        let account_id = store.accounts[index].id.clone();
        let balance = store.accounts[index].balance;
        let latest = store.latest_sample_since(&account_id, since);
        proof {
            lemma_latest_recent_in_range(store.balance_history@, account_id@, since);
        }
        let previous = match latest {
            Some(k) => Some(store.balance_history[k].balance),
            None => None,
        };
        if !balance_changed(previous, balance) {
            return false;
        }
        let ghost pre = *store;
        let ghost fid = fresh_id@;
        store.balance_history.push(BalanceHistory { id: fresh_id, account_id, balance, timestamp: now });
        proof {
            assert(store.balance_history@.drop_last() =~= pre.balance_history@);
            assert forall|y: Seq<char>| !pre.id_in_use(y) && y != fid implies !#[trigger] store.id_in_use(y) by {
                if exists|i: int| 0 <= i < store.balance_history@.len() && #[trigger] store.balance_history@[i].id@ == y {
                    let i = choose|i: int| 0 <= i < store.balance_history@.len() && #[trigger] store.balance_history@[i].id@ == y;
                    assert(pre.balance_history@[i].id@ == y);
                }
                if exists|i: int| 0 <= i < store.balance_history@.len() && #[trigger] store.balance_history@[i].account_id@ == y {
                    let i = choose|i: int| 0 <= i < store.balance_history@.len() && #[trigger] store.balance_history@[i].account_id@ == y;
                    if i == pre.balance_history@.len() {
                        assert(pre.accounts@[index as int].id@ == y);
                    } else {
                        assert(pre.balance_history@[i].account_id@ == y);
                    }
                }
            }
        }
        true
    }

    /// Imports `remote` into the account `account_id` under `fresh_id` unless a
    /// transaction with its external identifier exists; imported transactions
    /// are never changed afterwards. Returns whether it was imported.
    pub fn upsert_transaction(
        store: &mut LocalStore,
        account_id: &String,
        remote: &SimplefinTransaction,
        now: i64,
        today: i32,
        fresh_id: String,
    ) -> (r: bool)
        requires
            old(store).wf(),
            !old(store).id_in_use(fresh_id@),
        ensures
            final(store).wf(),
            final(store).accounts == old(store).accounts,
            final(store).balance_history == old(store).balance_history,
            freshness_kept(*old(store), *final(store), fresh_id@),
            r == !old(store).has_transaction_ext(remote.id@),
            final(store).has_transaction_ext(remote.id@),
            !r ==> final(store).transactions@ == old(store).transactions@,
            r ==> {
                &&& final(store).transactions@.drop_last() == old(store).transactions@
                &&& final(store).transactions@.len() == old(store).transactions@.len() + 1
                &&& imported_from(final(store).transactions@.last(), *remote, account_id@, now, today, fresh_id@)
            },
    {
        if store.has_transaction_with_external_id(&remote.id) {
            return false;
        }
        let amount = remote.amount_as_f64();
        let posted = remote.to_posted_date();
        let (transaction_date, posted_date) = match posted {
            Some(p) => (p.date, Some(p.timestamp)),
            None => (today, None),
        };
        let pending = match remote.pending {
            Some(b) => b,
            None => false,
        };
        let t = Transaction {
            id: fresh_id,
            account_id: account_id.clone(),
            amount,
            description: remote.description.clone(),
            transaction_date,
            category: None,
            created_at: now,
            simplefin_id: Some(remote.id.clone()),
            posted_date,
            payee: remote.payee.clone(),
            memo: remote.memo.clone(),
            pending: Some(pending),
        };
        let ghost pre = *store;
        let ghost fid = t.id@;
        store.transactions.push(t);
        let n = store.transactions.len() - 1;
        proof {
            assert(store.transactions@.drop_last() =~= pre.transactions@);
            assert(opt_view(store.transactions@[n as int].simplefin_id) == Some(remote.id@));
            assert forall|i: int, j: int|
                0 <= i < j < store.transactions@.len() && store.transactions@[i].simplefin_id is Some
                    implies opt_view(store.transactions@[i].simplefin_id) != opt_view(
                store.transactions@[j].simplefin_id,
            ) by {
                if j == n {
                    assert(opt_view(pre.transactions@[i].simplefin_id) != Some(remote.id@));
                } else {
                    assert(pre.transactions@[i].simplefin_id is Some);
                    assert(opt_view(pre.transactions@[i].simplefin_id) != opt_view(pre.transactions@[j].simplefin_id));
                }
            }
            assert forall|y: Seq<char>| !pre.id_in_use(y) && y != fid implies !#[trigger] store.id_in_use(y) by {
                if exists|i: int| 0 <= i < store.transactions@.len() && #[trigger] store.transactions@[i].id@ == y {
                    let i = choose|i: int| 0 <= i < store.transactions@.len() && #[trigger] store.transactions@[i].id@ == y;
                    assert(pre.transactions@[i].id@ == y);
                }
            }
        }
        true
    }

    /// Reconciles one remote account: upserts it, samples its balance, and
    /// imports its unseen transactions, taking keys from `ids[cursor..]`.
    /// Returns whether the account was created, whether a sample was recorded,
    /// and how many transactions were imported.
    pub fn reconcile_account(
        store: &mut LocalStore,
        remote: &SimplefinAccount,
        now: i64,
        today: i32,
        ids: &Vec<String>,
        cursor: usize,
    ) -> (r: (bool, bool, usize))
        requires
            old(store).wf(),
            now >= i64::MIN + BALANCE_WINDOW_SECS,
            cursor + 2 + remote_txs(*remote).len() <= ids@.len(),
            fresh_from(*old(store), ids@, cursor as int),
        ensures
            final(store).wf(),
            fresh_from(*final(store), ids@, cursor + 2 + remote_txs(*remote).len()),
            account_step(*old(store), *remote, now, *final(store), r),
            account_step_contents(*old(store), *remote, now, today, *final(store)),
            old(store).account_with_external_id(remote.id@) is None ==> created_from(
                final(store).accounts@.last(),
                *remote,
                now,
                ids@[cursor as int]@,
            ),
    {
        let ghost s0 = *store;
        let total = ids.len();
        let (created, index) = SyncService::upsert_account(store, remote, now, ids[cursor].clone());
        let ghost s1 = *store;
        proof {
            assert(fresh_from(s1, ids@, cursor + 1));
        }
        let recorded = SyncService::record_balance_history(store, index, now, ids[cursor + 1].clone());
        let ghost s2 = *store;
        proof {
            assert(fresh_from(s2, ids@, cursor + 2));
            if !created {
                let k = s0.account_with_external_id(remote.id@)->0;
                assert(s1.accounts@[k].balance.micros == amount_of(remote.balance@));
            } else {
                assert(!s0.id_in_use(ids@[cursor as int]@));
                assert forall|m: int| 0 <= m < s1.balance_history@.len() implies !crate::store::is_recent_sample(
                    #[trigger] s1.balance_history@[m], ids@[cursor as int]@, (now - BALANCE_WINDOW_SECS) as i64) by {
                    assert(s0.balance_history@[m].account_id@ != ids@[cursor as int]@);
                }
                lemma_latest_recent_none(s1.balance_history@, ids@[cursor as int]@, (now - BALANCE_WINDOW_SECS) as i64);
            }
            assert(is_reflected(s2, *remote, now)) by {
                assert(reflects_remote(s2.accounts@[index as int], *remote, now));
            }
            if samples_not_after(s0, now) {
                assert forall|k: int| 0 <= k < s2.balance_history@.len() implies #[trigger] s2.balance_history@[k].timestamp <= now by {
                    if k < s0.balance_history@.len() {
                        assert(s2.balance_history@[k] == s0.balance_history@[k]);
                    }
                }
                let aid = s2.accounts@[index as int].id@;
                let since = window_start(now);
                if recorded {
                    assert(s2.balance_history@.drop_last() == s1.balance_history@);
                    let rest = latest_recent(s1.balance_history@, aid, since);
                    if rest is Some {
                        lemma_latest_recent_in_range(s1.balance_history@, aid, since);
                        assert(s1.balance_history@[rest->0] == s0.balance_history@[rest->0]);
                    }
                    assert(latest_recent(s2.balance_history@, aid, since) == Some((s2.balance_history@.len() - 1) as int));
                } else {
                    assert(s2.balance_history@ == s1.balance_history@);
                }
            }
            assert(index as int == step_index(s0, *remote));
        }
        let account_id = store.accounts[index].id.clone();
        let mut imported: usize = 0;
        match &remote.transactions {
            Some(txs) => {
                let mut t: usize = 0;
                while t < txs.len()
                    invariant
                        txs@ == remote_txs(*remote),
                        total == ids@.len(),
                        s2.transactions == s0.transactions,
                        0 <= t <= txs@.len(),
                        cursor + 2 + txs@.len() <= ids@.len(),
                        store.wf(),
                        fresh_from(*store, ids@, cursor + 2 + t),
                        store.accounts == s2.accounts,
                        store.balance_history == s2.balance_history,
                        extends(s2.transactions@, store.transactions@),
                        store.transactions@.len() == s2.transactions@.len() + imported,
                        imported <= t,
                        forall|u: int| 0 <= u < t ==> store.has_transaction_ext(#[trigger] txs@[u].id@),
                        account_id@ == s2.accounts@[index as int].id@,
                        forall|j: int|
                            s2.transactions@.len() <= j < store.transactions@.len() ==> {
                                &&& from_remote_txs(#[trigger] store.transactions@[j], *remote, now, today)
                                &&& store.transactions@[j].account_id@ == account_id@
                            },
                        txs_known(s0, *remote) ==> imported == 0 && store.transactions@ == s2.transactions@,
                    decreases txs@.len() - t,
                {
                    let ghost pre = *store;
                    let added = SyncService::upsert_transaction(store, &account_id, &txs[t], now, today, ids[cursor + 2 + t].clone());
                    proof {
                        assert(extends(pre.transactions@, store.transactions@)) by {
                            if added {
                                assert forall|j: int| 0 <= j < pre.transactions@.len() implies #[trigger] store.transactions@[j] == pre.transactions@[j] by {
                                    assert(store.transactions@.drop_last()[j] == store.transactions@[j]);
                                }
                            }
                        }
                        assert forall|u: int| 0 <= u < t + 1 implies store.has_transaction_ext(#[trigger] txs@[u].id@) by {
                            if u < t {
                                lemma_has_tx_kept(pre, *store, txs@[u].id@);
                            }
                        }
                        assert forall|j: int|
                            s2.transactions@.len() <= j < store.transactions@.len() implies {
                                &&& from_remote_txs(#[trigger] store.transactions@[j], *remote, now, today)
                                &&& store.transactions@[j].account_id@ == account_id@
                            } by {
                            if j < pre.transactions@.len() {
                                assert(store.transactions@[j] == pre.transactions@[j]);
                            } else {
                                assert(imported_content(store.transactions@[j], remote_txs(*remote)[t as int], now, today));
                            }
                        }
                        if txs_known(s0, *remote) {
                            assert(s0.has_transaction_ext(txs@[t as int].id@));
                        }
                    }
                    if added {
                        imported = imported + 1;
                    }
                    t = t + 1;
                }
            },
            None => {},
        }
        proof {
            assert(fresh_from(*store, ids@, cursor + 2 + remote_txs(*remote).len()));
            assert(is_reflected(*store, *remote, now)) by {
                assert(reflects_remote(store.accounts@[index as int], *remote, now));
            }
            if remote.transactions is None {
                assert(store.transactions@ == s2.transactions@);
            }
        }
        (created, recorded, imported)
    }
}

proof fn lemma_latest_recent_none(samples: Seq<BalanceHistory>, account_id: Seq<char>, since: i64)
    requires
        forall|m: int| 0 <= m < samples.len() ==> !crate::store::is_recent_sample(#[trigger] samples[m], account_id, since),
    ensures
        latest_recent(samples, account_id, since) is None,
    decreases samples.len(),
{
    if samples.len() > 0 {
        assert forall|m: int| 0 <= m < samples.drop_last().len() implies !crate::store::is_recent_sample(
            #[trigger] samples.drop_last()[m], account_id, since) by {
            assert(samples.drop_last()[m] == samples[m]);
        }
        lemma_latest_recent_none(samples.drop_last(), account_id, since);
    }
}

/// What a successful pass over `set` at time `now` guarantees of the ledger
/// `after` and the summary `stats`, given the ledger `before`.
pub open spec fn pass_outcome(
    before: LocalStore,
    set: Seq<SimplefinAccount>,
    now: i64,
    after: LocalStore,
    stats: SyncStats,
) -> bool {
    &&& after.wf()
    &&& stats.accounts_created + stats.accounts_updated == set.len()
    &&& stats.sync_duration_ms == 0
    // Accounts: one per external identifier, reflecting the last remote record.
    &&& after.accounts@.len() == before.accounts@.len() + stats.accounts_created
    &&& forall|j: int| 0 <= j < before.accounts@.len() ==> {
        &&& (#[trigger] after.accounts@[j]).id@ == before.accounts@[j].id@
        &&& opt_view(after.accounts@[j].simplefin_id) == opt_view(before.accounts@[j].simplefin_id)
    }
    &&& forall|j: int|
        0 <= j < before.accounts@.len() && (forall|i: int| 0 <= i < set.len() ==> opt_view(before.accounts@[j].simplefin_id)
            != Some(#[trigger] set[i].id@)) ==> #[trigger] after.accounts@[j] == before.accounts@[j]
    &&& forall|i: int| 0 <= i < set.len() && is_last_occurrence(set, i) ==> is_reflected(after, #[trigger] set[i], now)
    &&& (forall|i: int| 0 <= i < set.len() ==> (#[trigger] before.account_with_external_id(set[i].id@)) is Some)
        ==> stats.accounts_created == 0
    // Transactions: only added, every remote one present afterwards.
    &&& extends(before.transactions@, after.transactions@)
    &&& after.transactions@.len() == before.transactions@.len() + stats.transactions_created
    &&& forall|i: int| 0 <= i < set.len() ==> txs_known(after, #[trigger] set[i])
    &&& (forall|i: int| 0 <= i < set.len() ==> txs_known(before, #[trigger] set[i])) ==> stats.transactions_created == 0
    // Balance samples: append-only.
    &&& extends(before.balance_history@, after.balance_history@)
    &&& after.balance_history@.len() == before.balance_history@.len() + stats.balance_records_created
    &&& samples_not_after(before, now) ==> samples_not_after(after, now)
    &&& forall|j: int|
        before.balance_history@.len() <= j < after.balance_history@.len() ==> (#[trigger] after.balance_history@[j]).timestamp
            == now
    &&& stats.balance_records_created <= set.len()
    &&& all_settled_before(before, set, now) ==> stats.balance_records_created == 0
    &&& distinct_ids(set) && samples_not_after(before, now) ==> forall|i: int|
        0 <= i < set.len() ==> settled(after, #[trigger] set[i].id@, window_start(now))
}

/// What a pass over `set` at time `now` (UTC day `today`) wrote: every new
/// transaction was imported from a remote transaction and belongs to the local
/// account of its remote account; every new account was created from a remote
/// account, with its category, at `now`.
pub open spec fn pass_contents(before: LocalStore, set: Seq<SimplefinAccount>, now: i64, today: i32, after: LocalStore) -> bool {
    progress_contents(before, set, set.len() as int, now, today, after)
}

/// The contents part of `pass_progress`, after the first `i` remote accounts.
pub open spec fn progress_contents(
    before: LocalStore,
    set: Seq<SimplefinAccount>,
    i: int,
    now: i64,
    today: i32,
    after: LocalStore,
) -> bool {
    &&& forall|j: int| 0 <= j < before.accounts@.len() ==> {
        &&& (#[trigger] after.accounts@[j]).account_type@ == before.accounts@[j].account_type@
        &&& after.accounts@[j].created_at == before.accounts@[j].created_at
    }
    &&& forall|j: int|
        before.transactions@.len() <= j < after.transactions@.len() ==> exists|m: int|
            0 <= m < i && from_remote_txs(#[trigger] after.transactions@[j], #[trigger] set[m], now, today) && linked(
                after,
                after.transactions@[j].account_id@,
                set[m].id@,
            )
    &&& forall|j: int|
        before.accounts@.len() <= j < after.accounts@.len() ==> exists|m: int|
            0 <= m < i && opt_view((#[trigger] after.accounts@[j]).simplefin_id) == Some(#[trigger] set[m].id@)
                && after.accounts@[j].account_type@ == category_for(set[m]) && after.accounts@[j].created_at == now
}

proof fn lemma_contents_step(
    s0: LocalStore,
    set: Seq<SimplefinAccount>,
    i: int,
    now: i64,
    today: i32,
    pre: LocalStore,
    post: LocalStore,
    res: (bool, bool, usize),
)
    requires
        0 <= i < set.len(),
        s0.accounts@.len() <= pre.accounts@.len(),
        s0.transactions@.len() <= pre.transactions@.len(),
        progress_contents(s0, set, i, now, today, pre),
        account_step(pre, set[i], now, post, res),
        account_step_contents(pre, set[i], now, today, post),
    ensures
        progress_contents(s0, set, i + 1, now, today, post),
{
    let r = set[i];
    let idx = step_index(pre, r);
    assert(opt_view(post.accounts@[idx].simplefin_id) == Some(r.id@));
    assert forall|j: int| 0 <= j < s0.accounts@.len() implies {
        &&& (#[trigger] post.accounts@[j]).account_type@ == s0.accounts@[j].account_type@
        &&& post.accounts@[j].created_at == s0.accounts@[j].created_at
    } by {
        assert(pre.accounts@[j].account_type@ == s0.accounts@[j].account_type@);
    }
    assert forall|j: int|
        s0.transactions@.len() <= j < post.transactions@.len() implies exists|m: int|
            0 <= m < i + 1 && from_remote_txs(#[trigger] post.transactions@[j], #[trigger] set[m], now, today) && linked(
                post,
                post.transactions@[j].account_id@,
                set[m].id@,
            ) by {
        if j < pre.transactions@.len() {
            assert(post.transactions@[j] == pre.transactions@[j]);
            let m = choose|m: int|
                0 <= m < i && from_remote_txs(#[trigger] pre.transactions@[j], #[trigger] set[m], now, today) && linked(
                    pre,
                    pre.transactions@[j].account_id@,
                    set[m].id@,
                );
            let k = choose|k: int|
                0 <= k < pre.accounts@.len() && (#[trigger] pre.accounts@[k]).id@ == pre.transactions@[j].account_id@
                    && opt_view(pre.accounts@[k].simplefin_id) == Some(set[m].id@);
            assert(post.accounts@[k].id@ == pre.accounts@[k].id@);
            assert(linked(post, post.transactions@[j].account_id@, set[m].id@));
        } else {
            assert(from_remote_txs(post.transactions@[j], set[i], now, today));
            assert(linked(post, post.transactions@[j].account_id@, set[i].id@));
        }
    }
    assert forall|j: int|
        s0.accounts@.len() <= j < post.accounts@.len() implies exists|m: int|
            0 <= m < i + 1 && opt_view((#[trigger] post.accounts@[j]).simplefin_id) == Some(#[trigger] set[m].id@)
                && post.accounts@[j].account_type@ == category_for(set[m]) && post.accounts@[j].created_at == now by {
        if j < pre.accounts@.len() {
            let m = choose|m: int|
                0 <= m < i && opt_view((#[trigger] pre.accounts@[j]).simplefin_id) == Some(#[trigger] set[m].id@)
                    && pre.accounts@[j].account_type@ == category_for(set[m]) && pre.accounts@[j].created_at == now;
            assert(post.accounts@[j].id@ == pre.accounts@[j].id@);
        } else {
            assert(j == pre.accounts@.len());
            assert(post.accounts@[j] == post.accounts@.last());
        }
    }
}

/// No two remote accounts of `set` share an external identifier.
pub open spec fn distinct_ids(set: Seq<SimplefinAccount>) -> bool {
    forall|a: int, b: int| 0 <= a < b < set.len() ==> #[trigger] set[a].id@ != #[trigger] set[b].id@
}

/// Every remote account of `set` already has its local account in `before`,
/// whose most recent sample at time `now` is within a cent of the remote balance.
pub open spec fn all_settled_before(before: LocalStore, set: Seq<SimplefinAccount>, now: i64) -> bool {
    forall|m: int| 0 <= m < set.len() ==> {
        &&& (#[trigger] before.account_with_external_id(set[m].id@)) is Some
        &&& !moved_by_a_cent(
            recent_balance(
                before.balance_history@,
                before.accounts@[before.account_with_external_id(set[m].id@)->0].id@,
                window_start(now),
            ),
            Amount { micros: amount_of(set[m].balance@) as i64 },
        )
    }
}

/// The part of `pass_outcome` that holds after the first `i` remote accounts.
pub open spec fn pass_progress(
    before: LocalStore,
    set: Seq<SimplefinAccount>,
    i: int,
    now: i64,
    after: LocalStore,
    stats: SyncStats,
) -> bool {
    &&& progress_accounts(before, set, i, now, after, stats)
    &&& progress_rows(before, set, i, now, after, stats)
    &&& progress_samples(before, set, i, now, after, stats)
}

/// The balance-sample part of `pass_progress`.
#[verifier::opaque]
pub open spec fn progress_samples(
    before: LocalStore,
    set: Seq<SimplefinAccount>,
    i: int,
    now: i64,
    after: LocalStore,
    stats: SyncStats,
) -> bool {
    &&& forall|j: int|
        before.balance_history@.len() <= j < after.balance_history@.len() ==> (#[trigger] after.balance_history@[j]).timestamp
            == now
    &&& stats.balance_records_created <= i
    &&& all_settled_before(before, set, now) ==> stats.balance_records_created == 0 && after.balance_history@
        == before.balance_history@
    &&& distinct_ids(set) && samples_not_after(before, now) ==> forall|m: int|
        0 <= m < i ==> settled(after, #[trigger] set[m].id@, window_start(now))
}

/// In a well-formed ledger the account carrying `ext` is the one lookups find.
pub proof fn lemma_external_id_index(s: LocalStore, ext: Seq<char>, k: int)
    requires
        s.wf(),
        0 <= k < s.accounts@.len(),
        opt_view(s.accounts@[k].simplefin_id) == Some(ext),
    ensures
        s.account_with_external_id(ext) == Some(k),
{
    let c = s.account_with_external_id(ext)->0;
    assert(0 <= c < s.accounts@.len() && opt_view(s.accounts@[c].simplefin_id) == Some(ext));
    if c < k {
        assert(s.accounts@[c].simplefin_id is Some);
    } else if k < c {
        assert(s.accounts@[k].simplefin_id is Some);
    }
}

proof fn lemma_latest_recent_push_other(s: Seq<BalanceHistory>, x: BalanceHistory, a: Seq<char>, since: i64)
    requires
        x.account_id@ != a,
    ensures
        latest_recent(s.push(x), a, since) == latest_recent(s, a, since),
{
    assert(s.push(x).drop_last() =~= s);
}

proof fn lemma_samples_step(
    s0: LocalStore,
    set: Seq<SimplefinAccount>,
    i: int,
    now: i64,
    pre: LocalStore,
    pre_stats: SyncStats,
    post: LocalStore,
    stats: SyncStats,
    res: (bool, bool, usize),
)
    requires
        0 <= i < set.len(),
        pre.wf(),
        post.wf(),
        now >= i64::MIN + BALANCE_WINDOW_SECS,
        progress_accounts(s0, set, i, now, pre, pre_stats),
        progress_rows(s0, set, i, now, pre, pre_stats),
        progress_samples(s0, set, i, now, pre, pre_stats),
        account_step(pre, set[i], now, post, res),
        stats.accounts_created == pre_stats.accounts_created + if res.0 { 1int } else { 0int },
        stats.balance_records_created == pre_stats.balance_records_created + if res.1 { 1int } else { 0int },
    ensures
        progress_samples(s0, set, i + 1, now, post, stats),
{
    reveal(progress_samples);
    reveal(progress_accounts);
    reveal(progress_rows);
    let remote = set[i];
    let idx = step_index(pre, remote);
    let ws = window_start(now);
    assert(0 <= idx < post.accounts@.len());
    assert(opt_view(post.accounts@[idx].simplefin_id) == Some(remote.id@));
    // The ledger's samples grew by at most one, of the matched account.
    assert(post.balance_history@ == pre.balance_history@ || (post.balance_history@ == pre.balance_history@.push(
        post.balance_history@.last(),
    ) && post.balance_history@.last().account_id@ == post.accounts@[idx].id@)) by {
        if res.1 {
            assert(post.balance_history@ =~= pre.balance_history@.push(post.balance_history@.last()));
        } else {
            assert(post.balance_history@ =~= pre.balance_history@);
        }
    }
    assert forall|j: int|
        s0.balance_history@.len() <= j < post.balance_history@.len() implies (#[trigger] post.balance_history@[j]).timestamp
        == now by {
        if j < pre.balance_history@.len() {
            assert(post.balance_history@[j] == pre.balance_history@[j]);
        }
    }
    if all_settled_before(s0, set, now) {
        let k0 = s0.account_with_external_id(remote.id@)->0;
        assert(s0.account_with_external_id(set[i].id@) is Some);
        assert forall|m: int| 0 <= m < set.len() implies (#[trigger] s0.account_with_external_id(set[m].id@)) is Some by {
        }
        assert(pre.accounts@.len() == s0.accounts@.len());
        assert(opt_view(s0.accounts@[k0].simplefin_id) == Some(remote.id@));
        assert(pre.accounts@[k0].id@ == s0.accounts@[k0].id@);
        lemma_external_id_index(pre, remote.id@, k0);
        assert(!res.1);
        assert(post.balance_history@ =~= s0.balance_history@);
    }
    if distinct_ids(set) && samples_not_after(s0, now) {
        assert forall|m: int| 0 <= m < i + 1 implies settled(post, #[trigger] set[m].id@, ws) by {
            if m < i {
                assert(settled(pre, set[m].id@, ws));
                let k = choose|k: int|
                    0 <= k < pre.accounts@.len() && opt_view(#[trigger] pre.accounts@[k].simplefin_id) == Some(set[m].id@)
                        && within_recent(pre.balance_history@, pre.accounts@[k].id@, pre.accounts@[k].balance, ws);
                assert(set[m].id@ != set[i].id@);
                assert(k != idx) by {
                    if pre.account_with_external_id(remote.id@) is Some {
                        let kf = pre.account_with_external_id(remote.id@)->0;
                        assert(opt_view(pre.accounts@[kf].simplefin_id) == Some(remote.id@));
                    }
                }
                assert(post.accounts@[k] == pre.accounts@[k]);
                if k < idx {
                    assert(post.accounts@[k].id@ != post.accounts@[idx].id@);
                } else {
                    assert(post.accounts@[idx].id@ != post.accounts@[k].id@);
                }
                let aid = pre.accounts@[k].id@;
                if post.balance_history@ != pre.balance_history@ {
                    lemma_latest_recent_push_other(pre.balance_history@, post.balance_history@.last(), aid, ws);
                    lemma_latest_recent_in_range(pre.balance_history@, aid, ws);
                    let lm = latest_recent(pre.balance_history@, aid, ws)->0;
                    assert(post.balance_history@[lm] == pre.balance_history@[lm]);
                }
                assert(within_recent(post.balance_history@, post.accounts@[k].id@, post.accounts@[k].balance, ws));
            } else {
                assert(samples_not_after(s0, now) ==> samples_not_after(pre, now));
                assert(within_recent(post.balance_history@, post.accounts@[idx].id@, post.accounts@[idx].balance, ws));
            }
        }
    }
}

/// The accounts part of `pass_progress`.
#[verifier::opaque]
pub open spec fn progress_accounts(
    before: LocalStore,
    set: Seq<SimplefinAccount>,
    i: int,
    now: i64,
    after: LocalStore,
    stats: SyncStats,
) -> bool {
    &&& after.accounts@.len() == before.accounts@.len() + stats.accounts_created
    &&& forall|j: int| 0 <= j < before.accounts@.len() ==> {
        &&& (#[trigger] after.accounts@[j]).id@ == before.accounts@[j].id@
        &&& opt_view(after.accounts@[j].simplefin_id) == opt_view(before.accounts@[j].simplefin_id)
    }
    &&& forall|j: int|
        0 <= j < before.accounts@.len() && (forall|m: int| 0 <= m < i ==> opt_view(before.accounts@[j].simplefin_id)
            != Some(#[trigger] set[m].id@)) ==> #[trigger] after.accounts@[j] == before.accounts@[j]
    &&& forall|m: int|
        0 <= m < i && (forall|j: int| m < j < i ==> #[trigger] set[j].id@ != set[m].id@)
            ==> is_reflected(after, #[trigger] set[m], now)
    &&& (forall|m: int| 0 <= m < set.len() ==> (#[trigger] before.account_with_external_id(set[m].id@)) is Some)
        ==> stats.accounts_created == 0
}

/// The transactions and samples part of `pass_progress`.
#[verifier::opaque]
pub open spec fn progress_rows(
    before: LocalStore,
    set: Seq<SimplefinAccount>,
    i: int,
    now: i64,
    after: LocalStore,
    stats: SyncStats,
) -> bool {
    &&& extends(before.transactions@, after.transactions@)
    &&& after.transactions@.len() == before.transactions@.len() + stats.transactions_created
    &&& forall|m: int| 0 <= m < i ==> txs_known(after, #[trigger] set[m])
    &&& (forall|m: int| 0 <= m < set.len() ==> txs_known(before, #[trigger] set[m])) ==> stats.transactions_created == 0
        && after.transactions@ == before.transactions@
    &&& extends(before.balance_history@, after.balance_history@)
    &&& after.balance_history@.len() == before.balance_history@.len() + stats.balance_records_created
    &&& samples_not_after(before, now) ==> samples_not_after(after, now)
}

proof fn lemma_progress_start(before: LocalStore, set: Seq<SimplefinAccount>, now: i64, stats: SyncStats)
    requires
        stats.accounts_created == 0,
        stats.transactions_created == 0,
        stats.balance_records_created == 0,
    ensures
        pass_progress(before, set, 0, now, before, stats),
{
    reveal(progress_accounts);
    reveal(progress_rows);
    reveal(progress_samples);
}

proof fn lemma_progress_step(
    s0: LocalStore,
    set: Seq<SimplefinAccount>,
    i: int,
    now: i64,
    pre: LocalStore,
    pre_stats: SyncStats,
    post: LocalStore,
    stats: SyncStats,
    res: (bool, bool, usize),
)
    requires
        0 <= i < set.len(),
        pre.wf(),
        post.wf(),
        now >= i64::MIN + BALANCE_WINDOW_SECS,
        pass_progress(s0, set, i, now, pre, pre_stats),
        account_step(pre, set[i], now, post, res),
        stats.accounts_created == pre_stats.accounts_created + if res.0 { 1int } else { 0int },
        stats.balance_records_created == pre_stats.balance_records_created + if res.1 { 1int } else { 0int },
        stats.transactions_created == pre_stats.transactions_created + res.2,
    ensures
        pass_progress(s0, set, i + 1, now, post, stats),
{
    lemma_accounts_step(s0, set, i, now, pre, pre_stats, post, stats, res);
    lemma_rows_step(s0, set, i, now, pre, pre_stats, post, stats, res);
    lemma_samples_step(s0, set, i, now, pre, pre_stats, post, stats, res);
}

proof fn lemma_accounts_step(
    s0: LocalStore,
    set: Seq<SimplefinAccount>,
    i: int,
    now: i64,
    pre: LocalStore,
    pre_stats: SyncStats,
    post: LocalStore,
    stats: SyncStats,
    res: (bool, bool, usize),
)
    requires
        0 <= i < set.len(),
        pre.wf(),
        progress_accounts(s0, set, i, now, pre, pre_stats),
        account_step(pre, set[i], now, post, res),
        stats.accounts_created == pre_stats.accounts_created + if res.0 { 1int } else { 0int },
    ensures
        progress_accounts(s0, set, i + 1, now, post, stats),
{
    reveal(progress_accounts);
    let remote = set[i];
    let found = pre.account_with_external_id(remote.id@);
    if (forall|m: int| 0 <= m < set.len() ==> (#[trigger] s0.account_with_external_id(set[m].id@)) is Some) {
        let k0 = s0.account_with_external_id(remote.id@)->0;
        assert(s0.account_with_external_id(set[i].id@) is Some);
        assert(opt_view(pre.accounts@[k0].simplefin_id) == Some(remote.id@));
        assert(pre.account_with_external_id(remote.id@) is Some);
    }
    assert forall|j: int| 0 <= j < s0.accounts@.len() implies {
        &&& (#[trigger] post.accounts@[j]).id@ == s0.accounts@[j].id@
        &&& opt_view(post.accounts@[j].simplefin_id) == opt_view(s0.accounts@[j].simplefin_id)
    } by {
        assert(pre.accounts@[j].id@ == s0.accounts@[j].id@);
    }
    assert forall|j: int|
        0 <= j < s0.accounts@.len() && (forall|m: int| 0 <= m < i + 1 ==> opt_view(s0.accounts@[j].simplefin_id)
            != Some(#[trigger] set[m].id@)) implies #[trigger] post.accounts@[j] == s0.accounts@[j] by {
        assert(opt_view(s0.accounts@[j].simplefin_id) != Some(set[i].id@));
        assert forall|m: int| 0 <= m < i implies opt_view(s0.accounts@[j].simplefin_id)
            != Some(#[trigger] set[m].id@) by {}
        assert(pre.accounts@[j] == s0.accounts@[j]);
        if found is Some {
            let k = found->0;
            assert(opt_view(pre.accounts@[k].simplefin_id) == Some(remote.id@));
            assert(j != k);
        }
    }
    assert forall|m: int|
        0 <= m < i + 1 && (forall|j: int| m < j < i + 1 ==> #[trigger] set[j].id@ != set[m].id@)
            implies is_reflected(post, #[trigger] set[m], now) by {
        if m < i {
            assert forall|j: int| m < j < i implies #[trigger] set[j].id@ != set[m].id@ by {}
            assert(is_reflected(pre, set[m], now));
            let k = choose|k: int| 0 <= k < pre.accounts@.len() && reflects_remote(#[trigger] pre.accounts@[k], set[m], now);
            assert(set[i].id@ != set[m].id@);
            if found is Some {
                let kf = found->0;
                assert(opt_view(pre.accounts@[kf].simplefin_id) == Some(remote.id@));
                assert(k != kf);
            }
            assert(post.accounts@[k] == pre.accounts@[k]);
            assert(reflects_remote(post.accounts@[k], set[m], now));
        }
    }
}

proof fn lemma_rows_step(
    s0: LocalStore,
    set: Seq<SimplefinAccount>,
    i: int,
    now: i64,
    pre: LocalStore,
    pre_stats: SyncStats,
    post: LocalStore,
    stats: SyncStats,
    res: (bool, bool, usize),
)
    requires
        0 <= i < set.len(),
        progress_rows(s0, set, i, now, pre, pre_stats),
        account_step(pre, set[i], now, post, res),
        stats.balance_records_created == pre_stats.balance_records_created + if res.1 { 1int } else { 0int },
        stats.transactions_created == pre_stats.transactions_created + res.2,
    ensures
        progress_rows(s0, set, i + 1, now, post, stats),
{
    reveal(progress_rows);
    let remote = set[i];
    if (forall|m: int| 0 <= m < set.len() ==> txs_known(s0, #[trigger] set[m])) {
        assert(txs_known(s0, set[i]));
        assert(txs_known(pre, remote));
        assert(post.transactions@ =~= s0.transactions@);
    }
    assert forall|m: int| 0 <= m < i + 1 implies txs_known(post, #[trigger] set[m]) by {
        if m < i {
            assert(txs_known(pre, set[m]));
            assert forall|t: int| 0 <= t < remote_txs(set[m]).len() implies post.has_transaction_ext(
                #[trigger] remote_txs(set[m])[t].id@) by {
                lemma_has_tx_kept(pre, post, remote_txs(set[m])[t].id@);
            }
        }
    }
    assert(extends(s0.transactions@, post.transactions@)) by {
        assert forall|j: int| 0 <= j < s0.transactions@.len() implies #[trigger] post.transactions@[j] == s0.transactions@[j] by {
            assert(pre.transactions@[j] == s0.transactions@[j]);
        }
    }
    assert(extends(s0.balance_history@, post.balance_history@)) by {
        assert forall|j: int| 0 <= j < s0.balance_history@.len() implies #[trigger] post.balance_history@[j] == s0.balance_history@[j] by {
            assert(pre.balance_history@[j] == s0.balance_history@[j]);
        }
    }
}

proof fn lemma_progress_done(s0: LocalStore, set: Seq<SimplefinAccount>, now: i64, after: LocalStore, stats: SyncStats)
    requires
        pass_progress(s0, set, set.len() as int, now, after, stats),
        after.wf(),
        stats.accounts_created + stats.accounts_updated == set.len(),
        stats.sync_duration_ms == 0,
    ensures
        pass_outcome(s0, set, now, after, stats),
{
    reveal(progress_accounts);
    reveal(progress_rows);
    reveal(progress_samples);
    assert forall|i: int| 0 <= i < set.len() && is_last_occurrence(set, i) implies is_reflected(after, #[trigger] set[i], now) by {
        assert forall|j: int| i < j < set.len() implies #[trigger] set[j].id@ != set[i].id@ by {}
    }
}

impl SyncService {
    /// Merges the snapshot `set` into `store` at time `now` (UTC day `today`),
    /// taking fresh keys from `ids` in order.
    pub fn reconcile(store: &mut LocalStore, set: &SimplefinAccountSet, now: i64, today: i32, ids: &Vec<String>) -> (r: SyncStats)
        requires
            old(store).wf(),
            now >= i64::MIN + BALANCE_WINDOW_SECS,
            ids_needed(set.accounts@) <= ids@.len(),
            ids_needed(set.accounts@) <= u32::MAX,
            fresh_from(*old(store), ids@, 0),
        ensures
            pass_outcome(*old(store), set.accounts@, now, *final(store), r),
            pass_contents(*old(store), set.accounts@, now, today, *final(store)),
    {
        let accounts = &set.accounts;
        let n = accounts.len();
        let total = ids.len();
        let ghost s0 = *store;
        let mut stats = SyncStats {
            accounts_updated: 0,
            accounts_created: 0,
            transactions_created: 0,
            balance_records_created: 0,
            sync_duration_ms: 0,
        };
        let mut cursor: usize = 0;
        let mut i: usize = 0;
        proof {
            assert(accounts@.take(0).len() == 0);
            lemma_progress_start(s0, accounts@, now, stats);
        }
        while i < n
            invariant
                n == accounts@.len(),
                accounts@ == set.accounts@,
                total == ids@.len(),
                ids_needed(accounts@) <= ids@.len(),
                ids_needed(accounts@) <= u32::MAX,
                now >= i64::MIN + BALANCE_WINDOW_SECS,
                0 <= i <= n,
                cursor as int == ids_needed(accounts@.take(i as int)),
                store.wf(),
                fresh_from(*store, ids@, cursor as int),
                stats.sync_duration_ms == 0,
                stats.accounts_created + stats.accounts_updated == i,
                stats.accounts_created + stats.accounts_updated + stats.transactions_created
                    + stats.balance_records_created <= cursor,
                pass_progress(s0, accounts@, i as int, now, *store, stats),
                progress_contents(s0, accounts@, i as int, now, today, *store),
                s0.accounts@.len() <= store.accounts@.len(),
                s0.transactions@.len() <= store.transactions@.len(),
            decreases n - i,
        {
            let remote = &accounts[i];
            proof {
                lemma_ids_needed_prefix(accounts@, i + 1);
                assert(accounts@.take(i + 1).drop_last() =~= accounts@.take(i as int));
            }
            let ghost pre = *store;
            let ghost pre_stats = stats;
            let res = SyncService::reconcile_account(store, remote, now, today, ids, cursor);
            let (created, recorded, imported) = res;
            if created {
                stats.accounts_created = stats.accounts_created + 1;
            } else {
                stats.accounts_updated = stats.accounts_updated + 1;
            }
            if recorded {
                stats.balance_records_created = stats.balance_records_created + 1;
            }
            stats.transactions_created = stats.transactions_created + imported as u32;
            cursor = cursor + 2 + remote_txs_len(remote);
            proof {
                lemma_progress_step(s0, accounts@, i as int, now, pre, pre_stats, *store, stats, res);
                lemma_contents_step(s0, accounts@, i as int, now, today, pre, *store, res);
            }
            i = i + 1;
        }
        proof {
            assert(accounts@.take(n as int) =~= accounts@);
            lemma_progress_done(s0, accounts@, now, *store, stats);
        }
        stats
    }
}

/// The number of transactions attached to `remote`.
pub fn remote_txs_len(remote: &SimplefinAccount) -> (r: usize)
    ensures
        r == remote_txs(*remote).len(),
{
    match &remote.transactions {
        Some(v) => v.len(),
        None => 0,
    }
}

/// Relies on `uuid::Uuid::new_v4` and its text form: a random key, which may
/// collide with any other.
#[verifier::external_body]
fn new_local_id() -> (r: String) {
    uuid::Uuid::new_v4().to_string()
}

/// `ids_needed` of the snapshot, or `None` when it exceeds `u32::MAX`.
pub fn count_ids_needed(set: &SimplefinAccountSet) -> (r: Option<usize>)
    ensures
        ids_needed(set.accounts@) <= u32::MAX <==> r is Some,
        r is Some ==> r->0 as int == ids_needed(set.accounts@),
{
    let accounts = &set.accounts;
    let mut total: usize = 0;
    let mut i: usize = 0;
    proof {
        assert(accounts@.take(0).len() == 0);
    }
    while i < accounts.len()
        invariant
            0 <= i <= accounts@.len(),
            accounts@ == set.accounts@,
            total as int == ids_needed(accounts@.take(i as int)),
            total <= u32::MAX,
        decreases accounts@.len() - i,
    {
        let extra = remote_txs_len(&accounts[i]);
        proof {
            assert(accounts@.take(i + 1).drop_last() =~= accounts@.take(i as int));
        }
        if extra > u32::MAX as usize || total as u64 + 2 + extra as u64 > u32::MAX as u64 {
            proof {
                lemma_ids_needed_prefix(accounts@, i + 1);
                assert(accounts@.take(i + 1).last() == accounts@[i as int]);
                assert(ids_needed(accounts@.take(i + 1)) == total + 2 + extra);
            }
            return None;
        }
        total = total + 2 + extra;
        i = i + 1;
    }
    proof {
        assert(accounts@.take(i as int) =~= accounts@);
    }
    Some(total)
}

impl SyncService {
    /// The engine, with a client configured from `simplefin_access_url`.
    pub fn new(simplefin_access_url: String) -> (r: Result<SyncService, SyncError>)
        ensures
            r is Ok <==> access_url_usable(simplefin_access_url@),
            r is Err ==> r matches Err(SyncError::Configuration(_)),
            r is Ok ==> configured_from(simplefin_access_url@, r->Ok_0.simplefin_client),
    {
        match SimplefinClient::new(simplefin_access_url) {
            Ok(simplefin_client) => Ok(SyncService { simplefin_client }),
            Err(e) => Err(e),
        }
    }

    /// Merges the snapshot `set` into `store` at time `now` (UTC day `today`)
    /// using the local keys `ids`, as one all-or-nothing unit. The pass succeeds
    /// exactly when the snapshot's key count fits a `u32` and `ids` holds at
    /// least that many keys, pairwise distinct and unused in `store`; otherwise
    /// `store` is left as it was.
    pub fn reconcile_with_keys(
        store: &mut LocalStore,
        set: &SimplefinAccountSet,
        now: i64,
        today: i32,
        ids: &Vec<String>,
    ) -> (r: Result<SyncStats, SyncError>)
        requires
            old(store).wf(),
            now >= i64::MIN + BALANCE_WINDOW_SECS,
        ensures
            r is Ok <==> ids_needed(set.accounts@) <= u32::MAX && ids_needed(set.accounts@) <= ids@.len()
                && fresh_from(*old(store), ids@, 0),
            r matches Err(SyncError::Protocol(_)) <==> ids_needed(set.accounts@) > u32::MAX,
            r is Err ==> r matches Err(SyncError::Storage(_)) || r matches Err(SyncError::Protocol(_)),
            r is Err ==> *final(store) == *old(store),
            r is Ok ==> pass_outcome(*old(store), set.accounts@, now, *final(store), r->Ok_0),
            r is Ok ==> pass_contents(*old(store), set.accounts@, now, today, *final(store)),
    {
        let needed = match count_ids_needed(set) {
            Some(n) => n,
            None => {
                return Err(SyncError::Protocol(String::from_str("snapshot holds too many records to count")));
            },
        };
        if ids.len() < needed {
            return Err(SyncError::Storage(String::from_str("too few local keys for the snapshot")));
        }
        if !keys_are_fresh(store, ids) {
            return Err(SyncError::Storage(String::from_str("a generated key is already in use")));
        }
        Ok(SyncService::reconcile(store, set, now, today, ids))
    }

    /// Merges the fetched snapshot `account_set` into `store` at time `now`
    /// (UTC day `today`) as one all-or-nothing unit. Fresh local keys are drawn
    /// at random up front and handed to `reconcile_with_keys`; if one collides
    /// with a key in use, or the snapshot is too large to count, the pass fails
    /// and `store` is left as it was. A snapshot that needs no key (no accounts)
    /// always succeeds.
    pub fn sync_all(&self, store: &mut LocalStore, account_set: &SimplefinAccountSet, now: i64, today: i32) -> (r: Result<SyncStats, SyncError>)
        requires
            old(store).wf(),
            now >= i64::MIN + BALANCE_WINDOW_SECS,
        ensures
            r is Err ==> *final(store) == *old(store),
            r is Err ==> r matches Err(SyncError::Storage(_)) || r matches Err(SyncError::Protocol(_)),
            r matches Err(SyncError::Protocol(_)) <==> ids_needed(account_set.accounts@) > u32::MAX,
            r matches Err(SyncError::Storage(_)) ==> ids_needed(account_set.accounts@) > 0,
            account_set.accounts@.len() == 0 ==> r is Ok,
            r is Ok ==> pass_outcome(*old(store), account_set.accounts@, now, *final(store), r->Ok_0),
            r is Ok ==> pass_contents(*old(store), account_set.accounts@, now, today, *final(store)),
    {
        let needed = match count_ids_needed(account_set) {
            Some(n) => n,
            None => {
                return Err(SyncError::Protocol(String::from_str("snapshot holds too many records to count")));
            },
        };
        let mut ids: Vec<String> = Vec::new();
        let mut k: usize = 0;
        while k < needed
            invariant
                0 <= k <= needed,
                ids@.len() == k,
            decreases needed - k,
        {
            ids.push(new_local_id());
            k = k + 1;
        }
        proof {
            if account_set.accounts@.len() == 0 {
                assert(ids_needed(account_set.accounts@) == 0);
            }
        }
        SyncService::reconcile_with_keys(store, account_set, now, today, &ids)
    }
}

/// Whether the keys of `ids` are pairwise distinct and unused in `store`.
pub fn keys_are_fresh(store: &LocalStore, ids: &Vec<String>) -> (r: bool)
    ensures
        r == fresh_from(*store, ids@, 0),
{
    let n = ids.len();
    let mut k: usize = 0;
    while k < n
        invariant
            n == ids@.len(),
            0 <= k <= n,
            forall|j: int| 0 <= j < k ==> !store.id_in_use(#[trigger] ids@[j]@),
            forall|a: int, b: int| 0 <= a < b < k ==> #[trigger] ids@[a]@ != #[trigger] ids@[b]@,
        decreases n - k,
    {
        if !store.is_fresh_id(&ids[k]) {
            return false;
        }
        let mut j: usize = 0;
        while j < k
            invariant
                n == ids@.len(),
                0 <= j <= k < n,
                forall|a: int| 0 <= a < j ==> #[trigger] ids@[a]@ != ids@[k as int]@,
            decreases k - j,
        {
            if ids[j] == ids[k] {
                return false;
            }
            j = j + 1;
        }
        k = k + 1;
    }
    true
}

/// However often a remote transaction reappears, the ledger never holds two
/// transactions with its external identifier: a pass keeps that true, so it
/// holds after any number of passes.
pub proof fn lemma_transactions_deduplicated(
    before: LocalStore,
    set: Seq<SimplefinAccount>,
    now: i64,
    after: LocalStore,
    stats: SyncStats,
    ext: Seq<char>,
    i: int,
    j: int,
)
    requires
        before.wf(),
        pass_outcome(before, set, now, after, stats),
        0 <= i < after.transactions@.len(),
        0 <= j < after.transactions@.len(),
        opt_view(after.transactions@[i].simplefin_id) == Some(ext),
        opt_view(after.transactions@[j].simplefin_id) == Some(ext),
    ensures
        i == j,
        after.wf(),
{
    if i < j {
        assert(after.transactions@[i].simplefin_id is Some);
    } else if j < i {
        assert(after.transactions@[j].simplefin_id is Some);
    }
}

/// After a pass, each remote account is matched by exactly one local account,
/// which carries the values of the last record with that identifier.
pub proof fn lemma_accounts_matched(
    before: LocalStore,
    set: Seq<SimplefinAccount>,
    now: i64,
    after: LocalStore,
    stats: SyncStats,
    i: int,
)
    requires
        before.wf(),
        pass_outcome(before, set, now, after, stats),
        0 <= i < set.len(),
        is_last_occurrence(set, i),
    ensures
        exists|k: int| 0 <= k < after.accounts@.len() && reflects_remote(#[trigger] after.accounts@[k], set[i], now),
        forall|k1: int, k2: int|
            0 <= k1 < after.accounts@.len() && 0 <= k2 < after.accounts@.len() && opt_view(
                #[trigger] after.accounts@[k1].simplefin_id,
            ) == Some(set[i].id@) && opt_view(#[trigger] after.accounts@[k2].simplefin_id) == Some(set[i].id@) ==> k1
                == k2,
{
    assert(is_reflected(after, set[i], now));
    assert forall|k1: int, k2: int|
        0 <= k1 < after.accounts@.len() && 0 <= k2 < after.accounts@.len() && opt_view(
            #[trigger] after.accounts@[k1].simplefin_id,
        ) == Some(set[i].id@) && opt_view(#[trigger] after.accounts@[k2].simplefin_id) == Some(set[i].id@) implies k1
            == k2 by {
        if k1 < k2 {
            assert(after.accounts@[k1].simplefin_id is Some);
        } else if k2 < k1 {
            assert(after.accounts@[k2].simplefin_id is Some);
        }
    }
}

/// A freshly fetched account whose available balance is absent, malformed or
/// exactly zero is classified as a credit card and would be created with the
/// category "credit"; any other value gives "checking".
pub proof fn lemma_credit_card_category(fetched: SimplefinAccount, a: SimplefinAccount)
    requires
        fetched.available_balance.micros == 0,
        crate::simplefin::classified(fetched, a),
    ensures
        a.is_credit_card <==> match fetched.available_balance_raw {
            None => true,
            Some(raw) => !crate::money::nonzero_decimal(crate::money::unsigned_part(raw@)),
        },
        category_for(a) == if a.is_credit_card { "credit"@ } else { "checking"@ },
{
}

proof fn lemma_latest_is_max(s: Seq<BalanceHistory>, a: Seq<char>, since: i64, j: int)
    requires
        latest_recent(s, a, since) is Some,
        0 <= j < s.len(),
        crate::store::is_recent_sample(s[j], a, since),
    ensures
        s[j].timestamp <= s[latest_recent(s, a, since)->0].timestamp,
    decreases s.len(),
{
    let rest = latest_recent(s.drop_last(), a, since);
    lemma_latest_recent_in_range(s.drop_last(), a, since);
    if j < s.len() - 1 {
        assert(s.drop_last()[j] == s[j]);
        lemma_latest_is_max(s.drop_last(), a, since, j);
        if rest is Some {
            assert(s.drop_last()[rest->0] == s[rest->0]);
        }
    }
}

proof fn lemma_latest_shift(s: Seq<BalanceHistory>, a: Seq<char>, since1: i64, since2: i64)
    requires
        since1 <= since2,
        latest_recent(s, a, since1) is Some,
        s[latest_recent(s, a, since1)->0].timestamp > since2,
    ensures
        latest_recent(s, a, since2) == latest_recent(s, a, since1),
    decreases s.len(),
{
    lemma_latest_recent_in_range(s, a, since1);
    let m = latest_recent(s, a, since1)->0;
    let t = s.drop_last();
    lemma_latest_recent_in_range(t, a, since1);
    lemma_latest_recent_in_range(t, a, since2);
    let rest1 = latest_recent(t, a, since1);
    let rest2 = latest_recent(t, a, since2);
    if m == s.len() - 1 {
        if rest2 is Some {
            let r2 = rest2->0;
            assert(t[r2] == s[r2]);
            assert(rest1 is Some);
            lemma_latest_is_max(t, a, since1, r2);
            assert(t[rest1->0] == s[rest1->0]);
        }
    } else {
        assert(rest1 == Some(m));
        assert(t[m] == s[m]);
        lemma_latest_shift(t, a, since1, since2);
    }
}

/// Running a pass twice in a row on an unchanged snapshot: the second pass
/// creates no account, no transaction and no balance sample, and updates every
/// remote account. This holds when the snapshot's account identifiers are
/// distinct, the second pass starts within the balance window of the first,
/// and every earlier sample is dated no later than the first pass and still
/// within the window at the second.
pub proof fn lemma_second_pass_idempotent(
    s0: LocalStore,
    set: Seq<SimplefinAccount>,
    t1: i64,
    s1: LocalStore,
    stats1: SyncStats,
    t2: i64,
    s2: LocalStore,
    stats2: SyncStats,
)
    requires
        s0.wf(),
        t1 >= i64::MIN + BALANCE_WINDOW_SECS,
        t1 <= t2 < t1 + BALANCE_WINDOW_SECS,
        distinct_ids(set),
        forall|j: int|
            0 <= j < s0.balance_history@.len() ==> t2 - BALANCE_WINDOW_SECS < (#[trigger] s0.balance_history@[j]).timestamp
                <= t1,
        pass_outcome(s0, set, t1, s1, stats1),
        pass_outcome(s1, set, t2, s2, stats2),
    ensures
        stats2.accounts_created == 0,
        stats2.accounts_updated == set.len(),
        stats2.transactions_created == 0,
        stats2.balance_records_created == 0,
{
    let ws1 = window_start(t1);
    let ws2 = window_start(t2);
    assert(samples_not_after(s0, t1));
    assert forall|i: int| 0 <= i < set.len() implies {
        &&& (#[trigger] s1.account_with_external_id(set[i].id@)) is Some
        &&& !moved_by_a_cent(
            recent_balance(s1.balance_history@, s1.accounts@[s1.account_with_external_id(set[i].id@)->0].id@, ws2),
            Amount { micros: amount_of(set[i].balance@) as i64 },
        )
    } by {
        assert(is_last_occurrence(set, i)) by {
            assert forall|j: int| i < j < set.len() implies #[trigger] set[j].id@ != set[i].id@ by {
                assert(set[i].id@ != set[j].id@);
            }
        }
        assert(is_reflected(s1, set[i], t1));
        let kr = choose|k: int| 0 <= k < s1.accounts@.len() && reflects_remote(#[trigger] s1.accounts@[k], set[i], t1);
        lemma_external_id_index(s1, set[i].id@, kr);
        assert(settled(s1, set[i].id@, ws1));
        let ks = choose|k: int|
            0 <= k < s1.accounts@.len() && opt_view(#[trigger] s1.accounts@[k].simplefin_id) == Some(set[i].id@)
                && within_recent(s1.balance_history@, s1.accounts@[k].id@, s1.accounts@[k].balance, ws1);
        lemma_external_id_index(s1, set[i].id@, ks);
        assert(ks == kr);
        let aid = s1.accounts@[kr].id@;
        lemma_latest_recent_in_range(s1.balance_history@, aid, ws1);
        let m = latest_recent(s1.balance_history@, aid, ws1)->0;
        if m < s0.balance_history@.len() {
            assert(s1.balance_history@[m] == s0.balance_history@[m]);
        }
        lemma_latest_shift(s1.balance_history@, aid, ws1, ws2);
        crate::money::lemma_amount_of_fits(set[i].balance@);
        assert(s1.accounts@[kr].balance == Amount { micros: amount_of(set[i].balance@) as i64 });
    }
    assert(all_settled_before(s1, set, t2));
    assert forall|i: int| 0 <= i < set.len() implies txs_known(s1, #[trigger] set[i]) by {}
}

} // verus!
