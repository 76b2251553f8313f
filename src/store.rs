//! The local ledger: accounts, transactions and balance samples, with the
//! lookups and writes reconciliation needs.
use vstd::prelude::*;
use crate::models::{Account, BalanceHistory, Transaction, opt_view};

verus! {

/// The three tables reconciliation reads and writes.
#[derive(Debug)]
pub struct LocalStore {
    pub accounts: Vec<Account>,
    pub transactions: Vec<Transaction>,
    pub balance_history: Vec<BalanceHistory>,
}

/// `s` is a sample of `account_id` newer than `since`.
pub open spec fn is_recent_sample(s: BalanceHistory, account_id: Seq<char>, since: i64) -> bool {
    s.account_id@ == account_id && s.timestamp > since
}

/// Index of the most recent sample of `account_id` newer than `since`: the
/// greatest timestamp, and among equal timestamps the one written last.
pub open spec fn latest_recent(samples: Seq<BalanceHistory>, account_id: Seq<char>, since: i64) -> Option<int>
    decreases samples.len(),
{
    if samples.len() == 0 {
        None
    } else {
        let rest = latest_recent(samples.drop_last(), account_id, since);
        let last = samples.last();
        if is_recent_sample(last, account_id, since) && (rest is None || samples[rest->0].timestamp
            <= last.timestamp) {
            Some(samples.len() - 1)
        } else {
            rest
        }
    }
}

pub proof fn lemma_latest_recent_in_range(samples: Seq<BalanceHistory>, account_id: Seq<char>, since: i64)
    ensures
        latest_recent(samples, account_id, since) is Some ==> {
            let k = latest_recent(samples, account_id, since)->0;
            &&& 0 <= k < samples.len()
            &&& is_recent_sample(samples[k], account_id, since)
        },
        latest_recent(samples, account_id, since) is None ==> forall|k: int|
            0 <= k < samples.len() ==> !is_recent_sample(#[trigger] samples[k], account_id, since),
    decreases samples.len(),
{
    if samples.len() > 0 {
        lemma_latest_recent_in_range(samples.drop_last(), account_id, since);
        assert forall|k: int| 0 <= k < samples.len() - 1 implies samples.drop_last()[k] == samples[k] by {}
    }
}

/// Whether an optional external identifier is `ext`.
pub fn matches_external_id(o: &Option<String>, ext: &String) -> (r: bool)
    ensures
        r == (opt_view(*o) == Some(ext@)),
{
    match o {
        Some(x) => *x == *ext,
        None => false,
    }
}

impl LocalStore {
    /// Local identifiers are unique, and so is each non-null external
    /// identifier among accounts and among transactions.
    pub open spec fn wf(&self) -> bool {
        &&& forall|i: int, j: int|
            0 <= i < j < self.accounts@.len() ==> self.accounts@[i].id@ != self.accounts@[j].id@
        &&& forall|i: int, j: int|
            0 <= i < j < self.accounts@.len() && self.accounts@[i].simplefin_id is Some
                ==> opt_view(self.accounts@[i].simplefin_id) != opt_view(self.accounts@[j].simplefin_id)
        &&& forall|i: int, j: int|
            0 <= i < j < self.transactions@.len() && self.transactions@[i].simplefin_id is Some
                ==> opt_view(self.transactions@[i].simplefin_id) != opt_view(
                self.transactions@[j].simplefin_id,
            )
    }

    /// `id` names no row of any table, nor the account of any sample.
    pub open spec fn id_in_use(&self, id: Seq<char>) -> bool {
        ||| exists|i: int| 0 <= i < self.accounts@.len() && #[trigger] self.accounts@[i].id@ == id
        ||| exists|i: int| 0 <= i < self.transactions@.len() && #[trigger] self.transactions@[i].id@ == id
        ||| exists|i: int| 0 <= i < self.balance_history@.len() && #[trigger] self.balance_history@[i].id@ == id
        ||| exists|i: int|
            0 <= i < self.balance_history@.len() && #[trigger] self.balance_history@[i].account_id@ == id
    }

    /// Index of the account whose external identifier is `ext`, if any.
    pub open spec fn account_with_external_id(&self, ext: Seq<char>) -> Option<int> {
        if exists|i: int|
            0 <= i < self.accounts@.len() && opt_view(#[trigger] self.accounts@[i].simplefin_id) == Some(
                ext,
            ) {
            Some(
                choose|i: int|
                    0 <= i < self.accounts@.len() && opt_view(#[trigger] self.accounts@[i].simplefin_id)
                        == Some(ext),
            )
        } else {
            None
        }
    }

    /// Some transaction carries the external identifier `ext`.
    pub open spec fn has_transaction_ext(&self, ext: Seq<char>) -> bool {
        exists|i: int|
            0 <= i < self.transactions@.len() && opt_view(#[trigger] self.transactions@[i].simplefin_id)
                == Some(ext)
    }

    /// An empty ledger.
    pub fn new() -> (r: Self)
        ensures
            r.wf(),
            r.accounts@.len() == 0,
            r.transactions@.len() == 0,
            r.balance_history@.len() == 0,
    {
        LocalStore { accounts: Vec::new(), transactions: Vec::new(), balance_history: Vec::new() }
    }

    /// Looks up the account whose external identifier is `ext`.
    pub fn find_account_by_external_id(&self, ext: &String) -> (r: Option<usize>)
        requires
            self.wf(),
        ensures
            r is Some <==> self.account_with_external_id(ext@) is Some,
            r is Some ==> r->0 as int == self.account_with_external_id(ext@)->0,
    {
        let mut i: usize = 0;
        while i < self.accounts.len()
            invariant
                0 <= i <= self.accounts@.len(),
                self.wf(),
                forall|k: int|
                    0 <= k < i ==> opt_view(#[trigger] self.accounts@[k].simplefin_id) != Some(ext@),
            decreases self.accounts@.len() - i,
        {
            let found = matches_external_id(&self.accounts[i].simplefin_id, ext);
            if found {
                proof {
                    let c = self.account_with_external_id(ext@)->0;
                    assert(opt_view(self.accounts@[i as int].simplefin_id) == Some(ext@));
                    assert(0 <= c < self.accounts@.len() && opt_view(self.accounts@[c].simplefin_id) == Some(ext@));
                    if c < i {
                        assert(opt_view(self.accounts@[c].simplefin_id) != Some(ext@));
                    } else if c > i {
                        assert(self.accounts@[i as int].simplefin_id is Some);
                        assert(opt_view(self.accounts@[i as int].simplefin_id) != opt_view(self.accounts@[c].simplefin_id));
                    }
                }
                return Some(i);
            }
            i = i + 1;
        }
        None
    }

    /// Whether some transaction already carries the external identifier `ext`.
    pub fn has_transaction_with_external_id(&self, ext: &String) -> (r: bool)
        ensures
            r == self.has_transaction_ext(ext@),
    {
        let mut i: usize = 0;
        while i < self.transactions.len()
            invariant
                0 <= i <= self.transactions@.len(),
                forall|k: int|
                    0 <= k < i ==> opt_view(#[trigger] self.transactions@[k].simplefin_id) != Some(ext@),
            decreases self.transactions@.len() - i,
        {
            let found = matches_external_id(&self.transactions[i].simplefin_id, ext);
            if found {
                assert(opt_view(self.transactions@[i as int].simplefin_id) == Some(ext@));
                return true;
            }
            i = i + 1;
        }
        false
    }

    /// The most recent balance sample of `account_id` newer than `since`.
    pub fn latest_sample_since(&self, account_id: &String, since: i64) -> (r: Option<usize>)
        ensures
            r is Some <==> latest_recent(self.balance_history@, account_id@, since) is Some,
            r is Some ==> r->0 as int == latest_recent(self.balance_history@, account_id@, since)->0,
    {
        let mut best: Option<usize> = None;
        let mut i: usize = 0;
        while i < self.balance_history.len()
            invariant
                0 <= i <= self.balance_history@.len(),
                best is Some <==> latest_recent(self.balance_history@.take(i as int), account_id@, since) is Some,
                best is Some ==> best->0 as int == latest_recent(self.balance_history@.take(i as int), account_id@, since)->0,
                best is Some ==> best->0 < i,
            decreases self.balance_history@.len() - i,
        {
            let s = &self.balance_history[i];
            proof {
                assert(self.balance_history@.take(i + 1).drop_last() =~= self.balance_history@.take(i as int));
            }
            let recent = s.account_id == *account_id && s.timestamp > since;
            if recent {
                let newer = match best {
                    None => true,
                    Some(b) => self.balance_history[b].timestamp <= s.timestamp,
                };
                if newer {
                    best = Some(i);
                }
            }
            i = i + 1;
        }
        proof {
            assert(self.balance_history@.take(i as int) =~= self.balance_history@);
        }
        best
    }

    /// Whether `id` is unused as a key anywhere in the ledger.
    pub fn is_fresh_id(&self, id: &String) -> (r: bool)
        ensures
            r == !self.id_in_use(id@),
    {
        let mut i: usize = 0;
        while i < self.accounts.len()
            invariant
                0 <= i <= self.accounts@.len(),
                forall|k: int| 0 <= k < i ==> #[trigger] self.accounts@[k].id@ != id@,
            decreases self.accounts@.len() - i,
        {
            if self.accounts[i].id == *id {
                return false;
            }
            i = i + 1;
        }
        let mut i: usize = 0;
        while i < self.transactions.len()
            invariant
                0 <= i <= self.transactions@.len(),
                forall|k: int| 0 <= k < self.accounts@.len() ==> #[trigger] self.accounts@[k].id@ != id@,
                forall|k: int| 0 <= k < i ==> #[trigger] self.transactions@[k].id@ != id@,
            decreases self.transactions@.len() - i,
        {
            if self.transactions[i].id == *id {
                return false;
            }
            i = i + 1;
        }
        let mut i: usize = 0;
        while i < self.balance_history.len()
            invariant
                0 <= i <= self.balance_history@.len(),
                forall|k: int| 0 <= k < self.accounts@.len() ==> #[trigger] self.accounts@[k].id@ != id@,
                forall|k: int| 0 <= k < self.transactions@.len() ==> #[trigger] self.transactions@[k].id@ != id@,
                forall|k: int| 0 <= k < i ==> #[trigger] self.balance_history@[k].id@ != id@,
                forall|k: int| 0 <= k < i ==> #[trigger] self.balance_history@[k].account_id@ != id@,
            decreases self.balance_history@.len() - i,
        {
            if self.balance_history[i].id == *id || self.balance_history[i].account_id == *id {
                return false;
            }
            i = i + 1;
        }
        true
    }

    /// Whether the ledger satisfies `wf`: unique local account keys and
    /// unique external identifiers among accounts and among transactions.
    pub fn is_well_formed(&self) -> (r: bool)
        ensures
            r == self.wf(),
    {
        let n = self.accounts.len();
        let mut i: usize = 0;
        while i < n
            invariant
                n == self.accounts@.len(),
                0 <= i <= n,
                forall|a: int, b: int| 0 <= a < i && a < b < n ==> self.accounts@[a].id@ != self.accounts@[b].id@,
                forall|a: int, b: int|
                    0 <= a < i && a < b < n && self.accounts@[a].simplefin_id is Some ==> opt_view(
                        self.accounts@[a].simplefin_id,
                    ) != opt_view(self.accounts@[b].simplefin_id),
            decreases n - i,
        {
            let mut j: usize = i + 1;
            while j < n
                invariant
                    n == self.accounts@.len(),
                    0 <= i < n,
                    i < j <= n,
                    forall|b: int| i < b < j ==> self.accounts@[i as int].id@ != self.accounts@[b].id@,
                    forall|b: int|
                        i < b < j && self.accounts@[i as int].simplefin_id is Some ==> opt_view(
                            self.accounts@[i as int].simplefin_id,
                        ) != opt_view(self.accounts@[b].simplefin_id),
                decreases n - j,
            {
                if self.accounts[i].id == self.accounts[j].id {
                    return false;
                }
                let clash = match &self.accounts[i].simplefin_id {
                    Some(e) => matches_external_id(&self.accounts[j].simplefin_id, e),
                    None => false,
                };
                if clash {
                    return false;
                }
                j = j + 1;
            }
            i = i + 1;
        }
        let m = self.transactions.len();
        let mut i: usize = 0;
        while i < m
            invariant
                n == self.accounts@.len(),
                m == self.transactions@.len(),
                0 <= i <= m,
                forall|a: int, b: int| 0 <= a < b < n ==> self.accounts@[a].id@ != self.accounts@[b].id@,
                forall|a: int, b: int|
                    0 <= a < b < n && self.accounts@[a].simplefin_id is Some ==> opt_view(
                        self.accounts@[a].simplefin_id,
                    ) != opt_view(self.accounts@[b].simplefin_id),
                forall|a: int, b: int|
                    0 <= a < i && a < b < m && self.transactions@[a].simplefin_id is Some ==> opt_view(
                        self.transactions@[a].simplefin_id,
                    ) != opt_view(self.transactions@[b].simplefin_id),
            decreases m - i,
        {
            let mut j: usize = i + 1;
            while j < m
                invariant
                    m == self.transactions@.len(),
                    0 <= i < m,
                    i < j <= m,
                    forall|b: int|
                        i < b < j && self.transactions@[i as int].simplefin_id is Some ==> opt_view(
                            self.transactions@[i as int].simplefin_id,
                        ) != opt_view(self.transactions@[b].simplefin_id),
                decreases m - j,
            {
                let clash = match &self.transactions[i].simplefin_id {
                    Some(e) => matches_external_id(&self.transactions[j].simplefin_id, e),
                    None => false,
                };
                if clash {
                    return false;
                }
                j = j + 1;
            }
            i = i + 1;
        }
        true
    }
}

} // verus!
