use budget_tracker_backend::models::{Account, BalanceHistory};
use budget_tracker_backend::money::Amount;
use budget_tracker_backend::simplefin::{
    SimplefinAccount, SimplefinAccountSet, SimplefinOrganization, SimplefinTransaction,
};
use budget_tracker_backend::error::SyncError;
use budget_tracker_backend::store::LocalStore;
use budget_tracker_backend::sync::{keys_are_fresh, SyncService, SyncStats};

const NOW: i64 = 1_700_000_000;
const TODAY: i32 = 738_838;

fn service() -> SyncService {
    SyncService::new("https://user:pw@bridge.example.com/simplefin".to_string()).unwrap()
}

fn tx(id: &str, amount: &str) -> SimplefinTransaction {
    SimplefinTransaction {
        id: id.to_string(),
        posted: Some(NOW - 86_400),
        amount: amount.to_string(),
        description: format!("tx {}", id),
        payee: Some("Shop".to_string()),
        memo: None,
        transacted_at: None,
        pending: Some(true),
    }
}

fn account(id: &str, balance: &str, available: Option<&str>, txs: Vec<SimplefinTransaction>) -> SimplefinAccount {
    SimplefinAccount {
        id: id.to_string(),
        name: format!("Account {}", id),
        org: Some(SimplefinOrganization { name: Some("First Bank".to_string()), domain: None }),
        balance: balance.to_string(),
        available_balance_raw: available.map(|s| s.to_string()),
        available_balance: Amount { micros: 0 },
        is_credit_card: false,
        transactions: Some(txs),
    }
}

fn snapshot(balance_a: &str) -> SimplefinAccountSet {
    let mut set = SimplefinAccountSet {
        accounts: vec![
            account("A", balance_a, Some(balance_a), vec![tx("T1", "-4.50"), tx("T2", "1200.00")]),
            account("B", "-250.00", None, vec![tx("T3", "-20.00")]),
        ],
    };
    set.post_process();
    set
}

fn stats_tuple(s: &SyncStats) -> (u32, u32, u32, u32) {
    (s.accounts_created, s.accounts_updated, s.transactions_created, s.balance_records_created)
}

fn account_by_ext<'a>(store: &'a LocalStore, ext: &str) -> Vec<&'a Account> {
    store.accounts.iter().filter(|a| a.simplefin_id.as_deref() == Some(ext)).collect()
}

#[test]
fn first_pass_creates_everything() {
    let svc = service();
    let mut store = LocalStore::new();
    let stats = svc.sync_all(&mut store, &snapshot("100.00"), NOW, TODAY).unwrap();
    assert_eq!(stats_tuple(&stats), (2, 0, 3, 2));
    assert_eq!(store.accounts.len(), 2);
    assert_eq!(store.transactions.len(), 3);
    assert_eq!(store.balance_history.len(), 2);
    let a = account_by_ext(&store, "A")[0];
    assert_eq!(a.account_type, "checking");
    assert_eq!(a.institution, "First Bank");
    assert_eq!(a.balance, Amount { micros: 100_000_000 });
    assert_eq!(a.is_credit_card, Some(false));
    let b = account_by_ext(&store, "B")[0];
    assert_eq!(b.account_type, "credit");
    assert_eq!(b.is_credit_card, Some(true));
    let t1 = store.transactions.iter().find(|t| t.simplefin_id.as_deref() == Some("T1")).unwrap();
    assert_eq!(t1.account_id, a.id);
    assert_eq!(t1.amount, Amount { micros: -4_500_000 });
    assert_eq!(t1.transaction_date, TODAY - 1);
    assert_eq!(t1.posted_date, Some(NOW - 86_400));
    assert_eq!(t1.pending, Some(true));
    assert_eq!(t1.created_at, NOW);
}

#[test]
fn second_pass_is_idempotent() {
    let svc = service();
    let mut store = LocalStore::new();
    svc.sync_all(&mut store, &snapshot("100.00"), NOW, TODAY).unwrap();
    let stats = svc.sync_all(&mut store, &snapshot("100.00"), NOW + 300, TODAY).unwrap();
    assert_eq!(stats_tuple(&stats), (0, 2, 0, 0));
    assert_eq!(store.accounts.len(), 2);
    assert_eq!(store.transactions.len(), 3);
    assert_eq!(store.balance_history.len(), 2);
}

#[test]
fn repeated_transactions_are_imported_once() {
    let svc = service();
    let mut store = LocalStore::new();
    let mut set = SimplefinAccountSet {
        accounts: vec![account("A", "1.00", Some("1.00"), vec![tx("T1", "1"), tx("T1", "2")])],
    };
    set.post_process();
    let stats = svc.sync_all(&mut store, &set, NOW, TODAY).unwrap();
    assert_eq!(stats.transactions_created, 1);
    for k in 0..3 {
        let stats = svc.sync_all(&mut store, &set, NOW + 60 * (k + 1), TODAY).unwrap();
        assert_eq!(stats.transactions_created, 0);
    }
    let n = store.transactions.iter().filter(|t| t.simplefin_id.as_deref() == Some("T1")).count();
    assert_eq!(n, 1);
    assert_eq!(store.transactions[0].amount, Amount { micros: 1_000_000 });
}

#[test]
fn imported_transactions_are_never_updated() {
    let svc = service();
    let mut store = LocalStore::new();
    svc.sync_all(&mut store, &snapshot("100.00"), NOW, TODAY).unwrap();
    let mut changed = snapshot("100.00");
    changed.accounts[0].transactions = Some(vec![tx("T1", "-99.00")]);
    svc.sync_all(&mut store, &changed, NOW + 60, TODAY).unwrap();
    let t1 = store.transactions.iter().find(|t| t.simplefin_id.as_deref() == Some("T1")).unwrap();
    assert_eq!(t1.amount, Amount { micros: -4_500_000 });
}

#[test]
fn accounts_match_by_external_id_and_take_latest_values() {
    let svc = service();
    let mut store = LocalStore::new();
    svc.sync_all(&mut store, &snapshot("100.00"), NOW, TODAY).unwrap();
    let id_before = account_by_ext(&store, "A")[0].id.clone();
    let mut renamed = snapshot("250.00");
    renamed.accounts[0].name = "Renamed".to_string();
    renamed.accounts[0].org = None;
    svc.sync_all(&mut store, &renamed, NOW + 600, TODAY).unwrap();
    let found = account_by_ext(&store, "A");
    assert_eq!(found.len(), 1);
    assert_eq!(found[0].id, id_before);
    assert_eq!(found[0].name, "Renamed");
    assert_eq!(found[0].institution, "Unknown");
    assert_eq!(found[0].balance, Amount { micros: 250_000_000 });
    assert_eq!(found[0].last_updated, NOW + 600);
    assert_eq!(found[0].created_at, NOW);
}

#[test]
fn manual_accounts_are_untouched() {
    let svc = service();
    let mut store = LocalStore::new();
    store.accounts.push(Account {
        id: "manual-1".to_string(),
        name: "Cash".to_string(),
        institution: "Wallet".to_string(),
        account_type: "cash".to_string(),
        balance: Amount { micros: 5_000_000 },
        last_updated: 1,
        created_at: 1,
        simplefin_id: None,
        available_balance: None,
        is_credit_card: None,
    });
    svc.sync_all(&mut store, &snapshot("100.00"), NOW, TODAY).unwrap();
    assert_eq!(store.accounts[0].name, "Cash");
    assert_eq!(store.accounts[0].last_updated, 1);
    assert_eq!(store.accounts.len(), 3);
}

fn store_with_prior_sample(balance_micros: i64, at: i64) -> (LocalStore, String) {
    let svc = service();
    let mut store = LocalStore::new();
    svc.sync_all(&mut store, &snapshot("100.00"), at - 7_200, TODAY).unwrap();
    let id = account_by_ext(&store, "A")[0].id.clone();
    store.balance_history.push(BalanceHistory {
        id: "prior".to_string(),
        account_id: id.clone(),
        balance: Amount { micros: balance_micros },
        timestamp: at,
    });
    (store, id)
}

#[test]
fn sub_cent_change_records_no_sample() {
    let svc = service();
    let (mut store, id) = store_with_prior_sample(100_000_000, NOW - 600);
    svc.sync_all(&mut store, &snapshot("100.005"), NOW, TODAY).unwrap();
    let n = store.balance_history.iter().filter(|s| s.account_id == id && s.timestamp == NOW).count();
    assert_eq!(n, 0);
}

#[test]
fn two_cent_change_records_a_sample() {
    let svc = service();
    let (mut store, id) = store_with_prior_sample(100_000_000, NOW - 600);
    svc.sync_all(&mut store, &snapshot("100.02"), NOW, TODAY).unwrap();
    let recorded: Vec<_> = store.balance_history.iter().filter(|s| s.account_id == id && s.timestamp == NOW).collect();
    assert_eq!(recorded.len(), 1);
    assert_eq!(recorded[0].balance, Amount { micros: 100_020_000 });
}

#[test]
fn stale_sample_does_not_suppress_recording() {
    let svc = service();
    let (mut store, id) = store_with_prior_sample(100_000_000, NOW - 3_600);
    svc.sync_all(&mut store, &snapshot("100.00"), NOW, TODAY).unwrap();
    let n = store.balance_history.iter().filter(|s| s.account_id == id && s.timestamp == NOW).count();
    assert_eq!(n, 1);
}

#[test]
fn malformed_transaction_amount_is_imported_as_zero() {
    let svc = service();
    let mut store = LocalStore::new();
    let mut set = SimplefinAccountSet {
        accounts: vec![account("A", "1.00", Some("1.00"), vec![tx("BAD", "not-a-number")])],
    };
    set.post_process();
    let stats = svc.sync_all(&mut store, &set, NOW, TODAY).unwrap();
    assert_eq!(stats.transactions_created, 1);
    assert_eq!(store.transactions[0].amount, Amount { micros: 0 });
}

#[test]
fn transaction_without_dates_falls_back_to_today() {
    let svc = service();
    let mut store = LocalStore::new();
    let mut t = tx("T9", "3");
    t.posted = None;
    t.pending = None;
    let mut set = SimplefinAccountSet { accounts: vec![account("A", "1", Some("1"), vec![t])] };
    set.post_process();
    svc.sync_all(&mut store, &set, NOW, TODAY).unwrap();
    assert_eq!(store.transactions[0].transaction_date, TODAY);
    assert_eq!(store.transactions[0].posted_date, None);
    assert_eq!(store.transactions[0].pending, Some(false));
}

#[test]
fn empty_snapshot_changes_nothing() {
    let svc = service();
    let mut store = LocalStore::new();
    let stats = svc.sync_all(&mut store, &SimplefinAccountSet { accounts: vec![] }, NOW, TODAY).unwrap();
    assert_eq!(stats_tuple(&stats), (0, 0, 0, 0));
    assert_eq!(stats.sync_duration_ms, 0);
    assert!(store.accounts.is_empty());
}

#[test]
fn store_lookups() {
    let svc = service();
    let mut store = LocalStore::new();
    svc.sync_all(&mut store, &snapshot("100.00"), NOW, TODAY).unwrap();
    assert_eq!(store.find_account_by_external_id(&"B".to_string()), Some(1));
    assert_eq!(store.find_account_by_external_id(&"Z".to_string()), None);
    assert!(store.has_transaction_with_external_id(&"T3".to_string()));
    assert!(!store.has_transaction_with_external_id(&"T4".to_string()));
    let id = store.accounts[0].id.clone();
    assert_eq!(store.latest_sample_since(&id, NOW - 3_600), Some(0));
    assert_eq!(store.latest_sample_since(&id, NOW), None);
    assert!(!store.is_fresh_id(&id));
    assert!(store.is_fresh_id(&"unused".to_string()));
}

#[test]
fn reconcile_uses_the_given_keys_in_order() {
    let mut store = LocalStore::new();
    let mut set = SimplefinAccountSet {
        accounts: vec![account("A", "5", Some("5"), vec![tx("T1", "1")])],
    };
    set.post_process();
    let ids: Vec<String> = vec!["k0".to_string(), "k1".to_string(), "k2".to_string()];
    let stats = SyncService::reconcile(&mut store, &set, NOW, TODAY, &ids);
    assert_eq!(stats_tuple(&stats), (1, 0, 1, 1));
    assert_eq!(store.accounts[0].id, "k0");
    assert_eq!(store.balance_history[0].id, "k1");
    assert_eq!(store.balance_history[0].account_id, "k0");
    assert_eq!(store.transactions[0].id, "k2");
    assert_eq!(store.transactions[0].account_id, "k0");
    assert!(store.is_well_formed());
}

#[test]
fn duplicate_external_ids_are_not_well_formed() {
    let mut store = LocalStore::new();
    let mut set = SimplefinAccountSet { accounts: vec![account("A", "5", Some("5"), vec![])] };
    set.post_process();
    SyncService::reconcile(&mut store, &set, NOW, TODAY, &vec!["k0".to_string(), "k1".to_string()]);
    assert!(store.is_well_formed());
    store.accounts.push(Account {
        id: "other".to_string(),
        name: "Dup".to_string(),
        institution: "X".to_string(),
        account_type: "checking".to_string(),
        balance: Amount { micros: 0 },
        last_updated: 0,
        created_at: 0,
        simplefin_id: Some("A".to_string()),
        available_balance: None,
        is_credit_card: None,
    });
    assert!(!store.is_well_formed());
}

#[test]
fn current_clock_is_consistent() {
    let (now, today) = budget_tracker_backend::simplefin::current_clock();
    assert!(now > 1_600_000_000);
    assert_eq!(today as i64, now.div_euclid(86_400) + 719_163);
}

#[test]
fn count_of_keys_needed() {
    let set = snapshot("1");
    assert_eq!(budget_tracker_backend::sync::count_ids_needed(&set), Some(2 + 2 + 2 + 1));
}

#[test]
fn reconcile_with_keys_fails_cleanly_on_bad_keys() {
    let mut set = SimplefinAccountSet { accounts: vec![account("A", "5", Some("5"), vec![tx("T1", "1")])] };
    set.post_process();
    let mut store = LocalStore::new();
    let too_few = vec!["k0".to_string(), "k1".to_string()];
    let r = SyncService::reconcile_with_keys(&mut store, &set, NOW, TODAY, &too_few);
    assert!(matches!(r, Err(SyncError::Storage(_))));
    assert!(store.accounts.is_empty() && store.transactions.is_empty() && store.balance_history.is_empty());
    let repeated = vec!["k0".to_string(), "k1".to_string(), "k0".to_string()];
    let r = SyncService::reconcile_with_keys(&mut store, &set, NOW, TODAY, &repeated);
    assert!(matches!(r, Err(SyncError::Storage(_))));
    assert!(store.accounts.is_empty());
    let good = vec!["k0".to_string(), "k1".to_string(), "k2".to_string()];
    let stats = SyncService::reconcile_with_keys(&mut store, &set, NOW, TODAY, &good).unwrap();
    assert_eq!(stats_tuple(&stats), (1, 0, 1, 1));
    // A key already in use makes the next pass fail and leaves the ledger as it was.
    let mut other = SimplefinAccountSet { accounts: vec![account("B", "7", Some("7"), vec![])] };
    other.post_process();
    let used = vec!["k0".to_string(), "fresh".to_string()];
    let r = SyncService::reconcile_with_keys(&mut store, &other, NOW + 60, TODAY, &used);
    assert!(matches!(r, Err(SyncError::Storage(_))));
    assert_eq!(store.accounts.len(), 1);
    assert_eq!(store.balance_history.len(), 1);
}

#[test]
fn empty_snapshot_needs_no_keys() {
    let mut store = LocalStore::new();
    let r = SyncService::reconcile_with_keys(&mut store, &SimplefinAccountSet { accounts: vec![] }, NOW, TODAY, &vec![]);
    assert!(r.is_ok());
}

#[test]
fn keys_freshness_check() {
    let mut store = LocalStore::new();
    let mut set = SimplefinAccountSet { accounts: vec![account("A", "5", Some("5"), vec![])] };
    set.post_process();
    SyncService::reconcile(&mut store, &set, NOW, TODAY, &vec!["k0".to_string(), "k1".to_string()]);
    assert!(keys_are_fresh(&store, &vec!["x".to_string(), "y".to_string()]));
    assert!(!keys_are_fresh(&store, &vec!["x".to_string(), "x".to_string()]));
    assert!(!keys_are_fresh(&store, &vec!["k1".to_string()]));
}

#[test]
fn second_pass_keeps_category_and_creation_time() {
    let svc = service();
    let mut store = LocalStore::new();
    svc.sync_all(&mut store, &snapshot("100.00"), NOW, TODAY).unwrap();
    let mut later = snapshot("100.00");
    later.accounts[1].available_balance_raw = Some("12.00".to_string());
    later.post_process();
    svc.sync_all(&mut store, &later, NOW + 60, TODAY).unwrap();
    let b = account_by_ext(&store, "B")[0];
    assert_eq!(b.account_type, "credit");
    assert_eq!(b.created_at, NOW);
    assert_eq!(b.is_credit_card, Some(false));
}
