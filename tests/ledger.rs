use astreuos_accounts::account::Account;
use astreuos_accounts::ledger::{Accounts, Transaction, ACCOUNT_CREATION_COST, BASE_TX_COST};
use astreuos_accounts::receipt::{Receipt, Status};

const SENDER: [u8; 32] = [1u8; 32];
const RECIPIENT: [u8; 32] = [2u8; 32];

fn funded(balance: u128, counter: u128) -> Account {
    let mut a = Account::new();
    a.balance = balance;
    a.counter = counter;
    a
}

fn ledger(with_recipient: bool) -> Accounts {
    let mut l = Accounts::new();
    l.insert(SENDER, funded(5_000_000, 0));
    if with_recipient {
        l.insert(RECIPIENT, funded(100, 0));
    }
    l
}

fn transfer(value: u128, counter: u128, solar_price: u128, solar_limit: u128) -> Transaction {
    Transaction { sender: SENDER, recipient: RECIPIENT, value, counter, solar_price, solar_limit }
}

#[test]
fn existing_recipient_receives_value() {
    let l = ledger(true);
    let (delta, receipt) = l.apply_transaction(&transfer(500, 0, 10, 2000), 10).unwrap();
    assert_eq!(delta.len(), 2);
    assert_eq!(delta[0].0, SENDER);
    assert_eq!(delta[0].1.balance, 4_989_500);
    assert_eq!(delta[1].0, RECIPIENT);
    assert_eq!(delta[1].1.balance, 600);
    assert_eq!(receipt, Receipt { solar_used: 1000, status: Status::Accepted });
}

#[test]
fn price_below_floor_is_rejected() {
    let l = ledger(true);
    assert!(l.apply_transaction(&transfer(500, 0, 5, 2000), 10).is_none());
    assert_eq!(l.accounts[0].1.balance, 5_000_000);
}

#[test]
fn new_account_is_created() {
    let l = ledger(false);
    let (delta, receipt) = l.apply_transaction(&transfer(500, 0, 10, 250_000), 10).unwrap();
    assert_eq!(delta.len(), 2);
    assert_eq!(delta[0].1.balance, 2_989_500);
    assert_eq!(delta[1].0, RECIPIENT);
    assert_eq!(delta[1].1.balance, 500);
    assert_eq!(delta[1].1.counter, 0);
    assert!(delta[1].1.storage.is_empty());
    assert_eq!(receipt, Receipt { solar_used: 201_000, status: Status::Accepted });
}

#[test]
fn creation_without_gas_fails() {
    let l = ledger(false);
    let (delta, receipt) = l.apply_transaction(&transfer(500, 0, 10, 1000), 10).unwrap();
    assert_eq!(delta.len(), 1);
    assert_eq!(delta[0].1.balance, 4_990_000);
    assert_eq!(receipt, Receipt { solar_used: 1000, status: Status::SolarError });
}

#[test]
fn self_transfer_is_rejected() {
    let l = ledger(true);
    let mut tx = transfer(500, 0, 10, 2000);
    tx.recipient = SENDER;
    assert!(l.apply_transaction(&tx, 10).is_none());
}

#[test]
fn nonce_mismatch_is_rejected() {
    let l = ledger(true);
    assert!(l.apply_transaction(&transfer(500, 1, 10, 2000), 10).is_none());
}

#[test]
fn low_gas_limit_is_rejected() {
    let l = ledger(true);
    assert!(l.apply_transaction(&transfer(500, 0, 10, BASE_TX_COST - 1), 10).is_none());
}

#[test]
fn missing_sender_is_rejected() {
    let mut l = Accounts::new();
    l.insert(RECIPIENT, funded(100, 0));
    assert!(l.apply_transaction(&transfer(500, 0, 10, 2000), 10).is_none());
}

#[test]
fn sender_below_base_fee_is_rejected() {
    let mut l = Accounts::new();
    l.insert(SENDER, funded(9_999, 0));
    l.insert(RECIPIENT, funded(100, 0));
    assert!(l.apply_transaction(&transfer(0, 0, 10, 2000), 10).is_none());
}

#[test]
fn insufficient_value_charges_fee_only() {
    let l = ledger(true);
    let (delta, receipt) = l.apply_transaction(&transfer(4_995_000, 0, 10, 2000), 10).unwrap();
    assert_eq!(delta.len(), 1);
    assert_eq!(delta[0].1.balance, 4_990_000);
    assert_eq!(receipt, Receipt { solar_used: 1000, status: Status::BalanceError });
}

#[test]
fn creation_fee_unaffordable() {
    let mut l = Accounts::new();
    l.insert(SENDER, funded(1_000_000, 0));
    let (delta, receipt) = l.apply_transaction(&transfer(1, 0, 10, 250_000), 10).unwrap();
    assert_eq!(delta.len(), 1);
    assert_eq!(delta[0].1.balance, 990_000);
    assert_eq!(receipt, Receipt { solar_used: 1000, status: Status::BalanceError });
}

#[test]
fn creation_then_value_unaffordable() {
    let l = ledger(false);
    let (delta, receipt) = l.apply_transaction(&transfer(3_000_000, 0, 10, 250_000), 10).unwrap();
    assert_eq!(delta.len(), 1);
    assert_eq!(delta[0].1.balance, 2_990_000);
    assert_eq!(receipt, Receipt { solar_used: BASE_TX_COST + ACCOUNT_CREATION_COST, status: Status::BalanceError });
}

#[test]
fn same_inputs_same_outcome() {
    let l = ledger(false);
    let tx = transfer(500, 0, 10, 250_000);
    let (d1, r1) = l.apply_transaction(&tx, 10).unwrap();
    let (d2, r2) = l.apply_transaction(&tx, 10).unwrap();
    assert_eq!(r1, r2);
    assert_eq!(d1.len(), d2.len());
    for i in 0..d1.len() {
        assert_eq!(d1[i].0, d2[i].0);
        assert_eq!(d1[i].1.balance, d2[i].1.balance);
    }
}

#[test]
fn ledger_insert_keeps_address_order_and_replaces() {
    let mut l = Accounts::new();
    l.insert([9u8; 32], funded(1, 0));
    l.insert([3u8; 32], funded(2, 0));
    l.insert([9u8; 32], funded(7, 0));
    assert_eq!(l.accounts.len(), 2);
    assert_eq!(l.accounts[0].0, [3u8; 32]);
    assert_eq!(l.accounts[1].1.balance, 7);
}

#[test]
fn ledger_hash_ignores_insertion_order() {
    let mut a = Accounts::new();
    a.insert([9u8; 32], funded(1, 0));
    a.insert([3u8; 32], funded(2, 5));
    let mut b = Accounts::new();
    b.insert([3u8; 32], funded(2, 5));
    b.insert([9u8; 32], funded(1, 0));
    assert_eq!(a.hash(), b.hash());
    let mut c = Accounts::new();
    c.insert([3u8; 32], funded(2, 6));
    c.insert([9u8; 32], funded(1, 0));
    assert_ne!(a.hash(), c.hash());
}

#[test]
fn credit_past_limit_is_rejected() {
    let mut l = Accounts::new();
    l.insert(SENDER, funded(5_000_000, 0));
    l.insert(RECIPIENT, funded(u128::MAX, 0));
    assert!(l.apply_transaction(&transfer(1, 0, 10, 2000), 10).is_none());
    assert!(l.apply_transaction(&transfer(0, 0, 10, 2000), 10).is_some());
}
