use astreuos_accounts::account::{Account, DecodeError};
use astreuos_accounts::codec::encode;
use astreuos_accounts::receipt::{Receipt, Status};

#[test]
fn status_tags() {
    assert_eq!(Status::Accepted.to_bytes(), vec![1u8]);
    assert_eq!(Status::BalanceError.to_bytes(), vec![2u8]);
    assert_eq!(Status::SolarError.to_bytes(), vec![3u8]);
}

#[test]
fn record_round_trip() {
    let mut a = Account::new();
    a.balance = 1_234_567;
    a.counter = 3;
    a.set([5u8; 32], [6u8; 32]);
    a.set([1u8; 32], [2u8; 32]);
    let b = Account::from_bytes(&a.to_bytes()).unwrap();
    assert_eq!(b.balance, 1_234_567);
    assert_eq!(b.counter, 3);
    assert_eq!(b.storage, a.storage);
}

#[test]
fn empty_account_round_trip() {
    let a = Account::new();
    let bytes = a.to_bytes();
    let b = Account::from_bytes(&bytes).unwrap();
    assert_eq!(b.balance, 0);
    assert_eq!(b.counter, 0);
    assert!(b.storage.is_empty());
    assert_eq!(b.to_bytes(), bytes);
}

#[test]
fn record_frames_each_field() {
    let mut a = Account::new();
    a.balance = 1000;
    let bytes = a.to_bytes();
    let mut expected = vec![1u8, 16];
    expected.extend_from_slice(&[0u8, 0, 0, 0, 0, 0, 0, 0, 0, 0, 0, 0, 0, 0, 3, 232]);
    expected.extend_from_slice(&[1u8, 16]);
    expected.extend_from_slice(&[0u8; 16]);
    expected.push(0);
    assert_eq!(bytes, expected);
}

#[test]
fn wrong_field_count_is_account_error() {
    let two = encode(&vec![vec![1u8], vec![2u8]]);
    assert_eq!(Account::from_bytes(&two).unwrap_err(), DecodeError::Account);
    assert_eq!(Account::from_bytes(&vec![7u8]).unwrap_err(), DecodeError::Account);
    assert_eq!(Account::from_bytes(&vec![1u8]).unwrap_err(), DecodeError::Account);
}

#[test]
fn wrong_entry_arity_is_key_value_error() {
    let entry = encode(&vec![vec![1u8; 32]]);
    let list = encode(&vec![entry]);
    let record = encode(&vec![vec![1u8], vec![0u8], list]);
    assert_eq!(Account::from_bytes(&record).unwrap_err(), DecodeError::KeyValue);
}

#[test]
fn later_entry_replaces_earlier() {
    let e1 = encode(&vec![vec![4u8; 32], vec![1u8; 32]]);
    let e2 = encode(&vec![vec![4u8; 32], vec![2u8; 32]]);
    let record = encode(&vec![vec![], vec![], encode(&vec![e1, e2])]);
    let a = Account::from_bytes(&record).unwrap();
    assert_eq!(a.storage, vec![([4u8; 32], [2u8; 32])]);
}

#[test]
fn storage_hash_ignores_set_order() {
    let mut a = Account::new();
    a.set([5u8; 32], [6u8; 32]);
    a.set([1u8; 32], [2u8; 32]);
    let mut b = Account::new();
    b.set([1u8; 32], [2u8; 32]);
    b.set([5u8; 32], [6u8; 32]);
    assert_eq!(a.storage_hash(), b.storage_hash());
    assert_eq!(a.hash(), b.hash());
    b.set([5u8; 32], [7u8; 32]);
    assert_ne!(a.storage_hash(), b.storage_hash());
}

#[test]
fn account_hash_depends_on_balance() {
    let a = Account::new();
    let mut b = Account::new();
    b.balance = 1;
    assert_ne!(a.hash(), b.hash());
    assert_ne!(a.hash(), [0u8; 32]);
}

#[test]
fn receipt_hash_depends_on_status() {
    let a = Receipt { solar_used: 1000, status: Status::Accepted };
    let b = Receipt { solar_used: 1000, status: Status::SolarError };
    assert_ne!(a.hash(), b.hash());
}
