//! The wallet's bookkeeping and instruction builders.

use loom::data::Kind;
use loom::errors::Error;
use loom::wallet::{to32b, Wallet};

#[test]
fn to32b_little_endian() {
    let b = to32b([0x0102_0304_0506_0708, 0, 0, u64::MAX]);
    assert_eq!(b[0], 0x08);
    assert_eq!(b[1], 0x07);
    assert_eq!(b[7], 0x01);
    assert_eq!(b[8], 0);
    assert_eq!(b[24], 0xFF);
    assert_eq!(b[31], 0xFF);
}

#[test]
fn add_and_find() {
    let mut w = Wallet::new();
    assert_eq!(w.pubkeys.len(), 0);
    w.add_keypair(([1u64; 8], [10, 11, 12, 13]));
    w.add_keypair(([2u64; 8], [20, 21, 22, 23]));
    assert_eq!(w.pubkeys.len(), 2);
    assert_eq!(w.privkeys.len(), 2);

    assert_eq!(w.find(to32b([10, 11, 12, 13])).unwrap(), 0);
    assert_eq!(w.find(to32b([20, 21, 22, 23])).unwrap(), 1);
    assert!(matches!(
        w.find(to32b([9, 9, 9, 9])).unwrap_err(),
        Error::KeyNotFound
    ));
}

#[test]
fn tx_builds_transfer() {
    let mut w = Wallet::new();
    w.add_keypair(([1u64; 8], [10, 11, 12, 13]));
    let to = to32b([7, 7, 7, 7]);
    let m = w.tx(0, to, 250, 3);
    assert!(matches!(m.pld.kind, Kind::Transaction));
    assert!(matches!(m.pld.state, loom::data::State::Pending));
    assert_eq!(m.pld.from, to32b([10, 11, 12, 13]));
    assert_eq!(m.pld.data.tx.to, to);
    assert_eq!(m.pld.data.tx.amount, 250);
    assert_eq!(m.pld.fee, 3);
    // Signing is the application's step: the signature leaves blank.
    assert!(m.sig.iter().all(|b| *b == 0));
}

#[test]
fn check_balance_builds_query() {
    let mut w = Wallet::new();
    w.add_keypair(([1u64; 8], [10, 11, 12, 13]));
    let acc = to32b([5, 6, 7, 8]);
    let m = w.check_balance(0, acc, 1);
    assert!(matches!(m.pld.kind, Kind::GetBalance));
    assert_eq!(m.pld.from, to32b([10, 11, 12, 13]));
    assert_eq!(m.pld.data.bal.key, acc);
    assert_eq!(m.pld.data.bal.amount, 0);
    assert_eq!(m.pld.fee, 1);
}

#[test]
fn encrypted_wallet_starts_empty() {
    let ew = loom::wallet::EncryptedWallet::new();
    assert_eq!(ew.pubkeys.len(), 0);
    assert_eq!(ew.privkeys.len(), 0);
}
