//! The log: append order, range reads, and replay equivalence.

use loom::data::{Account, Kind, Message, Transaction};
use loom::errors::Error;
use loom::ledger::Ledger;
use loom::state::State;

fn key(tag: u8) -> [u8; 32] {
    let mut k = [0u8; 32];
    k[0] = tag;
    k
}

fn transfer(from: [u8; 32], to: [u8; 32], amount: u64, fee: u64) -> Message {
    let mut m = Message::default();
    m.pld.kind = Kind::Transaction;
    m.pld.from = from;
    m.pld.fee = fee;
    m.pld.data.tx = Transaction { to, amount };
    m
}

fn query(target: [u8; 32]) -> Message {
    let mut m = Message::default();
    m.pld.kind = Kind::GetBalance;
    m.pld.data.bal.key = target;
    m
}

#[test]
fn append_and_load() {
    let mut l = Ledger::new();
    assert_eq!(l.len(), 0);
    let batch = vec![transfer(key(1), key(2), 5, 1), query(key(2))];
    l.append(&batch);
    assert_eq!(l.len(), 2);
    l.append(&vec![transfer(key(2), key(3), 1, 0)]);
    assert_eq!(l.len(), 3);

    let got = l.load(1, 2).expect("in range");
    assert_eq!(got.len(), 2);
    assert!(matches!(got[0].pld.kind, Kind::GetBalance));
    assert_eq!(got[1].pld.data.tx.amount, 1);

    let whole = l.load(0, 3).expect("whole log");
    assert_eq!(whole[0].pld.data.tx.amount, 5);

    let empty = l.load(3, 0).expect("empty tail");
    assert_eq!(empty.len(), 0);
}

#[test]
fn replay_empty_log() {
    let l = Ledger::new();
    let mut s = State::from_list(&vec![Account { from: key(1), balance: 5 }]).expect("from_list");
    let created = l.replay_all(&mut s).expect("replay");
    assert_eq!(created, 0);
    assert_eq!(s.get_balance(&key(1)).unwrap(), 5);
    assert!(l.load(0, 0).unwrap().is_empty());
}

#[test]
fn load_out_of_range() {
    let mut l = Ledger::new();
    l.append(&vec![query(key(1))]);
    assert!(matches!(l.load(0, 2).unwrap_err(), Error::OutOfRange));
    assert!(matches!(l.load(2, 0).unwrap_err(), Error::OutOfRange));
    assert!(matches!(l.load(1, 1).unwrap_err(), Error::OutOfRange));
    assert!(l.load(1, 0).is_ok());
}

// Replay equivalence: settling a sequence directly and replaying the
// same sequence from a log leave two fresh tables in the same state.
#[test]
fn replay_matches_direct_execution() {
    let seed = vec![
        Account { from: key(1), balance: 500 },
        Account { from: key(2), balance: 300 },
    ];
    let batch: Vec<Message> = vec![
        transfer(key(1), key(3), 100, 1),
        transfer(key(2), key(3), 50, 2),
        query(key(3)),
        transfer(key(3), key(4), 25, 0),
        transfer(key(1), key(9), 9_999, 0), // fails: insufficient
    ];

    let mut direct = State::from_list(&seed).expect("from_list");
    let mut direct_batch = batch.clone();
    let direct_created = direct.execute(&mut direct_batch).expect("execute");

    let mut l = Ledger::new();
    l.append(&batch);
    let mut replayed = State::from_list(&seed).expect("from_list");
    let replay_created = l.replay_all(&mut replayed).expect("replay");

    assert_eq!(direct_created, replay_created);
    for tag in 1..=9u8 {
        assert_eq!(direct.get_balance(&key(tag)).ok(), replayed.get_balance(&key(tag)).ok());
    }
    assert_eq!(direct.get_balance(&key(3)).unwrap(), 125);
    assert_eq!(direct.get_balance(&key(4)).unwrap(), 25);
}

// Replay in chunks equals replay whole: a log longer than one replay
// chunk still reconstructs the same table.
#[test]
fn replay_long_log() {
    let seed = vec![Account { from: key(1), balance: 2_000_000 }];
    let mut l = Ledger::new();
    let mut direct = State::from_list(&seed).expect("from_list");
    // More records than one replay chunk holds; three payees keep the
    // capacity-four table exactly full.
    for i in 0..1500u64 {
        let to = key((2 + (i % 3)) as u8);
        let batch = vec![transfer(key(1), to, 10, 1)];
        let mut direct_batch = batch.clone();
        direct.execute(&mut direct_batch).expect("execute");
        l.append(&batch);
    }
    let mut replayed = State::from_list(&seed).expect("from_list");
    l.replay_all(&mut replayed).expect("replay");
    for tag in 1..=5u8 {
        assert_eq!(direct.get_balance(&key(tag)).ok(), replayed.get_balance(&key(tag)).ok());
    }
    assert_eq!(direct.get_balance(&key(1)).unwrap(), 2_000_000 - 1500 * 11);
    assert_eq!(direct.get_balance(&key(2)).unwrap(), 5_000);
}
