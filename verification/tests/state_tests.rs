//! The state engine: settlement, conservation, creation counting, growth.

use loom::data::{Account, Kind, Message, Transaction};
use loom::errors::Error;
use loom::state::State;

fn key(tag: u8) -> [u8; 32] {
    let mut k = [0u8; 32];
    k[0] = tag;
    k
}

fn transfer(from: [u8; 32], to: [u8; 32], amount: u64, fee: u64) -> Message {
    let mut m = Message::default();
    m.pld.kind = Kind::Transaction;
    m.pld.from = from;
    m.pld.fee = fee;
    m.pld.data.tx = Transaction { to, amount };
    m
}

fn query(target: [u8; 32]) -> Message {
    let mut m = Message::default();
    m.pld.kind = Kind::GetBalance;
    m.pld.data.bal.key = target;
    m
}

#[test]
fn state_test() {
    let mut s: State = State::new(64);
    let mut msgs: Vec<Message> = vec![];
    s.execute(&mut msgs).expect("e");
}

// The end-to-end example: capacity 4, a funded payer, an absent payee.
#[test]
fn transfer_end_to_end() {
    let k1 = key(1);
    let k2 = key(2);
    let mut s = State::from_list(&vec![Account { from: k1, balance: 1000 }]).expect("from_list");
    let mut batch = vec![transfer(k1, k2, 100, 1)];
    let created = s.execute(&mut batch).expect("execute");
    assert_eq!(created, 1);
    assert_eq!(s.get_balance(&k1).unwrap(), 899);
    assert_eq!(s.get_balance(&k2).unwrap(), 100);
    assert!(matches!(batch[0].pld.state, loom::data::State::Deposited));

    let mut batch2 = vec![query(k2)];
    let created2 = s.execute(&mut batch2).expect("execute");
    assert_eq!(created2, 0);
    assert_eq!(batch2[0].pld.data.bal.amount, 100);
}

// Conservation, insufficient side: no balance moves and the settlement
// state stays Pending.
#[test]
fn transfer_insufficient_funds() {
    let k1 = key(1);
    let k2 = key(2);
    let mut s = State::from_list(&vec![
        Account { from: k1, balance: 100 },
        Account { from: k2, balance: 7 },
    ])
    .expect("from_list");
    let mut batch = vec![transfer(k1, k2, 100, 1)];
    let created = s.execute(&mut batch).expect("execute");
    assert_eq!(created, 0);
    assert_eq!(s.get_balance(&k1).unwrap(), 100);
    assert_eq!(s.get_balance(&k2).unwrap(), 7);
    assert!(matches!(batch[0].pld.state, loom::data::State::Pending));
}

// Conservation, exact boundary: a balance that covers amount plus fee to
// the last unit settles and ends at zero.
#[test]
fn transfer_exact_balance() {
    let k1 = key(1);
    let k2 = key(2);
    let mut s = State::from_list(&vec![Account { from: k1, balance: 101 }]).expect("from_list");
    let mut batch = vec![transfer(k1, k2, 100, 1)];
    s.execute(&mut batch).expect("execute");
    assert_eq!(s.get_balance(&k1).unwrap(), 0);
    assert_eq!(s.get_balance(&k2).unwrap(), 100);
}

// An absent payer is silently dropped; the rest of the batch still runs.
#[test]
fn absent_payer_dropped() {
    let k1 = key(1);
    let k2 = key(2);
    let ghost_key = key(9);
    let mut s = State::from_list(&vec![Account { from: k1, balance: 50 }]).expect("from_list");
    let mut batch = vec![transfer(ghost_key, k2, 10, 0), transfer(k1, k2, 10, 0)];
    let created = s.execute(&mut batch).expect("execute");
    assert_eq!(created, 1);
    assert_eq!(s.get_balance(&k1).unwrap(), 40);
    assert_eq!(s.get_balance(&k2).unwrap(), 10);
    assert!(matches!(batch[0].pld.state, loom::data::State::Pending));
    assert!(matches!(batch[1].pld.state, loom::data::State::Deposited));
}

// Creation counting: two previously-unseen payees created, with a query
// and a failed transfer interleaved, count exactly two.
#[test]
fn creation_count_ignores_noise() {
    let k1 = key(1);
    let k2 = key(2);
    let k3 = key(3);
    let mut s = State::from_list(&vec![Account { from: k1, balance: 1000 }]).expect("from_list");
    let mut batch = vec![
        transfer(k1, k2, 10, 0),
        query(k1),
        transfer(k1, k3, 5000, 0), // insufficient: fails, creates nothing
        transfer(k1, k3, 20, 0),
        transfer(k1, k2, 30, 0), // payee already exists: creates nothing
    ];
    let created = s.execute(&mut batch).expect("execute");
    assert_eq!(created, 2);
    assert_eq!(s.get_balance(&k1).unwrap(), 940);
    assert_eq!(s.get_balance(&k2).unwrap(), 40);
    assert_eq!(s.get_balance(&k3).unwrap(), 20);
}

// A transfer to the payer itself burns exactly the fee.
#[test]
fn self_transfer_burns_fee() {
    let k1 = key(1);
    let mut s = State::from_list(&vec![Account { from: k1, balance: 100 }]).expect("from_list");
    let mut batch = vec![transfer(k1, k1, 30, 5)];
    let created = s.execute(&mut batch).expect("execute");
    assert_eq!(created, 0);
    assert_eq!(s.get_balance(&k1).unwrap(), 95);
}

// Queries read; they never write or create.
#[test]
fn query_reads_only() {
    let k1 = key(1);
    let absent = key(8);
    let mut s = State::from_list(&vec![Account { from: k1, balance: 77 }]).expect("from_list");
    let mut batch = vec![query(k1), query(absent)];
    let created = s.execute(&mut batch).expect("execute");
    assert_eq!(created, 0);
    assert_eq!(batch[0].pld.data.bal.amount, 77);
    // A query for an absent key is dropped: its answer field stays zero.
    assert_eq!(batch[1].pld.data.bal.amount, 0);
    assert!(matches!(s.get_balance(&absent).unwrap_err(), Error::KeyNotFound));
}

// The largest balance moves whole: no truncation anywhere.
#[test]
fn transfer_whole_max_balance() {
    let k1 = key(1);
    let k2 = key(2);
    let mut s = State::from_list(&vec![Account { from: k1, balance: u64::MAX }]).expect("from_list");
    let mut batch = vec![transfer(k1, k2, u64::MAX, 0)];
    let created = s.execute(&mut batch).expect("execute");
    assert_eq!(created, 1);
    assert_eq!(s.get_balance(&k1).unwrap(), 0);
    assert_eq!(s.get_balance(&k2).unwrap(), u64::MAX);
}

// A payee that cannot absorb the credit drops the instruction whole:
// nothing is withdrawn either.
#[test]
fn overflowing_credit_dropped() {
    let k1 = key(1);
    let k2 = key(2);
    let mut s = State::from_list(&vec![
        Account { from: k1, balance: 100 },
        Account { from: k2, balance: u64::MAX - 5 },
    ])
    .expect("from_list");
    let mut batch = vec![transfer(k1, k2, 10, 1)];
    let created = s.execute(&mut batch).expect("execute");
    assert_eq!(created, 0);
    assert_eq!(s.get_balance(&k1).unwrap(), 100);
    assert_eq!(s.get_balance(&k2).unwrap(), u64::MAX - 5);
    assert!(matches!(batch[0].pld.state, loom::data::State::Pending));
}

// The growth policy: a crowded table doubles and every balance survives.
#[test]
fn growth_preserves_balances() {
    let mut s = State::from_list(&vec![
        Account { from: key(1), balance: 10 },
        Account { from: key(2), balance: 20 },
        Account { from: key(3), balance: 30 },
        Account { from: key(4), balance: 40 },
        Account { from: key(5), balance: 50 },
    ])
    .expect("from_list");
    // Capacity is twelve; five accounts do not crowd it yet.
    assert!(!s.grow_if_needed());
    let mut batch = vec![
        transfer(key(1), key(6), 1, 0),
        transfer(key(2), key(7), 1, 0),
        transfer(key(3), key(8), 1, 0),
        transfer(key(4), key(9), 1, 0),
        transfer(key(5), key(10), 1, 0),
    ];
    let created = s.execute(&mut batch).expect("execute");
    assert_eq!(created, 5);
    // Ten accounts in twelve slots: more than three quarters, so it grows.
    assert!(s.grow_if_needed());
    for (k, b) in [
        (key(1), 9),
        (key(2), 19),
        (key(3), 29),
        (key(4), 39),
        (key(5), 49),
        (key(6), 1),
        (key(7), 1),
        (key(8), 1),
        (key(9), 1),
        (key(10), 1),
    ] {
        assert_eq!(s.get_balance(&k).unwrap(), b);
    }
}
