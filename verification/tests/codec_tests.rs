//! The durable record layout: width, round trip, and rejection.

use loom::codec::{decode_record, encode_record, RECORD_BYTES, RECORD_VERSION};
use loom::data::{GetBalance, GetLedger, Kind, Message, Transaction};

fn key(tag: u8) -> [u8; 32] {
    let mut k = [0u8; 32];
    k[0] = tag;
    k[31] = 0xAB;
    k
}

fn sample() -> Message {
    let mut m = Message::default();
    m.pld.kind = Kind::Transaction;
    m.pld.state = loom::data::State::Withdrawn;
    m.pld.from = key(7);
    m.pld.fee = 0x0102_0304_0506_0708;
    m.pld.data.tx = Transaction { to: key(9), amount: u64::MAX };
    m.pld.data.bal = GetBalance { key: key(11), amount: 1 };
    m.pld.data.get = GetLedger { start: 42, num: 1024 };
    m.sig = [0x5Au8; 64];
    m
}

#[test]
fn record_width_is_fixed() {
    let bytes = encode_record(&sample());
    assert_eq!(bytes.len(), RECORD_BYTES);
    let blank = encode_record(&Message::default());
    assert_eq!(blank.len(), RECORD_BYTES);
    assert_eq!(blank[0], RECORD_VERSION);
}

#[test]
fn little_endian_layout() {
    let mut m = Message::default();
    m.pld.fee = 0x0102_0304_0506_0708;
    let bytes = encode_record(&m);
    // The fee sits after version, kind, state and the 32-byte payer key.
    assert_eq!(bytes[35], 0x08);
    assert_eq!(bytes[36], 0x07);
    assert_eq!(bytes[42], 0x01);
}

#[test]
fn round_trip() {
    let m = sample();
    let bytes = encode_record(&m);
    let back = decode_record(&bytes).expect("decodes");
    assert!(matches!(back.pld.kind, Kind::Transaction));
    assert!(matches!(back.pld.state, loom::data::State::Withdrawn));
    assert_eq!(back.pld.from, m.pld.from);
    assert_eq!(back.pld.fee, m.pld.fee);
    assert_eq!(back.pld.data.tx.to, m.pld.data.tx.to);
    assert_eq!(back.pld.data.tx.amount, m.pld.data.tx.amount);
    assert_eq!(back.pld.data.bal.key, m.pld.data.bal.key);
    assert_eq!(back.pld.data.bal.amount, m.pld.data.bal.amount);
    assert_eq!(back.pld.data.get.start, m.pld.data.get.start);
    assert_eq!(back.pld.data.get.num, m.pld.data.get.num);
    assert_eq!(back.sig.to_vec(), m.sig.to_vec());
}

#[test]
fn rejects_wrong_width() {
    assert!(decode_record(&vec![]).is_none());
    assert!(decode_record(&vec![0u8; RECORD_BYTES - 1]).is_none());
    assert!(decode_record(&vec![0u8; RECORD_BYTES + 1]).is_none());
}

#[test]
fn rejects_wrong_version() {
    let mut bytes = encode_record(&sample());
    bytes[0] = RECORD_VERSION + 1;
    assert!(decode_record(&bytes).is_none());
}

#[test]
fn rejects_unknown_kind_or_state() {
    let mut bytes = encode_record(&sample());
    bytes[1] = 17;
    assert!(decode_record(&bytes).is_none());
    let mut bytes = encode_record(&sample());
    bytes[2] = 9;
    assert!(decode_record(&bytes).is_none());
}
