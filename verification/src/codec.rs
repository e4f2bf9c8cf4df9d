//! The durable form of a ledger record: an explicit, versioned,
//! fixed-width binary layout, so that record size and byte order are a
//! contract rather than an accident of memory layout. Offset `i` of the
//! log file is byte offset `i * RECORD_BYTES`.
//!
//! Layout, little-endian throughout:
//! version, kind, settlement state (one byte each); payer key (32); fee
//! (8); transfer payee key (32) and amount (8); query key (32) and answer
//! (8); range start (8) and count (8); signature (64).

use vstd::prelude::*;

verus! {

use crate::data;
use crate::data::Message;

/// The width of one encoded record.
pub const RECORD_BYTES: usize = 203;

/// The layout version this module writes and accepts.
pub const RECORD_VERSION: u8 = 1;

/// The byte that stands for an instruction kind.
pub open spec fn kind_byte(k: data::Kind) -> u8 {
    match k {
        data::Kind::Invalid => 0,
        data::Kind::Transaction => 1,
        data::Kind::GetBalance => 2,
        data::Kind::GetLedger => 3,
    }
}

/// The byte that stands for a settlement state.
pub open spec fn state_byte(s: data::State) -> u8 {
    match s {
        data::State::Pending => 0,
        data::State::Withdrawn => 1,
        data::State::Deposited => 2,
    }
}

/// A 64-bit integer as eight little-endian bytes.
pub open spec fn le8(x: u64) -> Seq<u8> {
    seq![
        (x & 0xff) as u8,
        ((x >> 8) & 0xff) as u8,
        ((x >> 16) & 0xff) as u8,
        ((x >> 24) & 0xff) as u8,
        ((x >> 32) & 0xff) as u8,
        ((x >> 40) & 0xff) as u8,
        ((x >> 48) & 0xff) as u8,
        ((x >> 56) & 0xff) as u8,
    ]
}

/// Eight little-endian bytes back as a 64-bit integer.
pub open spec fn u64_of_le(b: Seq<u8>) -> u64 {
    ((b[0] as u64) | ((b[1] as u64) << 8) | ((b[2] as u64) << 16) | ((b[3] as u64) << 24) | ((
    b[4] as u64) << 32) | ((b[5] as u64) << 40) | ((b[6] as u64) << 48) | ((b[7] as u64) << 56))
}

/// Writing an integer and reading it back is the identity.
pub proof fn lemma_u64_le_round_trip(x: u64)
    ensures
        u64_of_le(le8(x)) == x,
{
    assert(((((x & 0xff) as u8) as u64) | ((((x >> 8) & 0xff) as u8) as u64) << 8 | ((((x >> 16)
        & 0xff) as u8) as u64) << 16 | ((((x >> 24) & 0xff) as u8) as u64) << 24 | ((((x >> 32)
        & 0xff) as u8) as u64) << 32 | ((((x >> 40) & 0xff) as u8) as u64) << 40 | ((((x >> 48)
        & 0xff) as u8) as u64) << 48 | ((((x >> 56) & 0xff) as u8) as u64) << 56) == x)
        by (bit_vector);
}

/// The encoded form of one record.
pub open spec fn encode_spec(m: Message) -> Seq<u8> {
    seq![RECORD_VERSION, kind_byte(m.pld.kind), state_byte(m.pld.state)] + m.pld.from@ + le8(
        m.pld.fee,
    ) + m.pld.data.tx.to@ + le8(m.pld.data.tx.amount) + m.pld.data.bal.key@ + le8(
        m.pld.data.bal.amount,
    ) + le8(m.pld.data.get.start) + le8(m.pld.data.get.num) + m.sig@
}

/// Append a 64-bit integer to the buffer, little-endian.
pub(crate) fn push_u64(out: &mut Vec<u8>, x: u64)
    ensures
        final(out)@ == old(out)@ + le8(x),
{
    out.push((x & 0xff) as u8);
    out.push(((x >> 8) & 0xff) as u8);
    out.push(((x >> 16) & 0xff) as u8);
    out.push(((x >> 24) & 0xff) as u8);
    out.push(((x >> 32) & 0xff) as u8);
    out.push(((x >> 40) & 0xff) as u8);
    out.push(((x >> 48) & 0xff) as u8);
    out.push(((x >> 56) & 0xff) as u8);
    proof {
        assert(out@ =~= old(out)@ + le8(x));
    }
}

/// Append a 32-byte key to the buffer.
fn push_key(out: &mut Vec<u8>, a: &[u8; 32])
    ensures
        final(out)@ == old(out)@ + a@,
{
    let ghost out0 = out@;
    let mut i: usize = 0;
    while i < 32
        invariant
            0 <= i <= 32,
            out@ == out0 + a@.subrange(0, i as int),
        decreases 32 - i,
    {
        out.push(a[i]);
        proof {
            assert(out0 + a@.subrange(0, i as int + 1) =~= (out0 + a@.subrange(0, i as int)).push(
                a@[i as int],
            ));
        }
        i = i + 1;
    }
    proof {
        assert(a@.subrange(0, 32) =~= a@);
    }
}

/// Append the 64-byte signature to the buffer.
fn push_sig(out: &mut Vec<u8>, a: &[u8; 64])
    ensures
        final(out)@ == old(out)@ + a@,
{
    let ghost out0 = out@;
    let mut i: usize = 0;
    while i < 64
        invariant
            0 <= i <= 64,
            out@ == out0 + a@.subrange(0, i as int),
        decreases 64 - i,
    {
        out.push(a[i]);
        proof {
            assert(out0 + a@.subrange(0, i as int + 1) =~= (out0 + a@.subrange(0, i as int)).push(
                a@[i as int],
            ));
        }
        i = i + 1;
    }
    proof {
        assert(a@.subrange(0, 64) =~= a@);
    }
}

/// Encode one record into its fixed-width durable form.
pub fn encode_record(m: &Message) -> (out: Vec<u8>)
    ensures
        out@ == encode_spec(*m),
        out@.len() == RECORD_BYTES,
{
    let mut out: Vec<u8> = Vec::new();
    out.push(RECORD_VERSION);
    let kb: u8 = match m.pld.kind {
        data::Kind::Invalid => 0,
        data::Kind::Transaction => 1,
        data::Kind::GetBalance => 2,
        data::Kind::GetLedger => 3,
    };
    out.push(kb);
    let sb: u8 = match m.pld.state {
        data::State::Pending => 0,
        data::State::Withdrawn => 1,
        data::State::Deposited => 2,
    };
    out.push(sb);
    push_key(&mut out, &m.pld.from);
    push_u64(&mut out, m.pld.fee);
    push_key(&mut out, &m.pld.data.tx.to);
    push_u64(&mut out, m.pld.data.tx.amount);
    push_key(&mut out, &m.pld.data.bal.key);
    push_u64(&mut out, m.pld.data.bal.amount);
    push_u64(&mut out, m.pld.data.get.start);
    push_u64(&mut out, m.pld.data.get.num);
    push_sig(&mut out, &m.sig);
    proof {
        assert(out@ =~= encode_spec(*m));
    }
    out
}

/// Every record encodes to exactly `RECORD_BYTES` bytes.
pub proof fn lemma_encode_len(m: Message)
    ensures
        encode_spec(m).len() == RECORD_BYTES,
{
}

/// Read a 32-byte key at `off`.
fn read_key(b: &Vec<u8>, off: usize) -> (a: [u8; 32])
    requires
        off + 32 <= b.len(),
    ensures
        a@ == b@.subrange(off as int, off as int + 32),
{
    let mut a = [0u8; 32];
    let mut i: usize = 0;
    while i < 32
        invariant
            off + 32 <= b.len(),
            0 <= i <= 32,
            forall|j: int| 0 <= j < i ==> a@[j] == b@[off + j],
        decreases 32 - i,
    {
        a[i] = b[off + i];
        i = i + 1;
    }
    proof {
        assert(a@ =~= b@.subrange(off as int, off as int + 32));
    }
    a
}

/// Read the 64-byte signature at `off`.
fn read_sig(b: &Vec<u8>, off: usize) -> (a: [u8; 64])
    requires
        off + 64 <= b.len(),
    ensures
        a@ == b@.subrange(off as int, off as int + 64),
{
    let mut a = [0u8; 64];
    let mut i: usize = 0;
    while i < 64
        invariant
            off + 64 <= b.len(),
            0 <= i <= 64,
            forall|j: int| 0 <= j < i ==> a@[j] == b@[off + j],
        decreases 64 - i,
    {
        a[i] = b[off + i];
        i = i + 1;
    }
    proof {
        assert(a@ =~= b@.subrange(off as int, off as int + 64));
    }
    a
}

/// Read a little-endian 64-bit integer at `off`.
fn read_u64(b: &Vec<u8>, off: usize) -> (x: u64)
    requires
        off + 8 <= b.len(),
    ensures
        x == u64_of_le(b@.subrange(off as int, off as int + 8)),
{
    (b[off] as u64) | ((b[off + 1] as u64) << 8u64) | ((b[off + 2] as u64) << 16u64) | ((b[off
        + 3] as u64) << 24u64) | ((b[off + 4] as u64) << 32u64) | ((b[off + 5] as u64) << 40u64) | (
    (b[off + 6] as u64) << 48u64) | ((b[off + 7] as u64) << 56u64)
}

/// Decode one fixed-width record. `Some(m)` exactly when `b` is the
/// encoding of `m`; `None` exactly when no record encodes to `b`.
pub fn decode_record(b: &Vec<u8>) -> (r: Option<Message>)
    ensures
        match r {
            Some(m) => encode_spec(m) == b@,
            None => forall|m: Message| encode_spec(m) != b@,
        },
{
    if b.len() != RECORD_BYTES {
        proof {
            assert forall|m: Message| encode_spec(m) != b@ by {
                lemma_encode_len(m);
            }
        }
        return None;
    }
    if b[0] != RECORD_VERSION {
        proof {
            assert forall|m: Message| encode_spec(m) != b@ by {
                assert(encode_spec(m)[0] == RECORD_VERSION);
            }
        }
        return None;
    }
    let kb = b[1];
    let sb = b[2];
    if kb > 3 {
        proof {
            assert forall|m: Message| encode_spec(m) != b@ by {
                assert(encode_spec(m)[1] == kind_byte(m.pld.kind));
                assert(kind_byte(m.pld.kind) <= 3);
            }
        }
        return None;
    }
    if sb > 2 {
        proof {
            assert forall|m: Message| encode_spec(m) != b@ by {
                assert(encode_spec(m)[2] == state_byte(m.pld.state));
                assert(state_byte(m.pld.state) <= 2);
            }
        }
        return None;
    }
    let kind = if kb == 0 {
        data::Kind::Invalid
    } else if kb == 1 {
        data::Kind::Transaction
    } else if kb == 2 {
        data::Kind::GetBalance
    } else {
        data::Kind::GetLedger
    };
    let state = if sb == 0 {
        data::State::Pending
    } else if sb == 1 {
        data::State::Withdrawn
    } else {
        data::State::Deposited
    };
    let from = read_key(b, 3);
    let fee = read_u64(b, 35);
    let to = read_key(b, 43);
    let amount = read_u64(b, 75);
    let bal_key = read_key(b, 83);
    let bal_amount = read_u64(b, 115);
    let start = read_u64(b, 123);
    let num = read_u64(b, 131);
    let sig = read_sig(b, 139);
    let m = Message {
        pld: data::Payload {
            kind,
            from,
            fee,
            state,
            data: data::MessageData {
                tx: data::Transaction { to, amount },
                bal: data::GetBalance { key: bal_key, amount: bal_amount },
                get: data::GetLedger { start, num },
            },
        },
        sig,
    };
    proof {
        lemma_le8_of_u64(b@.subrange(35, 43));
        lemma_le8_of_u64(b@.subrange(75, 83));
        lemma_le8_of_u64(b@.subrange(115, 123));
        lemma_le8_of_u64(b@.subrange(123, 131));
        lemma_le8_of_u64(b@.subrange(131, 139));
        lemma_decode_assemble(m, b@);
    }
    Some(m)
}

/// A record whose fields were read out of a buffer's regions encodes back
/// to that buffer.
#[verifier::rlimit(60)]
proof fn lemma_decode_assemble(m: Message, b: Seq<u8>)
    requires
        b.len() == RECORD_BYTES,
        b[0] == RECORD_VERSION,
        b[1] == kind_byte(m.pld.kind),
        b[2] == state_byte(m.pld.state),
        m.pld.from@ == b.subrange(3, 35),
        le8(m.pld.fee) == b.subrange(35, 43),
        m.pld.data.tx.to@ == b.subrange(43, 75),
        le8(m.pld.data.tx.amount) == b.subrange(75, 83),
        m.pld.data.bal.key@ == b.subrange(83, 115),
        le8(m.pld.data.bal.amount) == b.subrange(115, 123),
        le8(m.pld.data.get.start) == b.subrange(123, 131),
        le8(m.pld.data.get.num) == b.subrange(131, 139),
        m.sig@ == b.subrange(139, 203),
    ensures
        encode_spec(m) == b,
{
    assert(encode_spec(m) =~= b);
}

/// Reading eight bytes as an integer and writing it back reproduces the
/// same eight bytes.
pub proof fn lemma_le8_of_u64(b: Seq<u8>)
    requires
        b.len() == 8,
    ensures
        le8(u64_of_le(b)) == b,
{
    let b0 = b[0];
    let b1 = b[1];
    let b2 = b[2];
    let b3 = b[3];
    let b4 = b[4];
    let b5 = b[5];
    let b6 = b[6];
    let b7 = b[7];
    let x = u64_of_le(b);
    assert(x == ((b0 as u64) | ((b1 as u64) << 8) | ((b2 as u64) << 16) | ((b3 as u64) << 24) | ((
    b4 as u64) << 32) | ((b5 as u64) << 40) | ((b6 as u64) << 48) | ((b7 as u64) << 56)));
    let y = ((b0 as u64) | ((b1 as u64) << 8) | ((b2 as u64) << 16) | ((b3 as u64) << 24) | ((
    b4 as u64) << 32) | ((b5 as u64) << 40) | ((b6 as u64) << 48) | ((b7 as u64) << 56));
    assert((y & 0xff) as u8 == b0 && ((y >> 8) & 0xff) as u8 == b1 && ((y >> 16) & 0xff) as u8 == b2
        && ((y >> 24) & 0xff) as u8 == b3 && ((y >> 32) & 0xff) as u8 == b4 && ((y >> 40)
        & 0xff) as u8 == b5 && ((y >> 48) & 0xff) as u8 == b6 && ((y >> 56) & 0xff) as u8 == b7)
        by (bit_vector)
        requires
            y == ((b0 as u64) | ((b1 as u64) << 8) | ((b2 as u64) << 16) | ((b3 as u64) << 24) | ((
            b4 as u64) << 32) | ((b5 as u64) << 40) | ((b6 as u64) << 48) | ((b7 as u64) << 56)),
    ;
    assert(le8(x) =~= b);
}

/// Two different records never share an encoding: with the relational
/// contract of `decode_record`, decoding is the exact inverse of
/// encoding.
pub proof fn lemma_encode_injective(m1: Message, m2: Message)
    requires
        encode_spec(m1) == encode_spec(m2),
    ensures
        m1 == m2,
{
    let e1 = encode_spec(m1);
    let e2 = encode_spec(m2);
    assert(kind_byte(m1.pld.kind) == kind_byte(m2.pld.kind)) by {
        assert(e1[1] == kind_byte(m1.pld.kind));
        assert(e2[1] == kind_byte(m2.pld.kind));
    }
    assert(m1.pld.kind == m2.pld.kind);
    assert(state_byte(m1.pld.state) == state_byte(m2.pld.state)) by {
        assert(e1[2] == state_byte(m1.pld.state));
        assert(e2[2] == state_byte(m2.pld.state));
    }
    assert(m1.pld.state == m2.pld.state);
    assert(m1.pld.from =~= m2.pld.from) by {
        assert forall|i: int| 0 <= i < 32 implies m1.pld.from@[i] == m2.pld.from@[i] by {
            assert(e1[3 + i] == m1.pld.from@[i]);
            assert(e2[3 + i] == m2.pld.from@[i]);
        }
    }
    assert(m1.pld.data.tx.to =~= m2.pld.data.tx.to) by {
        assert forall|i: int| 0 <= i < 32 implies m1.pld.data.tx.to@[i] == m2.pld.data.tx.to@[i] by {
            assert(e1[43 + i] == m1.pld.data.tx.to@[i]);
            assert(e2[43 + i] == m2.pld.data.tx.to@[i]);
        }
    }
    assert(m1.pld.data.bal.key =~= m2.pld.data.bal.key) by {
        assert forall|i: int| 0 <= i < 32 implies m1.pld.data.bal.key@[i]
            == m2.pld.data.bal.key@[i] by {
            assert(e1[83 + i] == m1.pld.data.bal.key@[i]);
            assert(e2[83 + i] == m2.pld.data.bal.key@[i]);
        }
    }
    assert(m1.sig =~= m2.sig) by {
        assert forall|i: int| 0 <= i < 64 implies m1.sig@[i] == m2.sig@[i] by {
            assert(e1[139 + i] == m1.sig@[i]);
            assert(e2[139 + i] == m2.sig@[i]);
        }
    }
    lemma_u64_field(e1, e2, 35, m1.pld.fee, m2.pld.fee);
    lemma_u64_field(e1, e2, 75, m1.pld.data.tx.amount, m2.pld.data.tx.amount);
    lemma_u64_field(e1, e2, 115, m1.pld.data.bal.amount, m2.pld.data.bal.amount);
    lemma_u64_field(e1, e2, 123, m1.pld.data.get.start, m2.pld.data.get.start);
    lemma_u64_field(e1, e2, 131, m1.pld.data.get.num, m2.pld.data.get.num);
}

/// Two integers whose little-endian bytes agree at the same offset of
/// equal buffers are equal.
proof fn lemma_u64_field(e1: Seq<u8>, e2: Seq<u8>, off: int, x1: u64, x2: u64)
    requires
        e1 == e2,
        0 <= off,
        off + 8 <= e1.len(),
        forall|i: int| 0 <= i < 8 ==> e1[off + i] == le8(x1)[i],
        forall|i: int| 0 <= i < 8 ==> e2[off + i] == le8(x2)[i],
    ensures
        x1 == x2,
{
    assert(le8(x1) =~= le8(x2));
    lemma_u64_le_round_trip(x1);
    lemma_u64_le_round_trip(x2);
}

} // verus!
