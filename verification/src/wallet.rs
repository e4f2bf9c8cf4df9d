//! The wallet's bookkeeping: key pairs held as plain words, lookup of a
//! key pair by its public key's bytes, and the builders for the two
//! instructions a wallet submits. Key generation, signing, and the cipher
//! that protects private keys at rest are the surrounding application's
//! work; instructions leave here with a blank signature.

use vstd::prelude::*;

verus! {

use crate::codec::{le8, push_u64};
use crate::data;
use crate::data::Message;
use crate::errors::Error;
use crate::hasht::Key;

/// A key pair: the private key as eight 64-bit words, the public key as
/// four.
pub type Keypair = ([u64; 8], [u64; 4]);

/// A wallet at rest: public keys in the clear, private keys as whatever
/// bytes the application's cipher produced.
pub struct EncryptedWallet {
    pub pubkeys: Vec<[u64; 4]>,
    pub privkeys: Vec<u8>,
}

/// A wallet in use: each public key beside its private key.
pub struct Wallet {
    pub pubkeys: Vec<[u64; 4]>,
    pub privkeys: Vec<[u64; 8]>,
}

/// The 32 bytes of a public key: its four words, little-endian, in order.
pub open spec fn key_bytes(k: [u64; 4]) -> Seq<u8> {
    le8(k[0]) + le8(k[1]) + le8(k[2]) + le8(k[3])
}

/// A public key's words as their 32 bytes.
pub fn to32b(k: [u64; 4]) -> (r: [u8; 32])
    ensures
        r@ == key_bytes(k),
{
    let mut v: Vec<u8> = Vec::new();
    push_u64(&mut v, k[0]);
    push_u64(&mut v, k[1]);
    push_u64(&mut v, k[2]);
    push_u64(&mut v, k[3]);
    proof {
        assert(v@ =~= key_bytes(k));
    }
    let mut r = [0u8; 32];
    let mut i: usize = 0;
    while i < 32
        invariant
            v@ == key_bytes(k),
            v@.len() == 32,
            0 <= i <= 32,
            forall|j: int| 0 <= j < i ==> r@[j] == v@[j],
        decreases 32 - i,
    {
        r[i] = v[i];
        i = i + 1;
    }
    proof {
        assert(r@ =~= v@);
    }
    r
}

impl EncryptedWallet {
    /// A wallet at rest with no keys.
    pub fn new() -> (w: EncryptedWallet)
        ensures
            w.pubkeys@.len() == 0,
            w.privkeys@.len() == 0,
    {
        EncryptedWallet { pubkeys: Vec::new(), privkeys: Vec::new() }
    }
}

impl Wallet {
    /// The wallet's invariant: one private key for each public key.
    pub open spec fn wf(&self) -> bool {
        self.pubkeys@.len() == self.privkeys@.len()
    }

    /// A wallet with no keys.
    pub fn new() -> (w: Wallet)
        ensures
            w.wf(),
            w.pubkeys@.len() == 0,
    {
        Wallet { pubkeys: Vec::new(), privkeys: Vec::new() }
    }

    /// File one more key pair.
    pub fn add_keypair(&mut self, pk: Keypair)
        requires
            old(self).wf(),
        ensures
            final(self).wf(),
            final(self).privkeys@ == old(self).privkeys@.push(pk.0),
            final(self).pubkeys@ == old(self).pubkeys@.push(pk.1),
    {
        self.privkeys.push(pk.0);
        self.pubkeys.push(pk.1);
    }

    /// The index of the first key pair whose public key has these bytes;
    /// `KeyNotFound` when the wallet holds no such key.
    pub fn find(&self, from: [u8; 32]) -> (r: Result<usize, Error>)
        ensures
            match r {
                Ok(i) => {
                    &&& i < self.pubkeys@.len()
                    &&& key_bytes(self.pubkeys@[i as int]) == from@
                    &&& forall|l: int| 0 <= l < i ==> key_bytes(self.pubkeys@[l]) != from@
                },
                Err(e) => {
                    &&& e == Error::KeyNotFound
                    &&& forall|l: int|
                        0 <= l < self.pubkeys@.len() ==> key_bytes(self.pubkeys@[l]) != from@
                },
            },
    {
        let n = self.pubkeys.len();
        let mut i: usize = 0;
        while i < n
            invariant
                n == self.pubkeys@.len(),
                0 <= i <= n,
                forall|l: int| 0 <= l < i ==> key_bytes(self.pubkeys@[l]) != from@,
            decreases n - i,
        {
            let k = to32b(self.pubkeys[i]);
            if k.key_eq(&from) {
                return Ok(i);
            }
            proof {
                // Unequal keys have unequal bytes.
                if key_bytes(self.pubkeys@[i as int]) == from@ {
                    assert(k =~= from);
                    assert(false);
                }
            }
            i = i + 1;
        }
        Err(Error::KeyNotFound)
    }

    /// Build a transfer: `amnt` to the account under `to`, at the given
    /// fee, from the wallet's `key`-th public key. The signature stays
    /// blank for the application to fill.
    pub fn tx(&self, key: usize, to: [u8; 32], amnt: u64, fee: u64) -> (m: Message)
        requires
            key < self.pubkeys@.len(),
        ensures
            m.pld.kind == data::Kind::Transaction,
            m.pld.state == data::State::Pending,
            m.pld.from@ == key_bytes(self.pubkeys@[key as int]),
            m.pld.fee == fee,
            m.pld.data.tx.to == to,
            m.pld.data.tx.amount == amnt,
            m.pld.data.bal.key.spec_unused(),
            m.pld.data.bal.amount == 0,
            m.pld.data.get.start == 0,
            m.pld.data.get.num == 0,
            forall|i: int| 0 <= i < 64 ==> m.sig[i] == 0,
    {
        let mut msg = Message::default();
        msg.pld.kind = data::Kind::Transaction;
        msg.pld.from = to32b(self.pubkeys[key]);
        msg.pld.fee = fee;
        msg.pld.data.tx = data::Transaction { to, amount: amnt };
        msg
    }

    /// Build a balance query for the account under `acc`, from the
    /// wallet's `key`-th public key, with the answer field zeroed. The
    /// signature stays blank for the application to fill.
    pub fn check_balance(&self, key: usize, acc: [u8; 32], fee: u64) -> (m: Message)
        requires
            key < self.pubkeys@.len(),
        ensures
            m.pld.kind == data::Kind::GetBalance,
            m.pld.state == data::State::Pending,
            m.pld.from@ == key_bytes(self.pubkeys@[key as int]),
            m.pld.fee == fee,
            m.pld.data.bal.key == acc,
            m.pld.data.bal.amount == 0,
            m.pld.data.tx.to.spec_unused(),
            m.pld.data.tx.amount == 0,
            m.pld.data.get.start == 0,
            m.pld.data.get.num == 0,
            forall|i: int| 0 <= i < 64 ==> m.sig[i] == 0,
    {
        let mut msg = Message::default();
        msg.pld.kind = data::Kind::GetBalance;
        msg.pld.from = to32b(self.pubkeys[key]);
        msg.pld.fee = fee;
        msg.pld.data.bal = data::GetBalance { key: acc, amount: 0 };
        msg
    }
}

} // verus!
