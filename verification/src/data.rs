//! The record types the node stores and exchanges: account records keyed by
//! 32-byte public keys, and the fixed-layout instruction messages that the
//! state engine settles and the ledger persists.

use vstd::prelude::*;

verus! {

use crate::hasht::{HashT, Key, Val};

/// A 32-byte public key. All zeros is reserved: it marks an unused table
/// slot and never names an account.
impl Key for [u8; 32] {
    /// The probe starts at the key's first four bytes read little-endian.
    open spec fn spec_start(&self) -> usize {
        ((self[0] as int) + 256 * (self[1] as int) + 65536 * (self[2] as int) + 16777216 * (
        self[3] as int)) as usize
    }

    open spec fn spec_unused(&self) -> bool {
        forall|i: int| 0 <= i < 32 ==> self[i] == 0
    }

    fn start(&self) -> (r: usize) {
        let b0 = self[0] as usize;
        let b1 = self[1] as usize;
        let b2 = self[2] as usize;
        let b3 = self[3] as usize;
        b0 + 256 * b1 + 65536 * b2 + 16777216 * b3
    }

    fn unused(&self) -> (r: bool) {
        let mut i: usize = 0;
        while i < 32
            invariant
                0 <= i <= 32,
                forall|j: int| 0 <= j < i ==> self[j] == 0,
            decreases 32 - i,
        {
            if self[i] != 0 {
                return false;
            }
            i = i + 1;
        }
        true
    }

    fn key_eq(&self, other: &Self) -> (r: bool) {
        let mut i: usize = 0;
        while i < 32
            invariant
                0 <= i <= 32,
                forall|j: int| 0 <= j < i ==> self[j] == other[j],
            decreases 32 - i,
        {
            if self[i] != other[i] {
                return false;
            }
            i = i + 1;
        }
        proof {
            assert(*self =~= *other);
        }
        true
    }
}

/// One account record: the owner's public key and the balance it holds.
/// An account whose key is the all-zero sentinel is a free slot.
#[derive(Clone, Copy, Debug)]
pub struct Account {
    pub from: [u8; 32],
    pub balance: u64,
}

impl Default for Account {
    /// A free slot: the sentinel key and a zero balance.
    fn default() -> (d: Self)
        ensures
            d.from.spec_unused(),
            d.balance == 0,
    {
        Account { from: [0u8; 32], balance: 0 }
    }
}

/// An account is filed in the table under its owner's key.
impl Val<[u8; 32]> for Account {
    open spec fn spec_key(&self) -> [u8; 32] {
        self.from
    }

    fn key(&self) -> &[u8; 32] {
        &self.from
    }

    fn clone_val(&self) -> Account {
        *self
    }
}

/// The account index: the open-addressing table instantiated over account
/// records keyed by public key.
pub type AccountT = HashT<[u8; 32], Account>;

/// What an instruction asks for. A default-initialized message is
/// `Invalid` and every component ignores it.
#[derive(Clone, Copy, Debug, PartialEq, Eq, Structural)]
pub enum Kind {
    Invalid,
    Transaction,
    GetBalance,
    GetLedger,
}

/// How far a transfer's two-phase settlement has come: funds leave the
/// payer only at `Withdrawn`, and reach the payee only at `Deposited`. A
/// transfer that fails to settle stays `Pending`.
#[derive(Clone, Copy, Debug, PartialEq, Eq, Structural)]
pub enum State {
    Pending,
    Withdrawn,
    Deposited,
}

/// A transfer order: credit `amount` to the account under `to`.
#[derive(Clone, Copy, Debug)]
pub struct Transaction {
    pub to: [u8; 32],
    pub amount: u64,
}

/// A balance query: `amount` is the answer the responder fills in.
#[derive(Clone, Copy, Debug)]
pub struct GetBalance {
    pub key: [u8; 32],
    pub amount: u64,
}

/// A request for `num` ledger records starting at absolute offset `start`.
#[derive(Clone, Copy, Debug)]
pub struct GetLedger {
    pub start: u64,
    pub num: u64,
}

/// The kind-specific halves of a message. The record reserves room for
/// each of them, as a fixed-width layout must; `Payload::kind` says which
/// one is meaningful.
#[derive(Clone, Copy, Debug)]
pub struct MessageData {
    pub tx: Transaction,
    pub bal: GetBalance,
    pub get: GetLedger,
}

/// The signed part of an instruction: what is asked, by whom, at what fee,
/// and how far its settlement has come.
#[derive(Clone, Copy, Debug)]
pub struct Payload {
    pub kind: Kind,
    pub from: [u8; 32],
    pub fee: u64,
    pub state: State,
    pub data: MessageData,
}

/// One instruction as it travels and as the ledger stores it. The
/// signature is opaque to this crate: verifying it is the caller's
/// business.
#[derive(Clone, Copy, Debug)]
pub struct Message {
    pub pld: Payload,
    pub sig: [u8; 64],
}

impl Default for Message {
    /// An `Invalid` instruction with every field zeroed and settlement
    /// still `Pending`.
    fn default() -> (d: Self)
        ensures
            d.pld.kind == Kind::Invalid,
            d.pld.state == State::Pending,
            d.pld.from.spec_unused(),
            d.pld.fee == 0,
            d.pld.data.tx.to.spec_unused(),
            d.pld.data.tx.amount == 0,
            d.pld.data.bal.key.spec_unused(),
            d.pld.data.bal.amount == 0,
            d.pld.data.get.start == 0,
            d.pld.data.get.num == 0,
            forall|i: int| 0 <= i < 64 ==> d.sig[i] == 0,
    {
        Message {
            pld: Payload {
                kind: Kind::Invalid,
                from: [0u8; 32],
                fee: 0,
                state: State::Pending,
                data: MessageData {
                    tx: Transaction { to: [0u8; 32], amount: 0 },
                    bal: GetBalance { key: [0u8; 32], amount: 0 },
                    get: GetLedger { start: 0, num: 0 },
                },
            },
            sig: [0u8; 64],
        }
    }
}

} // verus!
