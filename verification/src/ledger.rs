//! The append-only instruction log. A record's position is its absolute
//! offset, the address used for range reads and replay. The log is the
//! node's only durable history: replaying it from offset zero through the
//! state engine rebuilds the account table exactly, with no snapshot
//! format beside it. This module owns the log's contents and its range
//! arithmetic; reading and writing the bytes of a durable store is the
//! caller's side of the boundary, through the record codec.

use vstd::prelude::*;

verus! {

use crate::data::Message;
use crate::errors::Error;
use crate::state::{lemma_step_batch_append, step_batch, State};

/// How many records replay hands to the engine at a time. Any chunking
/// yields the same table: batch boundaries have no effect of their own.
pub const REPLAY_CHUNK: usize = 1024;

/// The log: every instruction ever appended, in order.
pub struct Ledger {
    records: Vec<Message>,
}

impl Ledger {
    /// The log's records as the specification sees them.
    pub closed spec fn records_view(&self) -> Seq<Message> {
        self.records@
    }

    /// An empty log.
    pub fn new() -> (l: Ledger)
        ensures
            l.records_view().len() == 0,
    {
        Ledger { records: Vec::new() }
    }

    /// The log's length in records: the offset the next append writes at.
    pub fn len(&self) -> (n: u64)
        ensures
            n == self.records_view().len(),
    {
        self.records.len() as u64
    }

    /// Append the batch after everything already logged, preserving batch
    /// order; the first record lands at the offset `len` gave before the
    /// call.
    pub fn append(&mut self, msgs: &Vec<Message>)
        ensures
            final(self).records_view() == old(self).records_view() + msgs@,
    {
        let ghost recs0 = self.records@;
        let mut j: usize = 0;
        while j < msgs.len()
            invariant
                0 <= j <= msgs@.len(),
                self.records@ == recs0 + msgs@.subrange(0, j as int),
            decreases msgs@.len() - j,
        {
            self.records.push(msgs[j]);
            proof {
                assert(recs0 + msgs@.subrange(0, j as int + 1) =~= (recs0 + msgs@.subrange(
                    0,
                    j as int,
                )).push(msgs@[j as int]));
            }
            j = j + 1;
        }
        proof {
            assert(msgs@.subrange(0, msgs@.len() as int) =~= msgs@);
        }
    }

    /// Read exactly `num` records beginning at absolute offset `start`;
    /// `OutOfRange` exactly when the range reaches past the end of the
    /// log.
    pub fn load(&self, start: u64, num: u64) -> (r: Result<Vec<Message>, Error>)
        ensures
            match r {
                Ok(v) => start + num <= self.records_view().len() && v@ == self.records_view(
                ).subrange(start as int, start as int + num as int),
                Err(e) => e == Error::OutOfRange && start + num > self.records_view().len(),
            },
    {
        let n = self.records.len();
        if start > n as u64 || num > n as u64 - start {
            return Err(Error::OutOfRange);
        }
        let s = start as usize;
        let e = s + (num as usize);
        let mut v: Vec<Message> = Vec::new();
        let mut j: usize = s;
        while j < e
            invariant
                s <= j <= e <= self.records@.len(),
                v@ == self.records@.subrange(s as int, j as int),
            decreases e - j,
        {
            v.push(self.records[j]);
            proof {
                assert(self.records@.subrange(s as int, j as int + 1) =~= self.records@.subrange(
                    s as int,
                    j as int,
                ).push(self.records@[j as int]));
            }
            j = j + 1;
        }
        Ok(v)
    }

    /// Rebuild the account table: feed the whole log, from offset zero, in
    /// `REPLAY_CHUNK`-sized batches, through the engine. The table that
    /// results is exactly the one direct settlement of the same records
    /// would leave, and the count of accounts replay created comes back.
    pub fn replay_all(&self, s: &mut State) -> (r: Result<usize, Error>)
        requires
            old(s).wf(),
        ensures
            final(s).wf(),
            final(s).accounts_view() == step_batch(
                old(s).accounts_view(),
                self.records_view(),
            ).0,
            r is Ok,
            r->Ok_0 as nat == step_batch(old(s).accounts_view(), self.records_view()).2,
            final(s).used_view() == old(s).used_view() + step_batch(
                old(s).accounts_view(),
                self.records_view(),
            ).2,
    {
        let ghost tbl0 = s.accounts_view();
        let ghost used0 = s.used_view();
        let n = self.records.len();
        let mut off: usize = 0;
        let mut created: usize = 0;
        while off < n
            invariant
                old(s).wf(),
                tbl0 == old(s).accounts_view(),
                used0 == old(s).used_view(),
                n == self.records@.len(),
                0 <= off <= n,
                s.wf(),
                s.accounts_view() == step_batch(tbl0, self.records@.subrange(0, off as int)).0,
                created as nat == step_batch(tbl0, self.records@.subrange(0, off as int)).2,
                s.used_view() == used0 + created,
            decreases n - off,
        {
            let c = if n - off < REPLAY_CHUNK {
                n - off
            } else {
                REPLAY_CHUNK
            };
            let ghost pre = self.records@.subrange(0, off as int);
            let ghost part = self.records@.subrange(off as int, off as int + c as int);
            let mut chunk: Vec<Message> = Vec::new();
            let mut j: usize = off;
            while j < off + c
                invariant
                    0 <= off <= j <= off + c <= n,
                    n == self.records@.len(),
                    chunk@ == self.records@.subrange(off as int, j as int),
                decreases off + c - j,
            {
                chunk.push(self.records[j]);
                proof {
                    assert(self.records@.subrange(off as int, j as int + 1)
                        =~= self.records@.subrange(off as int, j as int).push(
                        self.records@[j as int],
                    ));
                }
                j = j + 1;
            }
            let k = match s.execute(&mut chunk) {
                Ok(k) => k,
                Err(_) => {
                    // Unreachable: in-memory settlement always succeeds.
                    proof {
                        assert(false);
                    }
                    0
                },
            };
            proof {
                lemma_step_batch_append(tbl0, pre, part);
                assert(pre + part =~= self.records@.subrange(0, off as int + c as int));
                s.lemma_used_fits();
            }
            created = created + k;
            off = off + c;
        }
        proof {
            assert(self.records@.subrange(0, n as int) =~= self.records@);
        }
        Ok(created)
    }
}

/// Appending a batch to a log and replaying everything equals settling
/// the already-logged records and then the batch directly: the ledger's
/// round trip loses nothing and invents nothing.
pub proof fn lemma_append_then_replay(
    tbl: Seq<crate::data::Account>,
    logged: Seq<Message>,
    batch: Seq<Message>,
)
    ensures
        step_batch(tbl, logged + batch).0 == step_batch(step_batch(tbl, logged).0, batch).0,
        step_batch(tbl, Seq::<Message>::empty() + batch) == step_batch(tbl, batch),
{
    lemma_step_batch_append(tbl, logged, batch);
    assert(Seq::<Message>::empty() + batch =~= batch);
}

} // verus!
