//! The deterministic state engine: settles an ordered batch of instructions
//! against the account table, one instruction at a time, in batch order.
//!
//! A transfer settles in two phases. The payer is debited `amount + fee`
//! only if it can cover both, and only a successful withdrawal can deposit:
//! funds appear at the payee only as the visible side of a funds-backed
//! withdrawal, so every settled transfer conserves value (the fee leaves
//! circulation). Malformed instructions — an absent payer, a sentinel key,
//! a payee slot held by a different live key, a balance that cannot absorb
//! the credit — are dropped silently, so one bad instruction never aborts
//! the rest of its batch.

use vstd::prelude::*;

verus! {

use crate::data;
use crate::data::{Account, AccountT, Message};
use crate::errors::Error;
use crate::hasht::{
    count_occupied, distinct_live_keys, fill_from, find_slot, keys_from_prefix,
    lemma_count_occupied_bound, lemma_count_occupied_room, lemma_count_occupied_update,
    lemma_count_occupied_zero, lemma_fill_fresh, lemma_fill_inserts, lemma_fill_values_from,
    lemma_fill_wf, lemma_find_slot_in_range, lemma_find_slot_same_keys, lemma_find_succeeds,
    lemma_insert_wf, lemma_wf_distinct, table_wf, Key, Val,
};
use vstd::pervasive::VecAdditionalExecFns;

/// The balance the table holds for `key`: `None` when no live account
/// carries it.
pub open spec fn balance_of(tbl: Seq<Account>, key: [u8; 32]) -> Option<u64> {
    match find_slot(tbl, key) {
        Some(p) => if !tbl[p].from.spec_unused() && tbl[p].from == key {
            Some(tbl[p].balance)
        } else {
            None
        },
        None => None,
    }
}

/// What settling one transfer instruction does: the table afterwards, the
/// instruction with its settlement state advanced, and how many accounts
/// the deposit created (0 or 1).
pub open spec fn step_transfer(tbl: Seq<Account>, m: Message) -> (Seq<Account>, Message, nat) {
    let fk = m.pld.from;
    let tk = m.pld.data.tx.to;
    let amount = m.pld.data.tx.amount;
    let fee = m.pld.fee;
    if fk.spec_unused() || tk.spec_unused() {
        // A sentinel key names no account: dropped.
        (tbl, m, 0)
    } else {
        match (find_slot(tbl, fk), find_slot(tbl, tk)) {
            (Some(sf), Some(st)) => {
                if tbl[sf].from != fk {
                    // The payer holds no account: dropped.
                    (tbl, m, 0)
                } else if !tbl[st].from.spec_unused() && tbl[st].from != tk {
                    // The payee's slot is taken by a different live key: dropped.
                    (tbl, m, 0)
                } else {
                    let dep_base = if st == sf {
                        tbl[sf].balance - amount - fee
                    } else {
                        tbl[st].balance as int
                    };
                    if tbl[sf].balance < amount + fee {
                        // Insufficient funds: no phase runs, settlement stays put.
                        (tbl, m, 0)
                    } else if dep_base + amount > u64::MAX {
                        // The payee cannot absorb the credit: dropped.
                        (tbl, m, 0)
                    } else {
                        let withdrawn = Account {
                            from: fk,
                            balance: (tbl[sf].balance - amount - fee) as u64,
                        };
                        let t1 = tbl.update(sf, withdrawn);
                        let created: nat = if t1[st].from.spec_unused() {
                            1
                        } else {
                            0
                        };
                        let deposited = Account { from: tk, balance: (dep_base + amount) as u64 };
                        let t2 = t1.update(st, deposited);
                        let m2 = Message {
                            pld: data::Payload { state: data::State::Deposited, ..m.pld },
                            ..m
                        };
                        (t2, m2, created)
                    }
                }
            },
            _ => (tbl, m, 0),
        }
    }
}

/// What a balance query does: reads the target's balance into the query's
/// answer field, touching nothing else; a query for an absent key is
/// dropped.
pub open spec fn step_query(tbl: Seq<Account>, m: Message) -> (Seq<Account>, Message, nat) {
    match balance_of(tbl, m.pld.data.bal.key) {
        Some(b) => {
            let m2 = Message {
                pld: data::Payload {
                    data: data::MessageData {
                        bal: data::GetBalance { amount: b, ..m.pld.data.bal },
                        ..m.pld.data
                    },
                    ..m.pld
                },
                ..m
            };
            (tbl, m2, 0)
        },
        None => (tbl, m, 0),
    }
}

/// What settling one instruction does to the table and to the instruction.
/// Only transfers mutate the table; only balance queries mutate their own
/// payload; everything else passes through untouched.
pub open spec fn step_msg(tbl: Seq<Account>, m: Message) -> (Seq<Account>, Message, nat) {
    if m.pld.kind == data::Kind::Transaction {
        step_transfer(tbl, m)
    } else if m.pld.kind == data::Kind::GetBalance {
        step_query(tbl, m)
    } else {
        (tbl, m, 0)
    }
}

/// What settling a whole batch does, instruction by instruction, in batch
/// order: the table afterwards, the batch with settlement states advanced,
/// and the total count of newly created accounts.
pub open spec fn step_batch(tbl: Seq<Account>, msgs: Seq<Message>) -> (Seq<Account>, Seq<
    Message,
>, nat)
    decreases msgs.len(),
{
    if msgs.len() == 0 {
        (tbl, msgs, 0)
    } else {
        let prev = step_batch(tbl, msgs.drop_last());
        let last = step_msg(prev.0, msgs.last());
        (last.0, prev.1.push(last.1), prev.2 + last.2)
    }
}

/// Settling one instruction keeps the table well formed, never resizes it,
/// and grows the occupied count by exactly the accounts it created.
pub proof fn lemma_step_msg(tbl: Seq<Account>, m: Message)
    requires
        table_wf(tbl),
    ensures
        table_wf(step_msg(tbl, m).0),
        step_msg(tbl, m).0.len() == tbl.len(),
        count_occupied(step_msg(tbl, m).0) == count_occupied(tbl) + step_msg(tbl, m).2,
        step_msg(tbl, m).2 <= 1,
{
    if m.pld.kind == data::Kind::Transaction {
        let fk = m.pld.from;
        let tk = m.pld.data.tx.to;
        let amount = m.pld.data.tx.amount;
        let fee = m.pld.fee;
        if !fk.spec_unused() && !tk.spec_unused() && find_slot(tbl, fk) is Some && find_slot(
            tbl,
            tk,
        ) is Some {
            let sf = find_slot(tbl, fk)->Some_0;
            let st = find_slot(tbl, tk)->Some_0;
            lemma_find_slot_in_range(tbl, fk);
            lemma_find_slot_in_range(tbl, tk);
            let dep_base = if st == sf {
                tbl[sf].balance - amount - fee
            } else {
                tbl[st].balance as int
            };
            if tbl[sf].from == fk && (tbl[st].from.spec_unused() || tbl[st].from == tk) && tbl[sf].balance
                >= amount + fee && dep_base + amount <= u64::MAX {
                let withdrawn = Account {
                    from: fk,
                    balance: (tbl[sf].balance - amount - fee) as u64,
                };
                let t1 = tbl.update(sf, withdrawn);
                // The withdrawal changes a balance, never a key, so every
                // lookup and the occupied count carry over.
                assert forall|p: int| 0 <= p < t1.len() implies #[trigger] t1[p].spec_key()
                    == tbl[p].spec_key() by {}
                assert forall|k: [u8; 32]| find_slot(t1, k) == find_slot(tbl, k) by {
                    lemma_find_slot_same_keys(tbl, t1, k);
                }
                assert(table_wf(t1));
                lemma_count_occupied_update(tbl, 0, sf, withdrawn);
                let created: nat = if t1[st].from.spec_unused() {
                    1
                } else {
                    0
                };
                let deposited = Account { from: tk, balance: (dep_base + amount) as u64 };
                let t2 = t1.update(st, deposited);
                lemma_count_occupied_update(t1, 0, st, deposited);
                if t1[st].from.spec_unused() {
                    lemma_insert_wf(t1, deposited, st);
                } else {
                    // The payee existed: its key stays, so lookups and the
                    // count carry over once more.
                    assert(t1[st].from == tk);
                    assert forall|p: int| 0 <= p < t2.len() implies #[trigger] t2[p].spec_key()
                        == t1[p].spec_key() by {}
                    assert forall|k: [u8; 32]| find_slot(t2, k) == find_slot(t1, k) by {
                        lemma_find_slot_same_keys(t1, t2, k);
                    }
                    assert(table_wf(t2));
                }
            }
        }
    }
}

/// One settlement step only ever updates slots in place.
pub proof fn lemma_step_msg_len(tbl: Seq<Account>, m: Message)
    ensures
        step_msg(tbl, m).0.len() == tbl.len(),
{
    let fk = m.pld.from;
    let tk = m.pld.data.tx.to;
    if find_slot(tbl, fk) is Some {
        lemma_find_slot_in_range(tbl, fk);
    }
    if find_slot(tbl, tk) is Some {
        lemma_find_slot_in_range(tbl, tk);
    }
}

/// A batch settles into as many instructions as it brought, and the table
/// keeps its capacity throughout.
pub proof fn lemma_step_batch_len(tbl: Seq<Account>, msgs: Seq<Message>)
    ensures
        step_batch(tbl, msgs).1.len() == msgs.len(),
        step_batch(tbl, msgs).0.len() == tbl.len(),
    decreases msgs.len(),
{
    if msgs.len() > 0 {
        lemma_step_batch_len(tbl, msgs.drop_last());
        let prev = step_batch(tbl, msgs.drop_last());
        lemma_step_msg_len(prev.0, msgs.last());
    }
}

/// The sum of every slot's balance, empty slots included at their zero.
pub open spec fn sum_balances(tbl: Seq<Account>) -> int
    decreases tbl.len(),
{
    if tbl.len() == 0 {
        0
    } else {
        sum_balances(tbl.drop_last()) + tbl.last().balance
    }
}

/// Writing one slot moves the sum by the difference of balances.
proof fn lemma_sum_balances_update(tbl: Seq<Account>, p: int, v: Account)
    requires
        0 <= p < tbl.len(),
    ensures
        sum_balances(tbl.update(p, v)) == sum_balances(tbl) - tbl[p].balance + v.balance,
    decreases tbl.len(),
{
    let t2 = tbl.update(p, v);
    if p == tbl.len() - 1 {
        assert(t2.drop_last() =~= tbl.drop_last());
    } else {
        lemma_sum_balances_update(tbl.drop_last(), p, v);
        assert(t2.drop_last() =~= tbl.drop_last().update(p, v));
    }
}

/// Total conservation: whenever settling an instruction changes the table
/// at all, the total balance across every account falls by exactly the
/// instruction's fee — the payer loses amount and fee, the payee gains
/// amount, and the fee leaves circulation.
pub proof fn lemma_total_conservation(tbl: Seq<Account>, m: Message)
    ensures
        step_msg(tbl, m).0 != tbl ==> sum_balances(step_msg(tbl, m).0) == sum_balances(tbl)
            - m.pld.fee,
{
    if m.pld.kind == data::Kind::Transaction {
        let fk = m.pld.from;
        let tk = m.pld.data.tx.to;
        let amount = m.pld.data.tx.amount;
        let fee = m.pld.fee;
        if !fk.spec_unused() && !tk.spec_unused() && find_slot(tbl, fk) is Some && find_slot(
            tbl,
            tk,
        ) is Some {
            let sf = find_slot(tbl, fk)->Some_0;
            let st = find_slot(tbl, tk)->Some_0;
            lemma_find_slot_in_range(tbl, fk);
            lemma_find_slot_in_range(tbl, tk);
            let dep_base = if st == sf {
                tbl[sf].balance - amount - fee
            } else {
                tbl[st].balance as int
            };
            if tbl[sf].from == fk && (tbl[st].from.spec_unused() || tbl[st].from == tk) && tbl[sf].balance
                >= amount + fee && dep_base + amount <= u64::MAX {
                let withdrawn = Account {
                    from: fk,
                    balance: (tbl[sf].balance - amount - fee) as u64,
                };
                let t1 = tbl.update(sf, withdrawn);
                let deposited = Account { from: tk, balance: (dep_base + amount) as u64 };
                lemma_sum_balances_update(tbl, sf, withdrawn);
                lemma_sum_balances_update(t1, st, deposited);
            }
        }
    }
}

/// Settling one batch and then another is exactly settling their
/// concatenation: batch boundaries have no effect of their own, which is
/// why a replayed log may be chunked at will.
pub proof fn lemma_step_batch_append(tbl: Seq<Account>, a: Seq<Message>, b: Seq<Message>)
    ensures
        step_batch(tbl, a + b).0 == step_batch(step_batch(tbl, a).0, b).0,
        step_batch(tbl, a + b).1 == step_batch(tbl, a).1 + step_batch(step_batch(tbl, a).0, b).1,
        step_batch(tbl, a + b).2 == step_batch(tbl, a).2 + step_batch(step_batch(tbl, a).0, b).2,
    decreases b.len(),
{
    let ra = step_batch(tbl, a);
    let rb = step_batch(ra.0, b);
    if b.len() == 0 {
        assert(a + b =~= a);
        assert(ra.1 + rb.1 =~= ra.1);
    } else {
        lemma_step_batch_append(tbl, a, b.drop_last());
        assert((a + b).drop_last() =~= a + b.drop_last());
        assert((a + b).last() == b.last());
        let prev_ab = step_batch(tbl, a + b.drop_last());
        let prev_b = step_batch(ra.0, b.drop_last());
        let last = step_msg(prev_b.0, b.last());
        assert(step_batch(tbl, a + b).1 == prev_ab.1.push(last.1));
        assert(prev_ab.1.push(last.1) =~= ra.1 + prev_b.1.push(last.1));
    }
}

/// Conservation of a settled transfer. Against a well-formed table, with
/// the payer live, the payee's slot resolved, and a payee able to absorb
/// the credit: if the payer's balance covers `amount + fee`, the payer is
/// debited exactly that, the payee credited exactly `amount`, and the
/// instruction settles as `Deposited`; otherwise nothing changes at all
/// and the settlement state stays where it was.
pub proof fn lemma_transfer_conservation(tbl: Seq<Account>, m: Message, sf: int, st: int)
    requires
        table_wf(tbl),
        m.pld.kind == data::Kind::Transaction,
        !m.pld.from.spec_unused(),
        !m.pld.data.tx.to.spec_unused(),
        find_slot(tbl, m.pld.from) == Some(sf),
        tbl[sf].from == m.pld.from,
        find_slot(tbl, m.pld.data.tx.to) == Some(st),
        sf != st,
        tbl[st].balance + m.pld.data.tx.amount <= u64::MAX,
    ensures
        tbl[sf].balance >= m.pld.data.tx.amount + m.pld.fee ==> {
            let stepped = step_msg(tbl, m);
            &&& stepped.0[sf].balance == tbl[sf].balance - m.pld.data.tx.amount - m.pld.fee
            &&& stepped.0[st].balance == tbl[st].balance + m.pld.data.tx.amount
            &&& stepped.1.pld.state == data::State::Deposited
            &&& stepped.2 == (if tbl[st].from.spec_unused() {
                1nat
            } else {
                0nat
            })
            &&& forall|p: int|
                0 <= p < tbl.len() && p != sf && p != st ==> #[trigger] stepped.0[p] == tbl[p]
        },
        tbl[sf].balance < m.pld.data.tx.amount + m.pld.fee ==> step_msg(tbl, m) == (tbl, m, 0nat),
{
    lemma_find_slot_in_range(tbl, m.pld.from);
    lemma_find_slot_in_range(tbl, m.pld.data.tx.to);
}

/// One more instruction settled: the batch fold advances by one step.
proof fn lemma_step_batch_snoc(tbl: Seq<Account>, msgs: Seq<Message>, j: int)
    requires
        0 <= j < msgs.len(),
    ensures
        ({
            let pre = step_batch(tbl, msgs.subrange(0, j));
            let stepped = step_msg(pre.0, msgs[j]);
            let next = step_batch(tbl, msgs.subrange(0, j + 1));
            &&& next.0 == stepped.0
            &&& next.1 == pre.1.push(stepped.1)
            &&& next.2 == pre.2 + stepped.2
        }),
{
    let sub1 = msgs.subrange(0, j + 1);
    assert(sub1.drop_last() =~= msgs.subrange(0, j));
    assert(sub1.last() == msgs[j]);
}

/// Replacing the first instruction of the unsettled tail in place moves
/// it, settled, onto the settled prefix.
proof fn lemma_splice(front: Seq<Message>, rest: Seq<Message>, m2: Message)
    requires
        rest.len() > 0,
    ensures
        (front + rest).update(front.len() as int, m2) == front.push(m2) + rest.subrange(
            1,
            rest.len() as int,
        ),
{
    assert((front + rest).update(front.len() as int, m2) =~= front.push(m2) + rest.subrange(
        1,
        rest.len() as int,
    ));
}

/// The state engine: the account table it owns and the running count of
/// occupied slots, kept incrementally so the growth policy never rescans.
pub struct State {
    accounts: Vec<Account>,
    used: usize,
}

impl State {
    /// The account table as the specification sees it.
    pub closed spec fn accounts_view(&self) -> Seq<Account> {
        self.accounts@
    }

    /// How many slots hold a live account, as the specification sees it.
    pub closed spec fn used_view(&self) -> nat {
        self.used as nat
    }

    /// The engine's invariant: the table is well formed — every live key
    /// resolves to its own slot — and `used` counts the occupied slots.
    pub open spec fn wf(&self) -> bool {
        &&& table_wf(self.accounts_view())
        &&& self.used_view() == count_occupied(self.accounts_view())
    }

    /// The running count lives in one machine word.
    pub proof fn lemma_used_fits(&self)
        ensures
            self.used_view() <= usize::MAX,
    {
    }

    /// A fresh engine over a table of `size` empty slots.
    pub fn new(size: usize) -> (s: State)
        ensures
            s.wf(),
            s.accounts_view().len() == size,
            s.used_view() == 0,
            forall|p: int|
                0 <= p < size ==> (#[trigger] s.accounts_view()[p]).from.spec_unused()
                    && s.accounts_view()[p].balance == 0,
    {
        let blank = Account::default();
        let v: Vec<Account> = vec![blank; size];
        proof {
            assert(forall|p: int|
                0 <= p < size ==> (#[trigger] v@[p]).from.spec_unused() && v@[p].balance == 0);
            lemma_count_occupied_zero(v@, 0);
        }
        State { accounts: v, used: 0 }
    }

    /// Settle one instruction against the table, in place, and return how
    /// many accounts it created. Mirrors `step_msg` exactly.
    fn settle(tbl: &mut Vec<Account>, m: &mut Message) -> (created: usize)
        ensures
            final(tbl)@ == step_msg(old(tbl)@, *old(m)).0,
            *final(m) == step_msg(old(tbl)@, *old(m)).1,
            created as nat == step_msg(old(tbl)@, *old(m)).2,
    {
        if m.pld.kind == data::Kind::Transaction {
            let fk = m.pld.from;
            let tk = m.pld.data.tx.to;
            let amount = m.pld.data.tx.amount;
            let fee = m.pld.fee;
            if fk.unused() || tk.unused() {
                return 0;
            }
            let sf = match AccountT::find(tbl, &fk) {
                Ok(p) => p,
                Err(_) => {
                    return 0;
                },
            };
            let st = match AccountT::find(tbl, &tk) {
                Ok(p) => p,
                Err(_) => {
                    return 0;
                },
            };
            if !tbl[sf].from.key_eq(&fk) {
                return 0;
            }
            if !tbl[st].from.unused() && !tbl[st].from.key_eq(&tk) {
                return 0;
            }
            // Withdraw: the payer must cover amount and fee together.
            if fee > u64::MAX - amount {
                return 0;
            }
            let total = amount + fee;
            let payer_balance = tbl[sf].balance;
            if payer_balance < total {
                return 0;
            }
            let debited = payer_balance - total;
            // The payee must be able to absorb the credit.
            let dep_base = if st == sf {
                debited
            } else {
                tbl[st].balance
            };
            if amount > u64::MAX - dep_base {
                return 0;
            }
            tbl.set(sf, Account { from: fk, balance: debited });
            // Deposit: only a successful withdrawal reaches this phase.
            let created: usize = if tbl[st].from.unused() {
                1
            } else {
                0
            };
            tbl.set(st, Account { from: tk, balance: dep_base + amount });
            m.pld.state = data::State::Deposited;
            created
        } else if m.pld.kind == data::Kind::GetBalance {
            let k = m.pld.data.bal.key;
            match AccountT::find(tbl, &k) {
                Ok(p) => {
                    if !tbl[p].from.unused() && tbl[p].from.key_eq(&k) {
                        m.pld.data.bal.amount = tbl[p].balance;
                    }
                },
                Err(_) => {},
            }
            0
        } else {
            0
        }
    }

    /// Settle a whole batch, in order, mutating the table and every
    /// instruction in place. Returns how many accounts the batch created,
    /// so the caller can run the growth policy once per batch — and since
    /// settlement is in-memory and total, the result is always `Ok`.
    #[verifier::rlimit(30)]
    pub fn execute(&mut self, msgs: &mut Vec<Message>) -> (r: Result<usize, Error>)
        requires
            old(self).wf(),
        ensures
            final(self).wf(),
            ({
                let stepped = step_batch(old(self).accounts_view(), old(msgs)@);
                &&& r == Ok::<usize, Error>(stepped.2 as usize)
                &&& final(self).accounts_view() == stepped.0
                &&& final(msgs)@ == stepped.1
                &&& final(self).used_view() == old(self).used_view() + stepped.2
                &&& final(self).accounts_view().len() == old(self).accounts_view().len()
                &&& count_occupied(final(self).accounts_view()) == count_occupied(
                    old(self).accounts_view(),
                ) + stepped.2
            }),
    {
        let ghost tbl0 = self.accounts@;
        let ghost msgs0 = msgs@;
        let mut j: usize = 0;
        let mut created: usize = 0;
        while j < msgs.len()
            invariant
                tbl0 == old(self).accounts_view(),
                old(self).wf(),
                0 <= j <= msgs@.len(),
                msgs@.len() == msgs0.len(),
                created <= j,
                table_wf(self.accounts@),
                self.accounts@.len() == tbl0.len(),
                self.used == old(self).used_view(),
                count_occupied(self.accounts@) == count_occupied(tbl0) + created,
                self.accounts@ == step_batch(tbl0, msgs0.subrange(0, j as int)).0,
                msgs@ == step_batch(tbl0, msgs0.subrange(0, j as int)).1 + msgs0.subrange(
                    j as int,
                    msgs0.len() as int,
                ),
                created as nat == step_batch(tbl0, msgs0.subrange(0, j as int)).2,
            decreases msgs@.len() - j,
        {
            let ghost pre = step_batch(tbl0, msgs0.subrange(0, j as int));
            proof {
                lemma_step_batch_len(tbl0, msgs0.subrange(0, j as int));
                assert(msgs@[j as int] == msgs0.subrange(j as int, msgs0.len() as int)[0]);
            }
            let mut m = msgs[j];
            proof {
                assert(m == msgs0[j as int]);
                lemma_step_msg(self.accounts@, m);
            }
            let k = Self::settle(&mut self.accounts, &mut m);
            msgs.set(j, m);
            proof {
                lemma_step_batch_snoc(tbl0, msgs0, j as int);
                let rest = msgs0.subrange(j as int, msgs0.len() as int);
                lemma_splice(pre.1, rest, m);
                assert(rest.subrange(1, rest.len() as int) =~= msgs0.subrange(
                    j as int + 1,
                    msgs0.len() as int,
                ));
            }
            created = created + k;
            j = j + 1;
        }
        proof {
            assert(msgs0.subrange(0, msgs0.len() as int) =~= msgs0);
            assert(msgs0.subrange(msgs0.len() as int, msgs0.len() as int) =~= Seq::<
                Message,
            >::empty());
            assert(msgs@ =~= step_batch(tbl0, msgs0).1);
            lemma_count_occupied_bound(self.accounts@, 0);
            assert(self.accounts@.len() == self.accounts.len());
        }
        self.used = self.used + created;
        Ok(created)
    }

    /// Read an account's balance without touching anything; `KeyNotFound`
    /// when no live account carries the key.
    pub fn get_balance(&self, key: &[u8; 32]) -> (r: Result<u64, Error>)
        ensures
            r == match balance_of(self.accounts_view(), *key) {
                Some(b) => Ok::<u64, Error>(b),
                None => Err::<u64, Error>(Error::KeyNotFound),
            },
    {
        match AccountT::find(&self.accounts, key) {
            Ok(p) => {
                if !self.accounts[p].from.unused() && self.accounts[p].from.key_eq(key) {
                    Ok(self.accounts[p].balance)
                } else {
                    Err(Error::KeyNotFound)
                }
            },
            Err(_) => Err(Error::KeyNotFound),
        }
    }

    /// Build an engine holding the listed accounts, in a table with two
    /// slots plus two for every entry, so everything fits with room to
    /// spare. Of entries sharing a key the last one wins, as if deposited
    /// later; entries under the sentinel key are ignored. Only a list too
    /// long for any table is refused.
    pub fn from_list(list: &Vec<Account>) -> (r: Result<State, Error>)
        ensures
            match r {
                Ok(s) => {
                    &&& s.wf()
                    &&& s.accounts_view().len() == 2 * list@.len() + 2
                    &&& list@.len() <= (usize::MAX - 2) / 2
                    &&& forall|j: int|
                        #![trigger list@[j]]
                        (0 <= j < list@.len() && !list@[j].from.spec_unused() && (forall|l: int|
                            j < l < list@.len() ==> (#[trigger] list@[l]).from != list@[j].from))
                            ==> balance_of(s.accounts_view(), list@[j].from) == Some(
                            list@[j].balance,
                        )
                    &&& forall|p: int|
                        0 <= p < s.accounts_view().len() && !(
                        #[trigger] s.accounts_view()[p]).from.spec_unused() ==> exists|j: int|
                            0 <= j < list@.len() && s.accounts_view()[p] == list@[j]
                },
                Err(e) => e == Error::NoSpace && list@.len() > (usize::MAX - 2) / 2,
            },
    {
        if list.len() > (usize::MAX - 2) / 2 {
            return Err(Error::NoSpace);
        }
        let cap = 2 * list.len() + 2;
        let blank = Account::default();
        let mut accounts: Vec<Account> = vec![blank; cap];
        let ghost dst0 = accounts@;
        proof {
            assert(forall|p: int|
                0 <= p < dst0.len() ==> (#[trigger] dst0[p]).from.spec_unused() && dst0[p].balance
                    == 0);
            lemma_count_occupied_zero(dst0, 0);
        }
        let mut used: usize = 0;
        let mut j: usize = 0;
        while j < list.len()
            invariant
                dst0.len() == cap as int,
                count_occupied(dst0) == 0,
                0 <= j <= list@.len(),
                2 * list@.len() + 2 == cap as int,
                accounts@.len() == cap as int,
                table_wf(accounts@),
                used as nat == count_occupied(accounts@),
                count_occupied(accounts@) + (list@.len() - j) <= cap as int,
                fill_from(dst0, list@, 0) == fill_from(accounts@, list@, j as int),
            decreases list@.len() - j,
        {
            let v = &list[j];
            if !v.from.unused() {
                proof {
                    lemma_count_occupied_room(accounts@, 0);
                    let s = choose|s: int|
                        0 <= s < accounts@.len() && (
                        #[trigger] accounts@[s].spec_key()).spec_unused();
                    lemma_find_succeeds(accounts@, list@[j as int].from, s);
                }
                match AccountT::find(&accounts, &v.from) {
                    Ok(p) => {
                        if accounts[p].from.unused() {
                            used = used + 1;
                        }
                        proof {
                            lemma_insert_wf(accounts@, list@[j as int], p as int);
                            lemma_count_occupied_update(accounts@, 0, p as int, list@[j as int]);
                        }
                        accounts.set(p, *v);
                    },
                    Err(_) => {
                        // Unreachable: the invariant keeps a free slot
                        // while entries remain.
                        proof {
                            assert(false);
                        }
                        return Err(Error::NoSpace);
                    },
                }
            }
            j = j + 1;
        }
        proof {
            assert(fill_from(dst0, list@, 0) == Some(accounts@));
            assert forall|j: int|
                #![trigger list@[j]]
                (0 <= j < list@.len() && !list@[j].from.spec_unused() && (forall|l: int|
                    j < l < list@.len() ==> (#[trigger] list@[l]).from != list@[j].from))
                    implies balance_of(accounts@, list@[j].from) == Some(list@[j].balance) by {
                lemma_fill_inserts(dst0, list@, 0, accounts@, j);
            }
            lemma_fill_values_from(dst0, list@, 0, accounts@);
            assert forall|p: int|
                0 <= p < accounts@.len() && !(#[trigger] accounts@[p]).from.spec_unused() implies exists|
                j: int,
            | 0 <= j < list@.len() && accounts@[p] == list@[j] by {
                assert(accounts@[p] == dst0[p] || exists|l: int|
                    0 <= l < list@.len() && accounts@[p] == list@[l]);
                assert(accounts@[p] != dst0[p]);
            }
        }
        Ok(State { accounts, used })
    }

    /// Replace the table with one of twice the capacity and re-file every
    /// live account in it. Where each account is filed changes; what every
    /// key holds does not.
    fn double(&mut self)
        requires
            old(self).wf(),
            old(self).accounts_view().len() <= usize::MAX / 2,
        ensures
            final(self).wf(),
            final(self).used_view() == old(self).used_view(),
            final(self).accounts_view().len() == 2 * old(self).accounts_view().len(),
            forall|k: [u8; 32]|
                balance_of(final(self).accounts_view(), k) == balance_of(
                    old(self).accounts_view(),
                    k,
                ),
    {
        let ghost src = self.accounts@;
        let cap = self.accounts.len();
        let blank = Account::default();
        let mut bigger: Vec<Account> = vec![blank; 2 * cap];
        let ghost dst0 = bigger@;
        proof {
            assert(forall|p: int|
                0 <= p < dst0.len() ==> (#[trigger] dst0[p]).from.spec_unused() && dst0[p].balance
                    == 0);
            lemma_count_occupied_zero(dst0, 0);
            assert(distinct_live_keys(src)) by {
                assert forall|l1: int, l2: int|
                    0 <= l1 < l2 < src.len() && !(#[trigger] src[l1].spec_key()).spec_unused() && !(
                    #[trigger] src[l2].spec_key()).spec_unused() implies src[l1].spec_key()
                    != src[l2].spec_key() by {
                    lemma_wf_distinct(src, l1, l2);
                }
            }
            lemma_count_occupied_bound(src, 0);
            lemma_fill_fresh(dst0, src, 0);
        }
        match AccountT::migrate(&self.accounts, &mut bigger) {
            Ok(()) => {
                proof {
                    lemma_fill_wf(dst0, src, 0, bigger@);
                    Self::lemma_migration_preserves_balances(dst0, src, bigger@);
                }
                self.accounts = bigger;
            },
            Err(_) => {
                // Unreachable: a doubled fresh table has room for every
                // live entry.
                proof {
                    assert(false);
                }
            },
        }
    }

    /// Run the growth policy, once, between batches: when more than three
    /// quarters of the slots are occupied, double the table and re-file
    /// every account. Returns whether it grew. A table already beyond half
    /// the address space stays as it is.
    pub fn grow_if_needed(&mut self) -> (grew: bool)
        requires
            old(self).wf(),
        ensures
            final(self).wf(),
            grew == (4 * old(self).used_view() > 3 * old(self).accounts_view().len()
                && old(self).accounts_view().len() <= usize::MAX / 2),
            !grew ==> *final(self) == *old(self),
            grew ==> final(self).accounts_view().len() == 2 * old(self).accounts_view().len(),
            final(self).used_view() == old(self).used_view(),
            forall|k: [u8; 32]|
                balance_of(final(self).accounts_view(), k) == balance_of(
                    old(self).accounts_view(),
                    k,
                ),
    {
        let cap = self.accounts.len();
        let crowded = 4u128 * (self.used as u128) > 3u128 * (cap as u128);
        if crowded && cap <= usize::MAX / 2 {
            self.double();
            true
        } else {
            false
        }
    }

    /// After migration into a fresh table, every key reads the same
    /// balance as before: live accounts moved with their values, and
    /// nothing else became live.
    proof fn lemma_migration_preserves_balances(dst0: Seq<Account>, src: Seq<Account>, out: Seq<
        Account,
    >)
        requires
            table_wf(src),
            forall|p: int| 0 <= p < dst0.len() ==> (#[trigger] dst0[p]).from.spec_unused(),
            fill_from(dst0, src, 0) == Some(out),
            keys_from_prefix(out, src, src.len() as int),
        ensures
            forall|k: [u8; 32]| balance_of(out, k) == balance_of(src, k),
    {
        assert forall|k: [u8; 32]| balance_of(out, k) == balance_of(src, k) by {
            if balance_of(src, k) is Some {
                let p = find_slot(src, k)->Some_0;
                lemma_find_slot_in_range(src, k);
                assert(src[p].from == k && !src[p].from.spec_unused());
                assert forall|l: int|
                    p < l < src.len() && !(#[trigger] src[l].spec_key()).spec_unused() implies src[l].spec_key()
                    != src[p].spec_key() by {
                    lemma_wf_distinct(src, p, l);
                }
                lemma_fill_inserts(dst0, src, 0, out, p);
                let q = find_slot(out, k)->Some_0;
                assert(out[q] == src[p]);
            } else {
                if balance_of(out, k) is Some {
                    let q = find_slot(out, k)->Some_0;
                    lemma_find_slot_in_range(out, k);
                    assert(out[q].from == k && !out[q].from.spec_unused());
                    // Everything live in the destination came from the
                    // source, so the source held `k` live after all.
                    let l = choose|l: int|
                        0 <= l < src.len() && out[q].spec_key() == src[l].spec_key();
                    assert(find_slot(src, src[l].spec_key()) == Some(l));
                    assert(balance_of(src, k) is Some);
                }
            }
        }
    }
}

} // verus!
