//! Coalescing signal delivery, in the manner of an edge-triggered wakeup
//! queue: a signal raised any number of times before it is consumed wakes
//! its consumer exactly once. Buses group signals that one event raises
//! together; the dispatcher queues each raised signal once, oldest first.

use vstd::prelude::*;

verus! {

use vstd::pervasive::VecAdditionalExecFns;

/// One registered signal: its handler word, and whether it is currently
/// raised (and therefore queued).
pub struct Signal {
    pub sig: u64,
    pub set: bool,
}

/// The dispatcher: every registered signal, and the queue of raised
/// signals' ids, oldest first.
pub struct Dispatcher {
    pub signals: Vec<Signal>,
    pub queue: Vec<usize>,
}

/// One bus: the ids of the signals that are raised together when the bus
/// fires.
pub struct Bus {
    pub members: Vec<usize>,
}

impl Dispatcher {
    /// The dispatcher's invariant: every queued id is a registered,
    /// raised signal; every raised signal is queued; no id is queued
    /// twice.
    pub open spec fn wf(&self) -> bool {
        &&& forall|i: int|
            0 <= i < self.queue@.len() ==> ((#[trigger] self.queue@[i]) as int) < self.signals@.len()
                && self.signals@[self.queue@[i] as int].set
        &&& forall|s: int|
            0 <= s < self.signals@.len() && (#[trigger] self.signals@[s]).set
                ==> self.queue@.contains(s as usize)
        &&& forall|i: int, j: int|
            0 <= i < j < self.queue@.len() ==> self.queue@[i] != self.queue@[j]
    }

    /// A dispatcher with no signals and nothing raised.
    pub fn new() -> (d: Dispatcher)
        ensures
            d.wf(),
            d.signals@.len() == 0,
            d.queue@.len() == 0,
    {
        Dispatcher { signals: Vec::new(), queue: Vec::new() }
    }

    /// Register a new signal carrying the handler word `sig`, lowered;
    /// returns its id.
    pub fn signal(&mut self, sig: u64) -> (id: usize)
        requires
            old(self).wf(),
        ensures
            final(self).wf(),
            id as int == old(self).signals@.len(),
            final(self).signals@ == old(self).signals@.push(Signal { sig, set: false }),
            final(self).queue@ == old(self).queue@,
    {
        let id = self.signals.len();
        self.signals.push(Signal { sig, set: false });
        proof {
            assert forall|s: int|
                0 <= s < self.signals@.len() && (#[trigger] self.signals@[s]).set implies self.queue@.contains(
                s as usize,
            ) by {
                assert(s < old(self).signals@.len());
            }
        }
        id
    }

    /// Take the oldest raised signal off the queue, lower it, and return
    /// its handler word; `None` when nothing is raised.
    pub fn pop(&mut self) -> (r: Option<u64>)
        requires
            old(self).wf(),
        ensures
            final(self).wf(),
            old(self).queue@.len() == 0 ==> r is None && *final(self) == *old(self),
            old(self).queue@.len() > 0 ==> {
                let id = old(self).queue@[0];
                &&& r == Some(old(self).signals@[id as int].sig)
                &&& final(self).queue@ == old(self).queue@.subrange(
                    1,
                    old(self).queue@.len() as int,
                )
                &&& final(self).signals@ == old(self).signals@.update(
                    id as int,
                    Signal { sig: old(self).signals@[id as int].sig, set: false },
                )
            },
    {
        if self.queue.len() == 0 {
            return None;
        }
        let id = self.queue.remove(0);
        let word = self.signals[id].sig;
        self.signals.set(id, Signal { sig: word, set: false });
        proof {
            let q0 = old(self).queue@;
            let s0 = old(self).signals@;
            assert forall|i: int|
                0 <= i < self.queue@.len() implies ((#[trigger] self.queue@[i]) as int)
                < self.signals@.len() && self.signals@[self.queue@[i] as int].set by {
                assert(self.queue@[i] == q0[i + 1]);
                // The popped id sits nowhere else in the queue, so the
                // cleared signal is not among the remaining ids.
                assert(q0[i + 1] != q0[0]);
            }
            assert forall|s: int|
                0 <= s < self.signals@.len() && (#[trigger] self.signals@[s]).set implies self.queue@.contains(
                s as usize,
            ) by {
                assert(s0.len() == old(self).signals.len());
                assert(s0[s].set && s != id);
                let w = choose|w: int| 0 <= w < q0.len() && q0[w] == s as usize;
                assert(q0[w] == s as usize && w != 0);
                assert(self.queue@[w - 1] == s as usize);
            }
        }
        Some(word)
    }
}

impl Bus {
    /// A bus with no members.
    pub fn new() -> (b: Bus)
        ensures
            b.members@.len() == 0,
    {
        Bus { members: Vec::new() }
    }

    /// Attach one more signal to the bus.
    pub fn add(&mut self, id: usize)
        ensures
            final(self).members@ == old(self).members@.push(id),
    {
        self.members.push(id);
    }

    /// Fire the bus: raise and queue every member not already raised, in
    /// member order, each once; members already raised stay queued where
    /// they are.
    pub fn set(&self, d: &mut Dispatcher)
        requires
            old(d).wf(),
            forall|l: int|
                0 <= l < self.members@.len()
                    ==> ((#[trigger] self.members@[l]) as int) < old(d).signals@.len(),
        ensures
            final(d).wf(),
            final(d).signals@.len() == old(d).signals@.len(),
            // Handler words never change; raised signals stay raised.
            forall|s: int|
                0 <= s < old(d).signals@.len()
                    ==> (#[trigger] final(d).signals@[s]).sig == old(d).signals@[s].sig,
            forall|s: int|
                0 <= s < old(d).signals@.len() && old(d).signals@[s].set
                    ==> (#[trigger] final(d).signals@[s]).set,
            // Every member ends raised; every non-member keeps its state.
            forall|l: int|
                0 <= l < self.members@.len() ==> final(d).signals@[(#[trigger] self.members@[l]) as int].set,
            forall|s: int|
                0 <= s < old(d).signals@.len() && !self.members@.contains(s as usize) ==> (
                #[trigger] final(d).signals@[s]).set == old(d).signals@[s].set,
            // The queue only grows, behind what was already queued.
            final(d).queue@.subrange(0, old(d).queue@.len() as int) == old(d).queue@,
    {
        let ghost s0 = d.signals@;
        let ghost q0 = d.queue@;
        let mut j: usize = 0;
        while j < self.members.len()
            invariant
                s0 == old(d).signals@,
                q0 == old(d).queue@,
                0 <= j <= self.members@.len(),
                forall|l: int|
                    0 <= l < self.members@.len() ==> ((#[trigger] self.members@[l]) as int)
                        < s0.len(),
                d.wf(),
                d.signals@.len() == s0.len(),
                forall|s: int| 0 <= s < s0.len() ==> (#[trigger] d.signals@[s]).sig == s0[s].sig,
                forall|s: int| 0 <= s < s0.len() && s0[s].set ==> (#[trigger] d.signals@[s]).set,
                forall|l: int|
                    0 <= l < j ==> d.signals@[(#[trigger] self.members@[l]) as int].set,
                forall|s: int|
                    0 <= s < s0.len() && !self.members@.contains(s as usize) ==> (
                    #[trigger] d.signals@[s]).set == s0[s].set,
                d.queue@.len() >= q0.len(),
                d.queue@.subrange(0, q0.len() as int) == q0,
            decreases self.members@.len() - j,
        {
            let id = self.members[j];
            if !d.signals[id].set {
                let ghost qprev = d.queue@;
                let ghost sprev = d.signals@;
                proof {
                    // A lowered signal is not queued: queued ids are raised.
                    assert(!qprev.contains(id)) by {
                        if qprev.contains(id) {
                            let w = choose|w: int| 0 <= w < qprev.len() && qprev[w] == id;
                            assert(sprev[qprev[w] as int].set);
                            assert(false);
                        }
                    }
                }
                let word = d.signals[id].sig;
                d.signals.set(id, Signal { sig: word, set: true });
                d.queue.push(id);
                proof {
                    let q1 = d.queue@;
                    let s1 = d.signals@;
                    assert forall|i: int|
                        0 <= i < q1.len() implies ((#[trigger] q1[i]) as int) < s1.len()
                        && s1[q1[i] as int].set by {
                        if i < qprev.len() {
                            assert(q1[i] == qprev[i]);
                            assert(sprev[qprev[i] as int].set);
                            assert(qprev[i] != id);
                        } else {
                            assert(q1[i] == id);
                        }
                    }
                    assert forall|s: int|
                        0 <= s < s1.len() && (#[trigger] s1[s]).set implies q1.contains(
                        s as usize,
                    ) by {
                        if s == id as int {
                            assert(q1[qprev.len() as int] == id);
                        } else {
                            assert(sprev[s].set);
                            let w = choose|w: int| 0 <= w < qprev.len() && qprev[w] == s as usize;
                            assert(q1[w] == s as usize);
                        }
                    }
                    assert forall|i: int, w: int| 0 <= i < w < q1.len() implies q1[i] != q1[w] by {
                        if w == q1.len() - 1 {
                            assert(q1[i] == qprev[i]);
                            if qprev[i] == id {
                                assert(qprev.contains(id));
                                assert(false);
                            }
                        } else {
                            assert(q1[i] == qprev[i] && q1[w] == qprev[w]);
                        }
                    }
                    assert(q1.subrange(0, q0.len() as int) =~= qprev.subrange(0, q0.len() as int));
                }
            }
            j = j + 1;
        }
    }
}

} // verus!
