//! A fixed-capacity open-addressing table with linear probing and wraparound.
//!
//! Entries are only ever created or updated in place, never deleted, so the
//! probe needs no tombstones: for every key the first slot that is empty or
//! already bound to the key is the key's home. Growth never happens in place;
//! a larger table is filled by re-inserting every live entry (`migrate`).

use vstd::arithmetic::div_mod::lemma_mod_bound;
use vstd::prelude::*;

verus! {

use crate::errors::Error;
use vstd::pervasive::VecAdditionalExecFns;

/// A key the table can index by: it names the slot where its probe starts,
/// and it can be the reserved sentinel that marks an empty slot.
pub trait Key: Sized {
    /// The probe's starting point, as the specification sees it.
    spec fn spec_start(&self) -> usize;

    /// Whether the key is the empty-slot sentinel, as the specification sees it.
    spec fn spec_unused(&self) -> bool;

    /// The deterministic slot index the probe for this key starts from.
    fn start(&self) -> (r: usize)
        ensures
            r == self.spec_start(),
    ;

    /// Whether the key marks an empty slot.
    fn unused(&self) -> (r: bool)
        ensures
            r == self.spec_unused(),
    ;

    /// Executable equality on keys.
    fn key_eq(&self, other: &Self) -> (r: bool)
        ensures
            r == (*self == *other),
    ;
}

/// A record the table can hold: a value that exposes its own key.
pub trait Val<K: Key>: Sized {
    /// The record's key, as the specification sees it.
    spec fn spec_key(&self) -> K;

    /// The key under which the table files this value.
    fn key(&self) -> (k: &K)
        ensures
            *k == self.spec_key(),
    ;

    /// An exact copy of the value.
    fn clone_val(&self) -> (r: Self)
        ensures
            r == *self,
    ;
}

/// The slot visited at probe step `i` for a probe starting at `start`, in a
/// table of `n` slots: `start % n` moved `i` slots forward, wrapping once.
pub open spec fn slot_ix(start: usize, i: int, n: int) -> int {
    let base = (start as int) % n;
    if base + i < n {
        base + i
    } else {
        base + i - n
    }
}

/// Whether probe step `i` for `key` lands on a slot that is empty or already
/// bound to `key`.
pub open spec fn probe_hit<K: Key, V: Val<K>>(tbl: Seq<V>, key: K, i: int) -> bool {
    let occ = tbl[slot_ix(key.spec_start(), i, tbl.len() as int)].spec_key();
    occ.spec_unused() || occ == key
}

/// The first probe step at or after `i` that hits, if any.
pub open spec fn first_hit_from<K: Key, V: Val<K>>(tbl: Seq<V>, key: K, i: int) -> Option<int>
    decreases tbl.len() - i,
{
    if !(0 <= i < tbl.len()) {
        None
    } else if probe_hit(tbl, key, i) {
        Some(i)
    } else {
        first_hit_from(tbl, key, i + 1)
    }
}

/// The slot `find` resolves `key` to: the slot of the first probe step that
/// lands on an empty slot or on `key` itself; `None` when every slot is
/// occupied by other keys.
pub open spec fn find_slot<K: Key, V: Val<K>>(tbl: Seq<V>, key: K) -> Option<int> {
    match first_hit_from(tbl, key, 0) {
        Some(i) => Some(slot_ix(key.spec_start(), i, tbl.len() as int)),
        None => None,
    }
}

/// Probe steps in `[0, n)` visit slots in `[0, n)`.
pub proof fn lemma_slot_ix_bounds(start: usize, i: int, n: int)
    requires
        n > 0,
        0 <= i < n,
    ensures
        0 <= slot_ix(start, i, n) < n,
{
    lemma_mod_bound(start as int, n);
}

/// Distinct probe steps in `[0, n)` visit distinct slots.
pub proof fn lemma_slot_ix_injective(start: usize, i: int, j: int, n: int)
    requires
        n > 0,
        0 <= i < n,
        0 <= j < n,
        i != j,
    ensures
        slot_ix(start, i, n) != slot_ix(start, j, n),
{
    lemma_mod_bound(start as int, n);
}

/// Every slot of the table is visited by some probe step in `[0, n)`.
pub proof fn lemma_slot_ix_covers(start: usize, s: int, n: int)
    requires
        n > 0,
        0 <= s < n,
    ensures
        exists|i: int| 0 <= i < n && slot_ix(start, i, n) == s,
{
    lemma_mod_bound(start as int, n);
    let base = (start as int) % n;
    let w = if s >= base {
        s - base
    } else {
        s - base + n
    };
    assert(0 <= w < n && slot_ix(start, w, n) == s);
}

/// What a `first_hit_from` answer means: a `Some(j)` is a hit preceded only
/// by misses, a `None` means every remaining step misses.
pub proof fn lemma_first_hit_from<K: Key, V: Val<K>>(tbl: Seq<V>, key: K, i: int)
    requires
        0 <= i <= tbl.len(),
    ensures
        match first_hit_from(tbl, key, i) {
            Some(j) => {
                &&& i <= j < tbl.len()
                &&& probe_hit(tbl, key, j)
                &&& forall|l: int| i <= l < j ==> !probe_hit(tbl, key, l)
            },
            None => forall|l: int| i <= l < tbl.len() ==> !probe_hit(tbl, key, l),
        },
    decreases tbl.len() - i,
{
    if i < tbl.len() && !probe_hit(tbl, key, i) {
        lemma_first_hit_from(tbl, key, i + 1);
    }
}

/// The converse: a hit preceded only by misses is the first hit.
pub proof fn lemma_first_hit_is<K: Key, V: Val<K>>(tbl: Seq<V>, key: K, i: int, j: int)
    requires
        0 <= i <= j < tbl.len(),
        probe_hit(tbl, key, j),
        forall|l: int| i <= l < j ==> !probe_hit(tbl, key, l),
    ensures
        first_hit_from(tbl, key, i) == Some(j),
    decreases j - i,
{
    if i < j {
        lemma_first_hit_is(tbl, key, i + 1, j);
    }
}

/// A table with an empty slot, or one that holds `key`, always resolves
/// `key` to some slot.
pub proof fn lemma_find_succeeds<K: Key, V: Val<K>>(tbl: Seq<V>, key: K, s: int)
    requires
        0 <= s < tbl.len(),
        tbl[s].spec_key().spec_unused() || tbl[s].spec_key() == key,
    ensures
        find_slot(tbl, key) is Some,
{
    let n = tbl.len() as int;
    lemma_slot_ix_covers(key.spec_start(), s, n);
    let w = choose|i: int| 0 <= i < n && slot_ix(key.spec_start(), i, n) == s;
    assert(probe_hit(tbl, key, w));
    lemma_first_hit_from(tbl, key, 0);
}

/// A full table that does not hold `key` resolves it to no slot: the probe
/// reports that the table is out of space.
pub proof fn lemma_find_no_space<K: Key, V: Val<K>>(tbl: Seq<V>, key: K)
    requires
        forall|p: int|
            0 <= p < tbl.len() ==> !(#[trigger] tbl[p].spec_key()).spec_unused() && tbl[p].spec_key()
                != key,
    ensures
        find_slot(tbl, key) is None,
{
    let n = tbl.len() as int;
    lemma_first_hit_from(tbl, key, 0);
    if first_hit_from(tbl, key, 0) is Some {
        let j = first_hit_from(tbl, key, 0)->Some_0;
        lemma_slot_ix_bounds(key.spec_start(), j, n);
        assert(!probe_hit(tbl, key, j));
    }
}

/// Updating the slot that `key` resolves to with a value carrying `key`
/// leaves the key resolving to that same slot, now holding the new value:
/// lookups are stable across insertion.
pub proof fn lemma_insert_stable<K: Key, V: Val<K>>(tbl: Seq<V>, key: K, v: V, p: int)
    requires
        find_slot(tbl, key) == Some(p),
        v.spec_key() == key,
    ensures
        find_slot(tbl.update(p, v), key) == Some(p),
        0 <= p < tbl.len(),
        tbl.update(p, v)[p] == v,
{
    let n = tbl.len() as int;
    lemma_first_hit_from(tbl, key, 0);
    let i0 = first_hit_from(tbl, key, 0)->Some_0;
    lemma_slot_ix_bounds(key.spec_start(), i0, n);
    assert(0 <= p < n);
    let t2 = tbl.update(p, v);
    assert forall|l: int| 0 <= l < i0 implies !probe_hit(t2, key, l) by {
        lemma_slot_ix_bounds(key.spec_start(), l, n);
        lemma_slot_ix_injective(key.spec_start(), l, i0, n);
        assert(!probe_hit(tbl, key, l));
        assert(t2[slot_ix(key.spec_start(), l, n)] == tbl[slot_ix(key.spec_start(), l, n)]);
    }
    assert(probe_hit(t2, key, i0));
    lemma_first_hit_is(t2, key, 0, i0);
}

/// Inserting one key at the slot its probe chooses does not disturb where
/// any other live key resolves, nor the value stored there.
pub proof fn lemma_insert_preserves_other<K: Key, V: Val<K>>(
    tbl: Seq<V>,
    k1: K,
    p1: int,
    k2: K,
    v2: V,
    p2: int,
)
    requires
        find_slot(tbl, k1) == Some(p1),
        0 <= p1 < tbl.len(),
        tbl[p1].spec_key() == k1,
        !k1.spec_unused(),
        find_slot(tbl, k2) == Some(p2),
        v2.spec_key() == k2,
        k1 != k2,
        !k2.spec_unused(),
    ensures
        find_slot(tbl.update(p2, v2), k1) == Some(p1),
        tbl.update(p2, v2)[p1] == tbl[p1],
{
    let n = tbl.len() as int;
    lemma_first_hit_from(tbl, k1, 0);
    lemma_first_hit_from(tbl, k2, 0);
    let i1 = first_hit_from(tbl, k1, 0)->Some_0;
    let i2 = first_hit_from(tbl, k2, 0)->Some_0;
    lemma_slot_ix_bounds(k1.spec_start(), i1, n);
    lemma_slot_ix_bounds(k2.spec_start(), i2, n);
    assert(0 <= p2 < n);
    // The occupant of `p2` is empty or holds `k2`, while `p1` holds the
    // live key `k1`, so the two slots differ.
    assert(tbl[p2].spec_key().spec_unused() || tbl[p2].spec_key() == k2);
    assert(p1 != p2);
    let t2 = tbl.update(p2, v2);
    assert forall|l: int| 0 <= l < i1 implies !probe_hit(t2, k1, l) by {
        lemma_slot_ix_bounds(k1.spec_start(), l, n);
        let s = slot_ix(k1.spec_start(), l, n);
        assert(!probe_hit(tbl, k1, l));
        if s == p2 {
            // The old occupant missed `k1` yet let `k2` in, so it held
            // `k2`; the new value still holds `k2`, still a miss for `k1`.
            assert(t2[s].spec_key() == k2);
        } else {
            assert(t2[s] == tbl[s]);
        }
    }
    assert(t2[slot_ix(k1.spec_start(), i1, n)] == tbl[slot_ix(k1.spec_start(), i1, n)]);
    assert(probe_hit(t2, k1, i1));
    lemma_first_hit_is(t2, k1, 0, i1);
}

/// Where a key resolves depends only on the keys the slots hold, not on the
/// rest of the stored values.
pub proof fn lemma_find_slot_same_keys<K: Key, V: Val<K>>(t1: Seq<V>, t2: Seq<V>, key: K)
    requires
        t1.len() == t2.len(),
        forall|p: int| 0 <= p < t1.len() ==> #[trigger] t1[p].spec_key() == t2[p].spec_key(),
    ensures
        find_slot(t1, key) == find_slot(t2, key),
{
    let n = t1.len() as int;
    assert forall|l: int| 0 <= l < n implies probe_hit(t1, key, l) == probe_hit(t2, key, l) by {
        lemma_slot_ix_bounds(key.spec_start(), l, n);
    }
    lemma_first_hit_from(t1, key, 0);
    lemma_first_hit_from(t2, key, 0);
    match first_hit_from(t1, key, 0) {
        Some(j) => {
            lemma_first_hit_is(t2, key, 0, j);
        },
        None => {
            if first_hit_from(t2, key, 0) is Some {
                let j = first_hit_from(t2, key, 0)->Some_0;
                assert(!probe_hit(t1, key, j));
            }
        },
    }
}

/// A resolved slot lies inside the table and its occupant is either empty
/// or already bound to the key.
pub proof fn lemma_find_slot_in_range<K: Key, V: Val<K>>(tbl: Seq<V>, key: K)
    requires
        find_slot(tbl, key) is Some,
    ensures
        0 <= find_slot(tbl, key)->Some_0 < tbl.len(),
        tbl[find_slot(tbl, key)->Some_0].spec_key().spec_unused() || tbl[find_slot(
            tbl,
            key,
        )->Some_0].spec_key() == key,
{
    lemma_first_hit_from(tbl, key, 0);
    let i = first_hit_from(tbl, key, 0)->Some_0;
    lemma_slot_ix_bounds(key.spec_start(), i, tbl.len() as int);
}

/// The table that results from copying the live entries `src[j..]`, in
/// order, each into the slot its probe chooses in `dst`; `None` as soon as
/// one of them no longer finds a slot.
pub open spec fn fill_from<K: Key, V: Val<K>>(dst: Seq<V>, src: Seq<V>, j: int) -> Option<Seq<V>>
    decreases src.len() - j,
{
    if !(0 <= j < src.len()) {
        Some(dst)
    } else if src[j].spec_key().spec_unused() {
        fill_from(dst, src, j + 1)
    } else {
        match find_slot(dst, src[j].spec_key()) {
            Some(p) => fill_from(dst.update(p, src[j]), src, j + 1),
            None => None,
        }
    }
}

/// The table that a whole migration of `src` into `dst` produces, if every
/// entry finds a slot.
pub open spec fn fill_spec<K: Key, V: Val<K>>(dst: Seq<V>, src: Seq<V>) -> Option<Seq<V>> {
    fill_from(dst, src, 0)
}

/// Migration never changes the destination's capacity.
pub proof fn lemma_fill_len<K: Key, V: Val<K>>(dst: Seq<V>, src: Seq<V>, j: int)
    requires
        fill_from(dst, src, j) is Some,
    ensures
        fill_from(dst, src, j)->Some_0.len() == dst.len(),
    decreases src.len() - j,
{
    if 0 <= j < src.len() && !src[j].spec_key().spec_unused() {
        let p = find_slot(dst, src[j].spec_key())->Some_0;
        lemma_find_slot_in_range(dst, src[j].spec_key());
        lemma_fill_len(dst.update(p, src[j]), src, j + 1);
    } else if 0 <= j < src.len() {
        lemma_fill_len(dst, src, j + 1);
    }
}

/// A live value already filed at its resolved slot stays there, untouched,
/// while migration copies entries whose keys all differ from its own.
pub proof fn lemma_fill_keeps_present<K: Key, V: Val<K>>(
    dst: Seq<V>,
    src: Seq<V>,
    j: int,
    out: Seq<V>,
    v: V,
    p: int,
)
    requires
        0 <= j <= src.len(),
        fill_from(dst, src, j) == Some(out),
        find_slot(dst, v.spec_key()) == Some(p),
        0 <= p < dst.len(),
        dst[p] == v,
        !v.spec_key().spec_unused(),
        forall|l: int|
            j <= l < src.len() && !(#[trigger] src[l].spec_key()).spec_unused() ==> src[l].spec_key()
                != v.spec_key(),
    ensures
        find_slot(out, v.spec_key()) == Some(p),
        out.len() == dst.len(),
        out[p] == v,
    decreases src.len() - j,
{
    lemma_fill_len(dst, src, j);
    if 0 <= j < src.len() {
        if src[j].spec_key().spec_unused() {
            lemma_fill_keeps_present(dst, src, j + 1, out, v, p);
        } else {
            let k2 = src[j].spec_key();
            let q = find_slot(dst, k2)->Some_0;
            lemma_find_slot_in_range(dst, k2);
            lemma_insert_preserves_other(dst, v.spec_key(), p, k2, src[j], q);
            lemma_fill_keeps_present(dst.update(q, src[j]), src, j + 1, out, v, p);
        }
    }
}

/// Every live entry that migration copies — here, the last entry of its
/// key — is afterwards filed at the slot its probe resolves to, holding the
/// migrated value.
pub proof fn lemma_fill_inserts<K: Key, V: Val<K>>(
    dst: Seq<V>,
    src: Seq<V>,
    j: int,
    out: Seq<V>,
    w: int,
)
    requires
        0 <= j <= w < src.len(),
        fill_from(dst, src, j) == Some(out),
        !src[w].spec_key().spec_unused(),
        forall|l: int|
            w < l < src.len() && !(#[trigger] src[l].spec_key()).spec_unused() ==> src[l].spec_key()
                != src[w].spec_key(),
    ensures
        find_slot(out, src[w].spec_key()) is Some,
        0 <= find_slot(out, src[w].spec_key())->Some_0 < out.len(),
        out[find_slot(out, src[w].spec_key())->Some_0] == src[w],
    decreases w - j,
{
    lemma_fill_len(dst, src, j);
    if src[j].spec_key().spec_unused() {
        if j == w {
            assert(false);
        } else {
            lemma_fill_inserts(dst, src, j + 1, out, w);
        }
    } else {
        let k2 = src[j].spec_key();
        let q = find_slot(dst, k2)->Some_0;
        lemma_find_slot_in_range(dst, k2);
        let d2 = dst.update(q, src[j]);
        if j == w {
            lemma_insert_stable(dst, k2, src[j], q);
            lemma_fill_keeps_present(d2, src, j + 1, out, src[j], q);
        } else {
            lemma_fill_inserts(d2, src, j + 1, out, w);
        }
    }
}

/// The well-formedness invariant of an open-addressing table: every
/// occupied slot is exactly where its own key resolves. Distinctness of
/// live keys and the stability of every lookup follow from it.
pub open spec fn table_wf<K: Key, V: Val<K>>(tbl: Seq<V>) -> bool {
    forall|p: int|
        0 <= p < tbl.len() && !(#[trigger] tbl[p].spec_key()).spec_unused() ==> find_slot(
            tbl,
            tbl[p].spec_key(),
        ) == Some(p)
}

/// In a well-formed table no two slots hold the same live key.
pub proof fn lemma_wf_distinct<K: Key, V: Val<K>>(tbl: Seq<V>, p: int, q: int)
    requires
        table_wf(tbl),
        0 <= p < tbl.len(),
        0 <= q < tbl.len(),
        p != q,
        !tbl[p].spec_key().spec_unused(),
        !tbl[q].spec_key().spec_unused(),
    ensures
        tbl[p].spec_key() != tbl[q].spec_key(),
{
}

/// Inserting a live value at the slot its key resolves to keeps the table
/// well-formed.
pub proof fn lemma_insert_wf<K: Key, V: Val<K>>(tbl: Seq<V>, v: V, p: int)
    requires
        table_wf(tbl),
        find_slot(tbl, v.spec_key()) == Some(p),
        !v.spec_key().spec_unused(),
    ensures
        table_wf(tbl.update(p, v)),
{
    let k = v.spec_key();
    lemma_find_slot_in_range(tbl, k);
    let t2 = tbl.update(p, v);
    lemma_insert_stable(tbl, k, v, p);
    assert forall|q: int|
        0 <= q < t2.len() && !(#[trigger] t2[q].spec_key()).spec_unused() implies find_slot(
        t2,
        t2[q].spec_key(),
    ) == Some(q) by {
        if q != p {
            let k1 = tbl[q].spec_key();
            if k1 == k {
                // Two live slots resolving the same key would both be its
                // resolved slot.
                assert(find_slot(tbl, k1) == Some(q));
                assert(false);
            }
            lemma_insert_preserves_other(tbl, k1, q, k, v, p);
        }
    }
}

/// Migration into a well-formed table keeps it well-formed.
pub proof fn lemma_fill_wf<K: Key, V: Val<K>>(dst: Seq<V>, src: Seq<V>, j: int, out: Seq<V>)
    requires
        0 <= j <= src.len(),
        fill_from(dst, src, j) == Some(out),
        table_wf(dst),
    ensures
        table_wf(out),
    decreases src.len() - j,
{
    if 0 <= j < src.len() {
        if src[j].spec_key().spec_unused() {
            lemma_fill_wf(dst, src, j + 1, out);
        } else {
            let k2 = src[j].spec_key();
            let q = find_slot(dst, k2)->Some_0;
            lemma_find_slot_in_range(dst, k2);
            lemma_insert_wf(dst, src[j], q);
            lemma_fill_wf(dst.update(q, src[j]), src, j + 1, out);
        }
    }
}

/// How many of the slots `tbl[j..]` are occupied by a live key.
pub open spec fn count_occupied_from<K: Key, V: Val<K>>(tbl: Seq<V>, j: int) -> nat
    decreases tbl.len() - j,
{
    if !(0 <= j < tbl.len()) {
        0
    } else {
        (if tbl[j].spec_key().spec_unused() {
            0nat
        } else {
            1nat
        }) + count_occupied_from(tbl, j + 1)
    }
}

/// How many slots of the table are occupied by a live key.
pub open spec fn count_occupied<K: Key, V: Val<K>>(tbl: Seq<V>) -> nat {
    count_occupied_from(tbl, 0)
}

/// What one value contributes to the occupied count.
pub open spec fn live_one<K: Key, V: Val<K>>(v: V) -> nat {
    if v.spec_key().spec_unused() {
        0
    } else {
        1
    }
}

/// Writing one slot changes the occupied count by the difference the slot
/// itself contributes.
pub proof fn lemma_count_occupied_update<K: Key, V: Val<K>>(tbl: Seq<V>, j: int, p: int, v: V)
    requires
        0 <= j <= tbl.len(),
        0 <= p < tbl.len(),
    ensures
        p < j ==> count_occupied_from(tbl.update(p, v), j) == count_occupied_from(tbl, j),
        j <= p ==> count_occupied_from(tbl.update(p, v), j) + live_one(tbl[p])
            == count_occupied_from(tbl, j) + live_one(v),
    decreases tbl.len() - j,
{
    if j < tbl.len() {
        lemma_count_occupied_update(tbl, j + 1, p, v);
    }
}

/// No more slots are occupied than exist.
pub proof fn lemma_count_occupied_bound<K: Key, V: Val<K>>(tbl: Seq<V>, j: int)
    requires
        0 <= j <= tbl.len(),
    ensures
        count_occupied_from(tbl, j) <= tbl.len() - j,
    decreases tbl.len() - j,
{
    if j < tbl.len() {
        lemma_count_occupied_bound(tbl, j + 1);
    }
}

/// Whether no two entries of `src` carry the same live key.
pub open spec fn distinct_live_keys<K: Key, V: Val<K>>(src: Seq<V>) -> bool {
    forall|l1: int, l2: int|
        0 <= l1 < l2 < src.len() && !(#[trigger] src[l1].spec_key()).spec_unused() && !(
        #[trigger] src[l2].spec_key()).spec_unused() ==> src[l1].spec_key() != src[l2].spec_key()
}

/// Whether every live key of `dst` is the key of one of the entries
/// `src[..j]`: nothing lives in the destination but what migration put
/// there.
pub open spec fn keys_from_prefix<K: Key, V: Val<K>>(dst: Seq<V>, src: Seq<V>, j: int) -> bool {
    forall|q: int|
        0 <= q < dst.len() && !(#[trigger] dst[q].spec_key()).spec_unused() ==> exists|l: int|
            0 <= l < j && dst[q].spec_key() == src[l].spec_key()
}

/// Migrating entries with distinct live keys into a table that has room
/// for all of them — counting what it already holds of them — succeeds,
/// and afterwards the destination holds exactly the old and new live
/// entries together.
pub proof fn lemma_fill_fresh<K: Key, V: Val<K>>(dst: Seq<V>, src: Seq<V>, j: int)
    requires
        0 <= j <= src.len(),
        distinct_live_keys(src),
        keys_from_prefix(dst, src, j),
        count_occupied(dst) + count_occupied_from(src, j) <= dst.len(),
    ensures
        fill_from(dst, src, j) is Some,
        count_occupied(fill_from(dst, src, j)->Some_0) == count_occupied(dst)
            + count_occupied_from(src, j),
        keys_from_prefix(fill_from(dst, src, j)->Some_0, src, src.len() as int),
    decreases src.len() - j,
{
    if 0 <= j < src.len() {
        if src[j].spec_key().spec_unused() {
            lemma_fill_fresh(dst, src, j + 1);
        } else {
            let k2 = src[j].spec_key();
            lemma_count_occupied_bound(dst, 0);
            lemma_count_occupied_room(dst, 0);
            let s = choose|s: int|
                0 <= s < dst.len() && (#[trigger] dst[s].spec_key()).spec_unused();
            lemma_find_succeeds(dst, k2, s);
            let q = find_slot(dst, k2)->Some_0;
            lemma_find_slot_in_range(dst, k2);
            // The chosen slot cannot already hold `k2`: the destination
            // holds only keys of earlier entries, and live keys are
            // distinct, so the slot is empty.
            assert(dst[q].spec_key().spec_unused()) by {
                if !dst[q].spec_key().spec_unused() {
                    let l = choose|l: int| 0 <= l < j && dst[q].spec_key() == src[l].spec_key();
                    assert(!src[l].spec_key().spec_unused());
                    assert(src[l].spec_key() != src[j].spec_key());
                }
            }
            let d2 = dst.update(q, src[j]);
            lemma_count_occupied_update(dst, 0, q, src[j]);
            assert(keys_from_prefix(d2, src, j + 1)) by {
                assert forall|qq: int|
                    0 <= qq < d2.len() && !(#[trigger] d2[qq].spec_key()).spec_unused() implies exists|l: int|
                    0 <= l < j + 1 && d2[qq].spec_key() == src[l].spec_key() by {
                    if qq == q {
                        assert(0 <= j < j + 1 && d2[qq].spec_key() == src[j].spec_key());
                    } else {
                        let l = choose|l: int| 0 <= l < j && dst[qq].spec_key() == src[l].spec_key();
                        assert(0 <= l < j + 1 && d2[qq].spec_key() == src[l].spec_key());
                    }
                }
            }
            lemma_fill_fresh(d2, src, j + 1);
        }
    }
}

/// A table with fewer live keys than slots has an empty slot.
pub proof fn lemma_count_occupied_room<K: Key, V: Val<K>>(tbl: Seq<V>, j: int)
    requires
        0 <= j <= tbl.len(),
        count_occupied_from(tbl, j) < tbl.len() - j,
    ensures
        exists|s: int| j <= s < tbl.len() && (#[trigger] tbl[s].spec_key()).spec_unused(),
    decreases tbl.len() - j,
{
    if tbl[j].spec_key().spec_unused() {
    } else {
        lemma_count_occupied_room(tbl, j + 1);
    }
}

/// A table of empty slots holds no live key.
pub proof fn lemma_count_occupied_zero<K: Key, V: Val<K>>(tbl: Seq<V>, j: int)
    requires
        0 <= j <= tbl.len(),
        forall|p: int| 0 <= p < tbl.len() ==> (#[trigger] tbl[p].spec_key()).spec_unused(),
    ensures
        count_occupied_from(tbl, j) == 0,
    decreases tbl.len() - j,
{
    if j < tbl.len() {
        lemma_count_occupied_zero(tbl, j + 1);
    }
}

/// Migration invents nothing: every slot of the destination afterwards
/// holds what it held before, or one of the migrated entries.
pub proof fn lemma_fill_values_from<K: Key, V: Val<K>>(dst: Seq<V>, src: Seq<V>, j: int, out: Seq<
    V,
>)
    requires
        0 <= j <= src.len(),
        fill_from(dst, src, j) == Some(out),
    ensures
        forall|q: int|
            0 <= q < out.len() ==> #[trigger] out[q] == dst[q] || exists|l: int|
                j <= l < src.len() && out[q] == src[l],
    decreases src.len() - j,
{
    lemma_fill_len(dst, src, j);
    if 0 <= j < src.len() {
        if src[j].spec_key().spec_unused() {
            lemma_fill_values_from(dst, src, j + 1, out);
            assert forall|q: int| 0 <= q < out.len() implies #[trigger] out[q] == dst[q] || exists|
                l: int,
            | j <= l < src.len() && out[q] == src[l] by {
                if out[q] != dst[q] {
                    let l = choose|l: int| j + 1 <= l < src.len() && out[q] == src[l];
                    assert(j <= l < src.len() && out[q] == src[l]);
                }
            }
        } else {
            let k2 = src[j].spec_key();
            let p = find_slot(dst, k2)->Some_0;
            lemma_find_slot_in_range(dst, k2);
            let d2 = dst.update(p, src[j]);
            lemma_fill_values_from(d2, src, j + 1, out);
            assert forall|q: int| 0 <= q < out.len() implies #[trigger] out[q] == dst[q] || exists|
                l: int,
            | j <= l < src.len() && out[q] == src[l] by {
                if out[q] != dst[q] {
                    if out[q] == d2[q] {
                        assert(q == p && out[q] == src[j]);
                    } else {
                        let l = choose|l: int| j + 1 <= l < src.len() && out[q] == src[l];
                        assert(j <= l < src.len() && out[q] == src[l]);
                    }
                }
            }
        }
    }
}

/// The simplest key: an integer that starts its probe at its own value,
/// with zero as the empty-slot sentinel. Small integer-keyed indexes use
/// the table through it.
impl Key for usize {
    open spec fn spec_start(&self) -> usize {
        *self
    }

    open spec fn spec_unused(&self) -> bool {
        *self == 0
    }

    fn start(&self) -> usize {
        *self
    }

    fn unused(&self) -> bool {
        *self == 0
    }

    fn key_eq(&self, other: &Self) -> bool {
        *self == *other
    }
}

/// An integer as its own record: the value is the key.
impl Val<usize> for usize {
    open spec fn spec_key(&self) -> usize {
        *self
    }

    fn key(&self) -> &usize {
        self
    }

    fn clone_val(&self) -> usize {
        *self
    }
}

/// The open-addressing probe and migration logic, generic over the key and
/// value contract.
pub struct HashT<K: Key, V: Val<K>> {
    _key: core::marker::PhantomData<K>,
    _val: core::marker::PhantomData<V>,
}

impl<K: Key, V: Val<K>> HashT<K, V> {
    /// Scan forward from the key's starting slot, wrapping, through every
    /// slot; return the first slot that is empty or already bound to `key`,
    /// or `NoSpace` when the whole table is occupied by other keys.
    pub fn find(tbl: &Vec<V>, key: &K) -> (r: Result<usize, Error>)
        ensures
            match r {
                Ok(p) => {
                    &&& find_slot(tbl@, *key) == Some(p as int)
                    &&& 0 <= (p as int) < tbl@.len()
                    &&& (tbl@[p as int].spec_key().spec_unused() || tbl@[p as int].spec_key()
                        == *key)
                },
                Err(e) => e == Error::NoSpace && find_slot(tbl@, *key) is None,
            },
    {
        let n = tbl.len();
        if n == 0 {
            return Err(Error::NoSpace);
        }
        let st = key.start();
        let base = st % n;
        proof {
            lemma_mod_bound(st as int, n as int);
        }
        let d = n - base;
        let mut i: usize = 0;
        while i < n
            invariant
                0 < n == tbl@.len(),
                st == key.spec_start(),
                base == (st as int) % (n as int),
                0 <= base < n,
                d == n - base,
                0 <= i <= n,
                forall|j: int| 0 <= j < i ==> !probe_hit(tbl@, *key, j),
            decreases n - i,
        {
            let pos = if i < d {
                base + i
            } else {
                i - d
            };
            assert(pos as int == slot_ix(st, i as int, n as int));
            let occ = tbl[pos].key();
            if occ.unused() || occ.key_eq(key) {
                proof {
                    assert(probe_hit(tbl@, *key, i as int));
                    lemma_first_hit_is(tbl@, *key, 0, i as int);
                }
                return Ok(pos);
            }
            proof {
                assert(!probe_hit(tbl@, *key, i as int));
            }
            i = i + 1;
        }
        proof {
            lemma_first_hit_from(tbl@, *key, 0);
            if first_hit_from(tbl@, *key, 0) is Some {
                let j = first_hit_from(tbl@, *key, 0)->Some_0;
                assert(!probe_hit(tbl@, *key, j));
            }
        }
        Err(Error::NoSpace)
    }

    /// Copy every live entry of `src`, in order, into the slot `find`
    /// chooses for it in `dst`; `NoSpace` when some entry no longer fits,
    /// in which case the destination must be discarded.
    pub fn migrate(src: &Vec<V>, dst: &mut Vec<V>) -> (r: Result<(), Error>)
        ensures
            match r {
                Ok(()) => fill_spec(old(dst)@, src@) == Some(final(dst)@),
                Err(e) => e == Error::NoSpace && fill_spec(old(dst)@, src@) is None,
            },
            final(dst)@.len() == old(dst)@.len(),
    {
        let ghost dst0 = dst@;
        let mut j: usize = 0;
        while j < src.len()
            invariant
                dst0 == old(dst)@,
                0 <= j <= src@.len(),
                dst@.len() == dst0.len(),
                fill_from(dst0, src@, 0) == fill_from(dst@, src@, j as int),
            decreases src@.len() - j,
        {
            let v = &src[j];
            let k = v.key();
            if !k.unused() {
                match Self::find(dst, k) {
                    Ok(p) => {
                        dst.set(p, v.clone_val());
                    },
                    Err(e) => {
                        return Err(e);
                    },
                }
            }
            j = j + 1;
        }
        Ok(())
    }
}

} // verus!
