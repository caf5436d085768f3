//! The in-memory signed append-only DAG: entry store, tip set, clock,
//! identity and materialized state.

use vstd::prelude::*;
use vstd::set_lib::lemma_len_subset;
use crate::clock::{HybridClock, tick_value};
use crate::entry::{
    DagEntry, DagEntryV, DagError, hash_ok, signature_ok, content_hash, entry_signature,
    copy_hashes,
};
use crate::primitives::{ed25519_public, ed25519_signature};
use crate::state::{MaterializedState, StateV, apply_action, empty_state};
use crate::types::{Action, ActionV, DeviceId, bytes32_eq};
use crate::topo::{
    list_contains, topological_sort, topo_ordered, ranked, views, batch_of, lemma_topo_complete,
    lemma_batch_of, lemma_batch_of_distinct, roots_first,
};

verus! {

/// An in-memory signed append-only DAG. It owns the entries, the tips
/// (entries no other entry names as a parent), the clock and the device
/// identity; the platform persists entries and feeds them back through
/// [`Dag::load_entry`].
pub struct Dag {
    entries: Vec<DagEntry>,
    tips: Vec<[u8; 32]>,
    clock: HybridClock,
    device_id: DeviceId,
    signing_key: [u8; 32],
    state: MaterializedState,
}

/// The mathematical value of a [`Dag`].
pub struct DagV {
    /// Entries in the order they were stored; no hash occurs twice.
    pub entries: Seq<DagEntryV>,
    /// Tip hashes; no hash occurs twice, each is a stored entry's.
    pub tips: Seq<[u8; 32]>,
    pub clock: u64,
    pub device_id: DeviceId,
    pub signing_key: [u8; 32],
    pub state: StateV,
}

impl View for Dag {
    type V = DagV;

    closed spec fn view(&self) -> DagV {
        DagV {
            entries: self.entries@.map_values(|e: DagEntry| e@),
            tips: self.tips@,
            clock: self.clock@,
            device_id: self.device_id,
            signing_key: self.signing_key,
            state: self.state@,
        }
    }
}

/// Whether an entry with hash `h` is in `s`.
pub open spec fn contains_hash(s: Seq<DagEntryV>, h: [u8; 32]) -> bool {
    exists|i: int| 0 <= i < s.len() && s[i].hash == h
}

/// The position of the entry with hash `h` in `s`.
pub open spec fn hash_pos(s: Seq<DagEntryV>, h: [u8; 32]) -> int {
    choose|i: int| 0 <= i < s.len() && s[i].hash == h
}

/// No hash occurs twice among the entries.
pub open spec fn distinct_hashes(s: Seq<DagEntryV>) -> bool {
    forall|i: int, j: int| 0 <= i < j < s.len() ==> s[i].hash != s[j].hash
}

/// No element occurs twice.
pub open spec fn distinct32(s: Seq<[u8; 32]>) -> bool {
    forall|i: int, j: int| 0 <= i < j < s.len() ==> s[i] != s[j]
}

/// Whether some entry of `s` names `h` as a parent.
pub open spec fn is_referenced(s: Seq<DagEntryV>, h: [u8; 32]) -> bool {
    exists|i: int, j: int| 0 <= i < s.len() && 0 <= j < s[i].parents.len() && s[i].parents[j] == h
}

/// The hashes of the entries of `s`, in order, that no entry of `all` names
/// as a parent.
pub open spec fn unreferenced(s: Seq<DagEntryV>, all: Seq<DagEntryV>) -> Seq<[u8; 32]>
    decreases s.len(),
{
    if s.len() == 0 {
        Seq::empty()
    } else if is_referenced(all, s.last().hash) {
        unreferenced(s.drop_last(), all)
    } else {
        unreferenced(s.drop_last(), all).push(s.last().hash)
    }
}

/// The elements of `t`, in order, that `p` does not contain.
pub open spec fn without(t: Seq<[u8; 32]>, p: Seq<[u8; 32]>) -> Seq<[u8; 32]>
    decreases t.len(),
{
    if t.len() == 0 {
        Seq::empty()
    } else if p.contains(t.last()) {
        without(t.drop_last(), p)
    } else {
        without(t.drop_last(), p).push(t.last())
    }
}

/// The hashes of `p`, in order and with repeats, that are not stored in `s`.
pub open spec fn missing_from(s: Seq<DagEntryV>, p: Seq<[u8; 32]>) -> Seq<[u8; 32]>
    decreases p.len(),
{
    if p.len() == 0 {
        Seq::empty()
    } else if contains_hash(s, p.last()) {
        missing_from(s, p.drop_last())
    } else {
        missing_from(s, p.drop_last()).push(p.last())
    }
}

/// `s` with `e` stored: replacing the entry with the same hash, or appended.
pub open spec fn store(s: Seq<DagEntryV>, e: DagEntryV) -> Seq<DagEntryV> {
    if contains_hash(s, e.hash) {
        s.update(hash_pos(s, e.hash), e)
    } else {
        s.push(e)
    }
}

/// The clock after witnessing `t`.
pub open spec fn witnessed(clock: u64, t: u64) -> u64 {
    if t > clock {
        t
    } else {
        clock
    }
}

impl DagV {
    pub open spec fn wf(self) -> bool {
        &&& distinct_hashes(self.entries)
        &&& distinct32(self.tips)
        &&& forall|i: int| 0 <= i < self.tips.len() ==> contains_hash(self.entries, self.tips[i])
        &&& self.state.wf()
        &&& forall|i: int| 0 <= i < self.entries.len() ==> #[trigger] self.entries[i].hlc <= self.clock
    }

    pub open spec fn with_tips(self, tips: Seq<[u8; 32]>) -> DagV {
        DagV { tips, ..self }
    }

    pub open spec fn with_entries(self, entries: Seq<DagEntryV>) -> DagV {
        DagV { entries, ..self }
    }

    pub open spec fn has_entry(self, h: [u8; 32]) -> bool {
        contains_hash(self.entries, h)
    }

    /// The stored entries, in store order, whose hash is not reached from
    /// `remote` through parent links.
    pub open spec fn unknown(self, remote: Seq<[u8; 32]>) -> Seq<DagEntryV> {
        unknown_to(self.entries, self.entries, remote)
    }

    /// The DAG after a verified entry whose parents are all stored, and
    /// whose hash is not, is received.
    pub open spec fn received(self, e: DagEntryV) -> DagV {
        DagV {
            entries: self.entries.push(e),
            tips: without(self.tips, e.parents).push(e.hash),
            clock: witnessed(self.clock, e.hlc),
            state: apply_action(self.state, e.hlc, e.device_id, e.action),
            ..self
        }
    }

    /// The DAG after a verified entry with all parents stored is received:
    /// unchanged when its hash is already stored.
    pub open spec fn received_if_new(self, e: DagEntryV) -> DagV {
        if self.has_entry(e.hash) {
            self
        } else {
            self.received(e)
        }
    }

    /// The DAG after a verified entry is loaded from storage.
    pub open spec fn loaded(self, e: DagEntryV) -> DagV {
        let entries = store(self.entries, e);
        DagV {
            entries,
            tips: unreferenced(entries, entries),
            clock: witnessed(self.clock, e.hlc),
            state: apply_action(self.state, e.hlc, e.device_id, e.action),
            ..self
        }
    }

    /// The DAG after the entry `e`, which this device made at `e.hlc`, is
    /// appended.
    pub open spec fn appended(self, e: DagEntryV) -> DagV {
        DagV {
            entries: store(self.entries, e),
            tips: seq![e.hash],
            clock: e.hlc,
            state: apply_action(self.state, e.hlc, e.device_id, e.action),
            ..self
        }
    }

    /// The entry this device signs for `action` at clock value `hlc`, with
    /// the current tips as parents.
    pub open spec fn made_entry(self, hlc: u64, action: ActionV, e: DagEntryV) -> bool {
        &&& e.hlc == hlc
        &&& e.device_id == self.device_id
        &&& e.action == action
        &&& e.parents == self.tips
        &&& e.hash@ == content_hash(hlc, self.device_id, action, self.tips)
        &&& entry_signature(e) == ed25519_signature(self.signing_key@, e.hash@)
    }
}

pub proof fn lemma_push_contains(s: Seq<[u8; 32]>, a: [u8; 32], x: [u8; 32])
    ensures
        s.push(a).contains(x) <==> (s.contains(x) || x == a),
{
    if s.contains(x) {
        let i = choose|i: int| 0 <= i < s.len() && s[i] == x;
        assert(s.push(a)[i] == x);
    }
    if x == a {
        assert(s.push(a)[s.len() as int] == x);
    }
    if s.push(a).contains(x) {
        let i = choose|i: int| 0 <= i < s.push(a).len() && s.push(a)[i] == x;
        if i < s.len() {
            assert(s[i] == x);
        }
    }
}

pub proof fn lemma_unreferenced(s: Seq<DagEntryV>, all: Seq<DagEntryV>)
    requires
        distinct_hashes(s),
    ensures
        distinct32(unreferenced(s, all)),
        forall|x: [u8; 32]|
            unreferenced(s, all).contains(x) <==> (contains_hash(s, x) && !is_referenced(all, x)),
    decreases s.len(),
{
    if s.len() > 0 {
        let r = s.drop_last();
        assert(distinct_hashes(r));
        lemma_unreferenced(r, all);
        assert forall|x: [u8; 32]| contains_hash(s, x) <==> (contains_hash(r, x) || s.last().hash == x) by {
            if contains_hash(s, x) {
                let i = choose|i: int| 0 <= i < s.len() && s[i].hash == x;
                if i < s.len() - 1 {
                    assert(r[i].hash == x);
                }
            }
            if contains_hash(r, x) {
                let i = choose|i: int| 0 <= i < r.len() && r[i].hash == x;
                assert(s[i].hash == x);
            }
        }
        assert forall|x: [u8; 32]|
            unreferenced(s, all).contains(x) <==> (contains_hash(s, x) && !is_referenced(all, x)) by {
            if !is_referenced(all, s.last().hash) {
                lemma_push_contains(unreferenced(r, all), s.last().hash, x);
            }
        }
        if !is_referenced(all, s.last().hash) {
            assert(!unreferenced(r, all).contains(s.last().hash)) by {
                if contains_hash(r, s.last().hash) {
                    let i = choose|i: int| 0 <= i < r.len() && r[i].hash == s.last().hash;
                    assert(s[i].hash == s[s.len() - 1].hash);
                }
            }
        }
    }
}

pub proof fn lemma_without(t: Seq<[u8; 32]>, p: Seq<[u8; 32]>)
    requires
        distinct32(t),
    ensures
        distinct32(without(t, p)),
        forall|x: [u8; 32]| without(t, p).contains(x) <==> (t.contains(x) && !p.contains(x)),
    decreases t.len(),
{
    if t.len() > 0 {
        let r = t.drop_last();
        lemma_without(r, p);
        assert forall|x: [u8; 32]| t.contains(x) <==> (r.contains(x) || t.last() == x) by {
            if t.contains(x) {
                let i = choose|i: int| 0 <= i < t.len() && t[i] == x;
                if i < t.len() - 1 {
                    assert(r[i] == x);
                }
            }
            if r.contains(x) {
                let i = choose|i: int| 0 <= i < r.len() && r[i] == x;
                assert(t[i] == x);
            }
        }
        assert forall|x: [u8; 32]| without(t, p).contains(x) <==> (t.contains(x) && !p.contains(x)) by {
            if !p.contains(t.last()) {
                lemma_push_contains(without(r, p), t.last(), x);
            }
        }
        if !p.contains(t.last()) {
            assert(!without(r, p).contains(t.last())) by {
                if r.contains(t.last()) {
                    let i = choose|i: int| 0 <= i < r.len() && r[i] == t.last();
                    assert(t[i] == t[t.len() - 1]);
                }
            }
        }
    }
}

pub proof fn lemma_store(s: Seq<DagEntryV>, e: DagEntryV)
    requires
        distinct_hashes(s),
    ensures
        distinct_hashes(store(s, e)),
        forall|x: [u8; 32]| contains_hash(store(s, e), x) <==> (contains_hash(s, x) || x == e.hash),
{
    let r = store(s, e);
    if contains_hash(s, e.hash) {
        let k = hash_pos(s, e.hash);
        assert forall|x: [u8; 32]| contains_hash(r, x) <==> (contains_hash(s, x) || x == e.hash) by {
            if contains_hash(s, x) {
                let i = choose|i: int| 0 <= i < s.len() && s[i].hash == x;
                assert(r[i].hash == x);
            }
            if x == e.hash {
                assert(r[k].hash == x);
            }
            if contains_hash(r, x) {
                let i = choose|i: int| 0 <= i < r.len() && r[i].hash == x;
                assert(s[i].hash == x || i == k);
            }
        }
    } else {
        assert forall|x: [u8; 32]| contains_hash(r, x) <==> (contains_hash(s, x) || x == e.hash) by {
            if contains_hash(s, x) {
                let i = choose|i: int| 0 <= i < s.len() && s[i].hash == x;
                assert(r[i].hash == x);
            }
            if x == e.hash {
                assert(r[s.len() as int].hash == x);
            }
            if contains_hash(r, x) {
                let i = choose|i: int| 0 <= i < r.len() && r[i].hash == x;
                if i < s.len() {
                    assert(s[i].hash == x);
                }
            }
        }
        assert forall|i: int, j: int| 0 <= i < j < r.len() implies r[i].hash != r[j].hash by {
            if j == s.len() {
                assert(s[i].hash == r[i].hash);
            }
        }
    }
}

/// `p` is a walk from a hash of `start` along the parent links of the
/// stored entries `s`: each step leaves a stored entry for one of its
/// parents.
pub open spec fn is_walk(s: Seq<DagEntryV>, start: Seq<[u8; 32]>, p: Seq<[u8; 32]>) -> bool {
    &&& p.len() > 0
    &&& start.contains(p[0])
    &&& forall|k: int|
        0 <= k < p.len() - 1 ==> contains_hash(s, #[trigger] p[k]) && s[hash_pos(s, p[k])].parents.contains(
            p[k + 1],
        )
}

/// `h` is reached from `start` by following parent links through the
/// stored entries `s` (a hash of `start` is reached even when not stored).
pub open spec fn reachable(s: Seq<DagEntryV>, start: Seq<[u8; 32]>, h: [u8; 32]) -> bool {
    exists|p: Seq<[u8; 32]>| #[trigger] is_walk(s, start, p) && p.last() == h
}

/// Every parent hash named by the entries of `s`, in order.
pub open spec fn all_parents(s: Seq<DagEntryV>) -> Seq<[u8; 32]>
    decreases s.len(),
{
    if s.len() == 0 {
        Seq::empty()
    } else {
        all_parents(s.drop_last()) + s.last().parents
    }
}

proof fn lemma_all_parents(s: Seq<DagEntryV>, i: int, j: int)
    requires
        0 <= i < s.len(),
        0 <= j < s[i].parents.len(),
    ensures
        all_parents(s).contains(s[i].parents[j]),
    decreases s.len(),
{
    let r = all_parents(s.drop_last());
    let ps = s.last().parents;
    if i < s.len() - 1 {
        lemma_all_parents(s.drop_last(), i, j);
        let k = choose|k: int| 0 <= k < r.len() && r[k] == s[i].parents[j];
        assert((r + ps)[k] == r[k]);
    } else {
        assert((r + ps)[r.len() + j] == ps[j]);
    }
}

/// A sequence without repeats drawn from `u` is no longer than `u`.
proof fn lemma_distinct_within(v: Seq<[u8; 32]>, u: Seq<[u8; 32]>)
    requires
        distinct32(v),
        forall|x: [u8; 32]| v.contains(x) ==> u.contains(x),
    ensures
        v.len() <= u.len(),
{
    broadcast use vstd::seq_lib::seq_to_set_is_finite;
    assert(v.no_duplicates()) by {
        assert forall|i: int, j: int| 0 <= i < v.len() && 0 <= j < v.len() && i != j implies v[i] != v[j] by {
            if i < j {
                assert(v[i] != v[j]);
            } else {
                assert(v[j] != v[i]);
            }
        }
    }
    v.unique_seq_to_set();
    u.lemma_cardinality_of_set();
    assert(v.to_set().subset_of(u.to_set()));
    lemma_len_subset(v.to_set(), u.to_set());
}

/// A set holding `start` and, with each stored entry, its parents holds
/// everything reachable from `start`.
proof fn lemma_walk_closed(s: Seq<DagEntryV>, start: Seq<[u8; 32]>, v: Seq<[u8; 32]>, p: Seq<[u8; 32]>)
    requires
        is_walk(s, start, p),
        forall|x: [u8; 32]| start.contains(x) ==> v.contains(x),
        forall|x: [u8; 32], y: [u8; 32]|
            v.contains(x) && contains_hash(s, x) && #[trigger] s[hash_pos(s, x)].parents.contains(y)
                ==> v.contains(y),
    ensures
        v.contains(p.last()),
    decreases p.len(),
{
    if p.len() > 1 {
        let q = p.drop_last();
        assert(is_walk(s, start, q)) by {
            assert forall|k: int| 0 <= k < q.len() - 1 implies contains_hash(s, #[trigger] q[k])
                && s[hash_pos(s, q[k])].parents.contains(q[k + 1]) by {
                assert(q[k] == p[k] && q[k + 1] == p[k + 1]);
            }
        }
        lemma_walk_closed(s, start, v, q);
        let k = p.len() - 2;
        assert(contains_hash(s, p[k]) && s[hash_pos(s, p[k])].parents.contains(p[k + 1]));
    }
}

/// Extending a walk to a hash of `start` or to a parent of its last
/// (stored) entry gives a walk.
proof fn lemma_walk_step(s: Seq<DagEntryV>, start: Seq<[u8; 32]>, x: [u8; 32], i: int, j: int)
    requires
        reachable(s, start, x),
        distinct_hashes(s),
        0 <= i < s.len(),
        s[i].hash == x,
        0 <= j < s[i].parents.len(),
    ensures
        reachable(s, start, s[i].parents[j]),
{
    let p = choose|p: Seq<[u8; 32]>| #[trigger] is_walk(s, start, p) && p.last() == x;
    let y = s[i].parents[j];
    let w = p.push(y);
    assert(hash_pos(s, x) == i) by {
        let k = hash_pos(s, x);
        assert(s[k].hash == x);
        if k < i {
            assert(s[k].hash != s[i].hash);
        } else if k > i {
            assert(s[i].hash != s[k].hash);
        }
    }
    assert(s[i].parents[j] == y);
    assert(is_walk(s, start, w)) by {
        assert(w[0] == p[0]);
        assert forall|k: int| 0 <= k < w.len() - 1 implies contains_hash(s, #[trigger] w[k])
            && s[hash_pos(s, w[k])].parents.contains(w[k + 1]) by {
            if k < p.len() - 1 {
                assert(w[k] == p[k] && w[k + 1] == p[k + 1]);
            } else {
                assert(w[k] == x);
                assert(w[k + 1] == y);
            }
        }
    }
    assert(w.last() == y);
}

proof fn lemma_start_reachable(s: Seq<DagEntryV>, start: Seq<[u8; 32]>, k: int)
    requires
        0 <= k < start.len(),
    ensures
        reachable(s, start, start[k]),
{
    let w = seq![start[k]];
    assert(is_walk(s, start, w));
    assert(w.last() == start[k]);
}

/// The entries of `s`, in order, whose hash is not reached from `remote`
/// through the entries of `all`.
pub open spec fn unknown_to(s: Seq<DagEntryV>, all: Seq<DagEntryV>, remote: Seq<[u8; 32]>) -> Seq<DagEntryV>
    decreases s.len(),
{
    if s.len() == 0 {
        Seq::empty()
    } else if reachable(all, remote, s.last().hash) {
        unknown_to(s.drop_last(), all, remote)
    } else {
        unknown_to(s.drop_last(), all, remote).push(s.last())
    }
}

pub proof fn lemma_unknown_to(s: Seq<DagEntryV>, all: Seq<DagEntryV>, remote: Seq<[u8; 32]>)
    requires
        distinct_hashes(s),
    ensures
        distinct_hashes(unknown_to(s, all, remote)),
        forall|x: DagEntryV|
            unknown_to(s, all, remote).contains(x) <==> (s.contains(x) && !reachable(all, remote, x.hash)),
    decreases s.len(),
{
    if s.len() > 0 {
        let r = s.drop_last();
        let e = s.last();
        let u = unknown_to(r, all, remote);
        assert(distinct_hashes(r));
        lemma_unknown_to(r, all, remote);
        assert forall|x: DagEntryV| s.contains(x) <==> (r.contains(x) || x == e) by {
            if s.contains(x) {
                let i = choose|i: int| 0 <= i < s.len() && s[i] == x;
                if i < s.len() - 1 {
                    assert(r[i] == x);
                }
            }
            if r.contains(x) {
                let i = choose|i: int| 0 <= i < r.len() && r[i] == x;
                assert(s[i] == x);
            }
        }
        if !reachable(all, remote, e.hash) {
            assert forall|x: DagEntryV| u.push(e).contains(x) <==> (u.contains(x) || x == e) by {
                if u.contains(x) {
                    let i = choose|i: int| 0 <= i < u.len() && u[i] == x;
                    assert(u.push(e)[i] == x);
                }
                if x == e {
                    assert(u.push(e)[u.len() as int] == x);
                }
                if u.push(e).contains(x) {
                    let i = choose|i: int| 0 <= i < u.push(e).len() && u.push(e)[i] == x;
                    if i < u.len() {
                        assert(u[i] == x);
                    }
                }
            }
            assert forall|i: int, j: int| 0 <= i < j < u.push(e).len() implies u.push(e)[i].hash != u.push(
                e,
            )[j].hash by {
                if j == u.len() {
                    assert(u.contains(u[i]));
                    assert(r.contains(u[i]));
                    let m = choose|m: int| 0 <= m < r.len() && r[m] == u[i];
                    assert(s[m].hash != s[s.len() - 1].hash);
                }
            }
        }
    }
}

/// The DAG after receiving, in order, the entries of `es`.
pub open spec fn received_all(v: DagV, es: Seq<DagEntryV>) -> DagV
    decreases es.len(),
{
    if es.len() == 0 {
        v
    } else {
        received_all(v, es.drop_last()).received(es.last())
    }
}

/// Every entry of `es` verifies, and each of its parents is among `es` or
/// stored in `v`.
pub open spec fn sync_acceptable(v: DagV, es: Seq<DagEntryV>) -> bool {
    forall|k: int|
        0 <= k < es.len() ==> hash_ok(#[trigger] es[k]) && signature_ok(es[k]) && forall|j: int|
            0 <= j < es[k].parents.len() ==> contains_hash(es, #[trigger] es[k].parents[j]) || v.has_entry(
                es[k].parents[j],
            )
}

/// The entries of `s`, in order, whose hash `v` does not hold.
pub open spec fn fresh_in(v: DagV, s: Seq<DagEntryV>) -> Seq<DagEntryV>
    decreases s.len(),
{
    if s.len() == 0 {
        Seq::empty()
    } else if v.has_entry(s.last().hash) {
        fresh_in(v, s.drop_last())
    } else {
        fresh_in(v, s.drop_last()).push(s.last())
    }
}

/// `err` is what receiving `e` into `v` answers when it refuses it: a bad
/// hash first, then a bad signature, then the parents `v` lacks.
pub open spec fn refusal(v: DagV, e: DagEntryV, err: DagError) -> bool {
    match err {
        DagError::InvalidHash => !hash_ok(e),
        DagError::InvalidSignature => hash_ok(e) && !signature_ok(e),
        DagError::MissingParents(m) => hash_ok(e) && signature_ok(e) && m@ == missing_from(v.entries, e.parents)
            && m@.len() > 0,
        DagError::Deserialization(_) => false,
    }
}

/// Receiving the ordered batch `s` into `v` stopped at `s[k]`: every entry
/// of `s` before it that `v` lacked was received, `s[k]` is not stored and
/// was refused with `err`, and `vf` is the state left.
pub open spec fn stopped_at(v: DagV, s: Seq<DagEntryV>, k: int, vf: DagV, err: DagError) -> bool {
    &&& 0 <= k < s.len()
    &&& vf == received_all(v, fresh_in(v, s.take(k)))
    &&& !vf.has_entry(s[k].hash)
    &&& refusal(vf, s[k], err)
}

pub proof fn lemma_missing_from(s: Seq<DagEntryV>, p: Seq<[u8; 32]>)
    ensures
        missing_from(s, p).len() == 0 <==> forall|i: int| 0 <= i < p.len() ==> contains_hash(s, p[i]),
    decreases p.len(),
{
    if p.len() > 0 {
        lemma_missing_from(s, p.drop_last());
        if missing_from(s, p.drop_last()).len() == 0 && contains_hash(s, p.last()) {
            assert forall|i: int| 0 <= i < p.len() implies contains_hash(s, p[i]) by {
                if i < p.len() - 1 {
                    assert(p.drop_last()[i] == p[i]);
                }
            }
        }
        if forall|i: int| 0 <= i < p.len() ==> contains_hash(s, p[i]) {
            assert forall|i: int| 0 <= i < p.drop_last().len() implies contains_hash(s, p.drop_last()[i]) by {
                assert(p.drop_last()[i] == p[i]);
            }
            assert(contains_hash(s, p[p.len() - 1]));
        }
    }
}

impl Dag {
    /// An empty DAG for the device `device_id` signing with `signing_key`.
    pub fn new(device_id: DeviceId, signing_key: [u8; 32]) -> (res: Dag)
        ensures
            res@.entries == Seq::<DagEntryV>::empty(),
            res@.tips == Seq::<[u8; 32]>::empty(),
            res@.clock == 0,
            res@.device_id == device_id,
            res@.signing_key == signing_key,
            res@.state == empty_state(),
            res@.wf(),
    {
        let res = Dag {
            entries: Vec::new(),
            tips: Vec::new(),
            clock: HybridClock::new(),
            device_id,
            signing_key,
            state: MaterializedState::new(),
        };
        assert(res@.entries =~= Seq::<DagEntryV>::empty());
        res
    }

    /// Position of the stored entry with hash `h`.
    fn find_entry(&self, h: &[u8; 32]) -> (res: Option<usize>)
        ensures
            match res {
                Some(i) => i < self@.entries.len() && self@.entries[i as int].hash == *h,
                None => !self@.has_entry(*h),
            },
    {
        let mut i: usize = 0;
        while i < self.entries.len()
            invariant
                i <= self.entries@.len(),
                forall|j: int| 0 <= j < i ==> self@.entries[j].hash != *h,
            decreases self.entries@.len() - i,
        {
            if bytes32_eq(&self.entries[i].hash, h) {
                return Some(i);
            }
            i = i + 1;
        }
        None
    }

    /// The hashes reached from `start` by following parent links through
    /// the stored entries, each once. The hashes of `start` are among them
    /// whether stored or not.
    fn reachable_from(&self, start: &Vec<[u8; 32]>) -> (res: Vec<[u8; 32]>)
        requires
            self@.wf(),
        ensures
            distinct32(res@),
            forall|h: [u8; 32]| res@.contains(h) <==> reachable(self@.entries, start@, h),
    {
        let ghost s = self@.entries;
        let ghost univ = start@ + all_parents(s);
        let mut vis: Vec<[u8; 32]> = Vec::new();
        let mut i: usize = 0;
        while i < start.len()
            invariant
                i <= start@.len(),
                distinct32(vis@),
                forall|x: [u8; 32]| vis@.contains(x) <==> start@.subrange(0, i as int).contains(x),
            decreases start@.len() - i,
        {
            let h = start[i];
            let ghost vprev = vis@;
            if !list_contains(&vis, &h) {
                vis.push(h);
            }
            proof {
                let pre = start@.subrange(0, i as int);
                assert(start@.subrange(0, i + 1) =~= pre.push(h));
                assert forall|x: [u8; 32]| vis@.contains(x) <==> start@.subrange(0, i + 1).contains(x) by {
                    lemma_push_contains(pre, h, x);
                    lemma_push_contains(vprev, h, x);
                }
            }
            i = i + 1;
        }
        proof {
            assert(start@.subrange(0, start@.len() as int) =~= start@);
            assert forall|k: int| 0 <= k < vis@.len() implies reachable(s, start@, #[trigger] vis@[k]) by {
                assert(vis@.contains(vis@[k]));
                let m = choose|m: int| 0 <= m < start@.len() && start@[m] == vis@[k];
                lemma_start_reachable(s, start@, m);
            }
            assert forall|x: [u8; 32]| vis@.contains(x) implies univ.contains(x) by {
                let m = choose|m: int| 0 <= m < start@.len() && start@[m] == x;
                assert(univ[m] == x);
            }
        }
        let mut head: usize = 0;
        while head < vis.len()
            invariant
                s == self@.entries,
                self@.wf(),
                univ == start@ + all_parents(s),
                head <= vis@.len(),
                distinct32(vis@),
                forall|x: [u8; 32]| start@.contains(x) ==> vis@.contains(x),
                forall|x: [u8; 32]| vis@.contains(x) ==> univ.contains(x),
                forall|k: int| 0 <= k < vis@.len() ==> reachable(s, start@, #[trigger] vis@[k]),
                forall|k: int, y: [u8; 32]|
                    0 <= k < head && contains_hash(s, vis@[k]) && #[trigger] s[hash_pos(
                        s,
                        vis@[k],
                    )].parents.contains(y) ==> vis@.contains(y),
            decreases univ.len() - head,
        {
            let x = vis[head];
            let ghost vstart = vis@;
            match self.find_entry(&x) {
                Some(i) => {
                    assert(hash_pos(s, x) == i as int) by {
                        let k = hash_pos(s, x);
                        assert(s[k].hash == x);
                        if k < i {
                            assert(s[k].hash != s[i as int].hash);
                        } else if k > i {
                            assert(s[i as int].hash != s[k].hash);
                        }
                    }
                    assert(self.entries@[i as int].parents@ == s[i as int].parents);
                    let mut j: usize = 0;
                    while j < self.entries[i].parents.len()
                        invariant
                            s == self@.entries,
                            self@.wf(),
                            univ == start@ + all_parents(s),
                            i < s.len(),
                            s[i as int].hash == x,
                            self.entries@[i as int].parents@ == s[i as int].parents,
                            head < vis@.len(),
                            vis@[head as int] == x,
                            j <= s[i as int].parents.len(),
                            distinct32(vis@),
                            forall|k: int| 0 <= k < vstart.len() ==> vis@[k] == vstart[k],
                            vstart.len() <= vis@.len(),
                            forall|y: [u8; 32]| start@.contains(y) ==> vis@.contains(y),
                            forall|y: [u8; 32]| vis@.contains(y) ==> univ.contains(y),
                            forall|k: int| 0 <= k < vis@.len() ==> reachable(s, start@, #[trigger] vis@[k]),
                            forall|k: int, y: [u8; 32]|
                                0 <= k < head && contains_hash(s, vis@[k]) && #[trigger] s[hash_pos(
                                    s,
                                    vis@[k],
                                )].parents.contains(y) ==> vis@.contains(y),
                            forall|m: int| 0 <= m < j ==> vis@.contains(#[trigger] s[i as int].parents[m]),
                        decreases s[i as int].parents.len() - j,
                    {
                        let p = self.entries[i].parents[j];
                        let ghost vprev = vis@;
                        if !list_contains(&vis, &p) {
                            proof {
                                lemma_walk_step(s, start@, x, i as int, j as int);
                                lemma_all_parents(s, i as int, j as int);
                                let k = choose|k: int| 0 <= k < all_parents(s).len() && all_parents(s)[k] == p;
                                assert(univ[start@.len() + k] == p);
                            }
                            vis.push(p);
                        }
                        proof {
                            assert forall|y: [u8; 32]| vprev.contains(y) implies vis@.contains(y) by {
                                lemma_push_contains(vprev, p, y);
                            }
                            assert(vis@.contains(p)) by {
                                lemma_push_contains(vprev, p, p);
                            }
                            assert forall|y: [u8; 32]| vis@.contains(y) implies univ.contains(y) by {
                                lemma_push_contains(vprev, p, y);
                            }
                            assert forall|k: int| 0 <= k < vis@.len() implies reachable(s, start@, #[trigger] vis@[k]) by {
                                if k < vprev.len() {
                                    assert(vis@[k] == vprev[k]);
                                }
                            }
                            assert forall|k: int, y: [u8; 32]|
                                0 <= k < head && contains_hash(s, vis@[k]) && #[trigger] s[hash_pos(
                                    s,
                                    vis@[k],
                                )].parents.contains(y) implies vis@.contains(y) by {
                                assert(vis@[k] == vprev[k]);
                            }
                            assert forall|m: int| 0 <= m < j + 1 implies vis@.contains(#[trigger] s[i as int].parents[m]) by {
                                if m < j {
                                    assert(vprev.contains(s[i as int].parents[m]));
                                }
                            }
                        }
                        j = j + 1;
                    }
                    proof {
                        assert forall|k: int, y: [u8; 32]|
                            0 <= k < head + 1 && contains_hash(s, vis@[k]) && #[trigger] s[hash_pos(
                                s,
                                vis@[k],
                            )].parents.contains(y) implies vis@.contains(y) by {
                            if k == head {
                                let m = choose|m: int| 0 <= m < s[i as int].parents.len() && s[i as int].parents[m] == y;
                                assert(vis@.contains(s[i as int].parents[m]));
                            }
                        }
                    }
                },
                None => {},
            }
            proof {
                lemma_distinct_within(vis@, univ);
            }
            head = head + 1;
        }
        proof {
            assert forall|h: [u8; 32]| reachable(s, start@, h) implies vis@.contains(h) by {
                let p = choose|p: Seq<[u8; 32]>| #[trigger] is_walk(s, start@, p) && p.last() == h;
                assert forall|x: [u8; 32], y: [u8; 32]|
                    vis@.contains(x) && contains_hash(s, x) && #[trigger] s[hash_pos(s, x)].parents.contains(y)
                        implies vis@.contains(y) by {
                    let k = choose|k: int| 0 <= k < vis@.len() && vis@[k] == x;
                }
                lemma_walk_closed(s, start@, vis@, p);
            }
            assert forall|h: [u8; 32]| vis@.contains(h) implies reachable(s, start@, h) by {
                let k = choose|k: int| 0 <= k < vis@.len() && vis@[k] == h;
            }
        }
        vis
    }

    /// The stored entries the remote side lacks: those whose hash is not
    /// reached from `remote_tips` through parent links, ordered so that
    /// parents come before children.
    pub fn compute_delta(&self, remote_tips: &Vec<[u8; 32]>) -> (res: Vec<DagEntry>)
        requires
            self@.wf(),
        ensures
            topo_ordered(self@.unknown(remote_tips@), views(res@)),
            forall|h: [u8; 32]|
                contains_hash(views(res@), h) ==> self@.has_entry(h) && !reachable(
                    self@.entries,
                    remote_tips@,
                    h,
                ),
            (exists|rank: spec_fn([u8; 32]) -> nat| ranked(self@.unknown(remote_tips@), rank))
                ==> forall|h: [u8; 32]|
                self@.has_entry(h) && !reachable(self@.entries, remote_tips@, h) ==> contains_hash(
                    views(res@),
                    h,
                ),
            exists|z: int| roots_first(self@.unknown(remote_tips@), views(res@), z),
    {
        let ghost s = self@.entries;
        let known = self.reachable_from(remote_tips);
        let mut delta: Vec<DagEntry> = Vec::new();
        let mut i: usize = 0;
        assert(s.subrange(0, 0) =~= Seq::<DagEntryV>::empty());
        assert(views(delta@) =~= Seq::<DagEntryV>::empty());
        while i < self.entries.len()
            invariant
                s == self@.entries,
                i <= s.len(),
                forall|h: [u8; 32]| known@.contains(h) <==> reachable(s, remote_tips@, h),
                views(delta@) == unknown_to(s.subrange(0, i as int), s, remote_tips@),
            decreases s.len() - i,
        {
            assert(s.subrange(0, i + 1).drop_last() =~= s.subrange(0, i as int));
            assert(self.entries@[i as int]@ == s[i as int]);
            if !list_contains(&known, &self.entries[i].hash) {
                let d = self.entries[i].duplicate();
                let ghost before = delta@;
                delta.push(d);
                assert(views(delta@) =~= views(before).push(d@));
            }
            i = i + 1;
        }
        proof {
            assert(s.subrange(0, s.len() as int) =~= s);
            lemma_unknown_to(s, s, remote_tips@);
            lemma_batch_of_distinct(views(delta@));
        }
        let ghost u = self@.unknown(remote_tips@);
        let res = match topological_sort(delta) {
            Ok(v) => v,
            Err(_) => Vec::new(),
        };
        proof {
            let out = views(res@);
            assert forall|h: [u8; 32]| contains_hash(out, h) implies self@.has_entry(h) && !reachable(
                s,
                remote_tips@,
                h,
            ) by {
                let k = choose|k: int| 0 <= k < out.len() && out[k].hash == h;
                assert(u.contains(out[k]));
                assert(u == unknown_to(s, s, remote_tips@));
                assert(s.contains(out[k]));
                let m = choose|m: int| 0 <= m < s.len() && s[m] == out[k];
                assert(s[m].hash == h);
            }
            if exists|rank: spec_fn([u8; 32]) -> nat| ranked(u, rank) {
                lemma_topo_complete(u, out);
                assert forall|h: [u8; 32]| self@.has_entry(h) && !reachable(s, remote_tips@, h) implies contains_hash(
                    out,
                    h,
                ) by {
                    let m = choose|m: int| 0 <= m < s.len() && s[m].hash == h;
                    assert(s.contains(s[m]));
                    assert(u == unknown_to(s, s, remote_tips@));
                    assert(u.contains(s[m]));
                    let k = choose|k: int| 0 <= k < u.len() && u[k] == s[m];
                    assert(u[k].hash == h);
                }
            }
        }
        res
    }

    /// Applies a batch of entries from a peer: orders it so that parents
    /// come before children, then receives each entry not yet stored.
    /// Returns the entries that were new. The first entry refused stops the
    /// batch, with the entries before it kept.
    #[verifier::rlimit(100)]
    pub fn apply_sync_entries(&mut self, entries: Vec<DagEntry>) -> (res: Result<Vec<DagEntry>, DagError>)
        requires
            old(self)@.wf(),
        ensures
            final(self)@.wf(),
            res matches Ok(new) ==> final(self)@ == received_all(old(self)@, views(new@)),
            res matches Ok(new) ==> forall|k: int|
                0 <= k < new@.len() ==> batch_of(views(entries@)).contains(#[trigger] views(new@)[k])
                    && !old(self)@.has_entry(views(new@)[k].hash),
            exists|s: Seq<DagEntryV>| {
                &&& topo_ordered(batch_of(views(entries@)), s)
                &&& exists|z: int| roots_first(batch_of(views(entries@)), s, z)
                &&& res matches Ok(new) ==> views(new@) == fresh_in(old(self)@, s)
                &&& res matches Err(err) ==> exists|k: int| stopped_at(old(self)@, s, k, final(self)@, err)
            },
            sync_acceptable(old(self)@, views(entries@)) ==> res is Ok,
            res is Ok && (exists|
                rank: spec_fn([u8; 32]) -> nat,
            | ranked(batch_of(views(entries@)), rank)) ==> forall|k: int|
                0 <= k < entries@.len() ==> final(self)@.has_entry(#[trigger] entries@[k].hash),
    {
        let ghost v0 = self@;
        let ghost input = views(entries@);
        let ghost b = batch_of(input);
        let ghost acc = sync_acceptable(v0, input);
        let ghost complete = exists|rank: spec_fn([u8; 32]) -> nat|
            ranked(b, rank);
        proof {
            lemma_batch_of(input);
            assert forall|k: int| 0 <= k < entries@.len() implies input[k].hash == #[trigger] entries@[k].hash by {}
        }
        let sorted = match topological_sort(entries) {
            Ok(v) => v,
            Err(e) => {
                return Err(e);
            },
        };
        let ghost outv = views(sorted@);
        let mut new: Vec<DagEntry> = Vec::new();
        let mut k: usize = 0;
        assert(views(new@) =~= Seq::<DagEntryV>::empty());
        assert(outv.take(0) =~= Seq::<DagEntryV>::empty());
        while k < sorted.len()
            invariant
                k <= sorted@.len(),
                outv == views(sorted@),
                b == batch_of(input),
                topo_ordered(b, outv),
                exists|z: int| roots_first(b, outv, z),
                distinct_hashes(b),
                forall|x: DagEntryV| b.contains(x) ==> input.contains(x),
                forall|h: [u8; 32]| contains_hash(b, h) <==> contains_hash(input, h),
                acc == sync_acceptable(v0, input),
                v0 == old(self)@,
                input == views(entries@),
                self@.wf(),
                self@ == received_all(v0, views(new@)),
                forall|m: int|
                    0 <= m < new@.len() ==> b.contains(#[trigger] views(new@)[m]) && !v0.has_entry(
                        views(new@)[m].hash,
                    ),
                forall|m: int| 0 <= m < k ==> self@.has_entry(#[trigger] outv[m].hash),
                forall|h: [u8; 32]| v0.has_entry(h) ==> self@.has_entry(h),
                views(new@) == fresh_in(v0, outv.take(k as int)),
                forall|h: [u8; 32]| self@.has_entry(h) ==> v0.has_entry(h) || exists|m: int| 0 <= m < k && #[trigger] outv[m].hash == h,
            decreases sorted@.len() - k,
        {
            let e = sorted[k].duplicate();
            assert(e@ == outv[k as int]);
            assert(outv.take(k + 1).drop_last() =~= outv.take(k as int));
            assert(outv.take(k + 1).last() == outv[k as int]);
            if self.find_entry(&e.hash).is_none() {
                let ghost before = self@;
                let ghost new_before = new@;
                assert(acc ==> (hash_ok(e@) && signature_ok(e@) && missing_from(before.entries, e@.parents).len()
                    == 0)) by {
                    if acc {
                        assert(b.contains(outv[k as int]));
                        assert(input.contains(e@));
                        let m = choose|m: int| 0 <= m < input.len() && input[m] == e@;
                        assert(hash_ok(input[m]) && signature_ok(input[m]));
                        assert forall|j: int| 0 <= j < e@.parents.len() implies contains_hash(before.entries, e@.parents[j]) by {
                            let p = e@.parents[j];
                            assert(p == input[m].parents[j]);
                            if contains_hash(input, p) {
                                assert(contains_hash(b, outv[k as int].parents[j]));
                                let c = choose|c: int| 0 <= c < k && outv[c].hash == outv[k as int].parents[j];
                                assert(before.has_entry(outv[c].hash));
                            } else {
                                assert(v0.has_entry(p));
                            }
                        }
                        lemma_missing_from(before.entries, e@.parents);
                    }
                }
                let r = self.receive_entry(e);
                match r {
                    Ok(got) => {
                        proof {
                            assert(!before.has_entry(got@.hash));
                            assert(self@ == before.received(got@));
                            lemma_store(before.entries, got@);
                        }
                        new.push(got);
                        proof {
                            assert(views(new@) =~= views(new_before).push(got@));
                            assert(views(new@).drop_last() =~= views(new_before));
                            assert(self@.entries == before.entries.push(got@));
                            assert forall|h: [u8; 32]| before.has_entry(h) implies self@.has_entry(h) by {
                                let c = choose|c: int| 0 <= c < before.entries.len() && before.entries[c].hash == h;
                                assert(self@.entries[c].hash == h);
                            }
                            assert(self@.entries[before.entries.len() as int].hash == got@.hash);
                            assert forall|m: int| 0 <= m < new@.len() implies b.contains(#[trigger] views(new@)[m])
                                && !v0.has_entry(views(new@)[m].hash) by {
                                if m < new_before.len() {
                                    assert(views(new@)[m] == views(new_before)[m]);
                                }
                            }
                            assert forall|h: [u8; 32]| self@.has_entry(h) implies v0.has_entry(h) || exists|m: int|
                                0 <= m < k + 1 && #[trigger] outv[m].hash == h by {
                                let c = choose|c: int| 0 <= c < self@.entries.len() && self@.entries[c].hash == h;
                                if c < before.entries.len() {
                                    assert(before.entries[c].hash == h);
                                    assert(before.has_entry(h));
                                } else {
                                    assert(outv[k as int].hash == h);
                                }
                            }
                        }
                    },
                    Err(err) => {
                        proof {
                            assert(self@ == before);
                            assert(self@ == received_all(v0, views(new@)));
                            assert(!acc);
                            assert(stopped_at(v0, outv, k as int, self@, err));
                        }
                        return Err(err);
                    },
                }
            } else {
                proof {
                    if !v0.has_entry(outv[k as int].hash) {
                        let m = choose|m: int| 0 <= m < k && #[trigger] outv[m].hash == outv[k as int].hash;
                        assert(false);
                    }
                }
            }
            k = k + 1;
        }
        proof {
            if complete {
                let rank = choose|rank: spec_fn([u8; 32]) -> nat| ranked(b, rank);
                lemma_topo_complete(b, outv);
                assert forall|i: int| 0 <= i < entries@.len() implies self@.has_entry(#[trigger] entries@[i].hash) by {
                    let h = input[i].hash;
                    assert(contains_hash(input, h));
                    assert(contains_hash(b, h));
                    assert(contains_hash(outv, h));
                    let m = choose|m: int| 0 <= m < outv.len() && outv[m].hash == h;
                    assert(self@.has_entry(outv[m].hash));
                }
            }
            assert(outv.take(outv.len() as int) =~= outv);
            assert(views(new@) == fresh_in(v0, outv));
        }
        Ok(new)
    }

    /// Whether some stored entry names `h` as a parent.
    fn referenced(&self, h: &[u8; 32]) -> (res: bool)
        ensures
            res == is_referenced(self@.entries, *h),
    {
        let mut i: usize = 0;
        while i < self.entries.len()
            invariant
                i <= self.entries@.len(),
                forall|a: int, b: int|
                    0 <= a < i && 0 <= b < self@.entries[a].parents.len() ==> self@.entries[a].parents[b]
                        != *h,
            decreases self.entries@.len() - i,
        {
            let parents = &self.entries[i].parents;
            let mut j: usize = 0;
            while j < parents.len()
                invariant
                    i < self.entries@.len(),
                    *parents == self.entries@[i as int].parents,
                    j <= parents@.len(),
                    forall|b: int| 0 <= b < j ==> parents@[b] != *h,
                decreases parents@.len() - j,
            {
                if bytes32_eq(&parents[j], h) {
                    assert(self@.entries[i as int].parents[j as int] == *h);
                    return true;
                }
                j = j + 1;
            }
            i = i + 1;
        }
        false
    }

    /// Hashes of `parents`, in order, that are not stored.
    fn missing(&self, parents: &Vec<[u8; 32]>) -> (res: Vec<[u8; 32]>)
        ensures
            res@ == missing_from(self@.entries, parents@),
    {
        let mut out: Vec<[u8; 32]> = Vec::new();
        let mut i: usize = 0;
        while i < parents.len()
            invariant
                i <= parents@.len(),
                out@ == missing_from(self@.entries, parents@.subrange(0, i as int)),
            decreases parents@.len() - i,
        {
            proof {
                assert(parents@.subrange(0, i + 1).drop_last() =~= parents@.subrange(0, i as int));
            }
            if self.find_entry(&parents[i]).is_none() {
                out.push(parents[i]);
            }
            i = i + 1;
        }
        assert(parents@.subrange(0, parents@.len() as int) =~= parents@);
        out
    }

    /// Recomputes the tips from scratch: the stored entries, in order, that
    /// no stored entry names as a parent.
    pub fn rebuild_tips(&mut self)
        requires
            distinct_hashes(old(self)@.entries),
            old(self)@.state.wf(),
            forall|i: int| 0 <= i < old(self)@.entries.len() ==> #[trigger] old(self)@.entries[i].hlc <= old(self)@.clock,
        ensures
            final(self)@ == old(self)@.with_tips(unreferenced(old(self)@.entries, old(self)@.entries)),
            final(self)@.wf(),
    {
        let ghost all = self@.entries;
        let mut t: Vec<[u8; 32]> = Vec::new();
        let mut i: usize = 0;
        while i < self.entries.len()
            invariant
                i <= self.entries@.len(),
                all == self@.entries,
                t@ == unreferenced(all.subrange(0, i as int), all),
            decreases self.entries@.len() - i,
        {
            proof {
                assert(all.subrange(0, i + 1).drop_last() =~= all.subrange(0, i as int));
            }
            let h = self.entries[i].hash;
            if !self.referenced(&h) {
                t.push(h);
            }
            i = i + 1;
        }
        assert(all.subrange(0, all.len() as int) =~= all);
        self.tips = t;
        proof {
            lemma_unreferenced(all, all);
            assert forall|k: int| 0 <= k < self@.tips.len() implies contains_hash(self@.entries, self@.tips[k]) by {
                assert(unreferenced(all, all).contains(self@.tips[k]));
            }
        }
    }

    /// Stores `e`, replacing a stored entry with the same hash.
    fn store_entry(&mut self, e: DagEntry)
        requires
            distinct_hashes(old(self)@.entries),
        ensures
            final(self)@ == old(self)@.with_entries(store(old(self)@.entries, e@)),
            distinct_hashes(final(self)@.entries),
    {
        let ghost s = self@.entries;
        proof { lemma_store(s, e@); }
        match self.find_entry(&e.hash) {
            Some(i) => {
                assert(hash_pos(s, e.hash) == i as int) by {
                    let k = hash_pos(s, e.hash);
                    assert(s[k].hash == e.hash);
                }
                self.entries[i] = e;
                assert(self@.entries =~= store(s, e@));
            },
            None => {
                self.entries.push(e);
                assert(self@.entries =~= store(s, e@));
            },
        }
    }

    /// Loads a previously persisted entry: checks its hash and signature,
    /// takes note of its clock value, applies it to the state, stores it and
    /// recomputes the tips. Its parents need not be stored.
    pub fn load_entry(&mut self, entry: DagEntry) -> (res: Result<(), DagError>)
        requires
            old(self)@.wf(),
        ensures
            final(self)@.wf(),
            !hash_ok(entry@) ==> (res matches Err(DagError::InvalidHash)) && final(self)@ == old(self)@,
            hash_ok(entry@) && !signature_ok(entry@) ==> (res matches Err(DagError::InvalidSignature))
                && final(self)@ == old(self)@,
            hash_ok(entry@) && signature_ok(entry@) ==> res is Ok && final(self)@ == old(self)@.loaded(
                entry@,
            ),
    {
        match entry.verify_hash() {
            Ok(()) => {},
            Err(e) => {
                return Err(e);
            },
        }
        match entry.verify_signature() {
            Ok(()) => {},
            Err(e) => {
                return Err(e);
            },
        }
        let ghost old_v = self@;
        self.clock.witness(entry.hlc);
        self.state.apply(entry.hlc, &entry.device_id, &entry.action);
        self.store_entry(entry);
        self.rebuild_tips();
        assert(self@ == old_v.loaded(entry@));
        Ok(())
    }

    /// Appends an action: ticks the clock, takes the current tips as
    /// parents, signs the entry, makes it the only tip, applies it to the
    /// state and stores it. Returns the entry for the platform to persist.
    pub fn append(&mut self, action: Action) -> (res: DagEntry)
        requires
            old(self)@.wf(),
        ensures
            final(self)@.wf(),
            old(self)@.made_entry(res.hlc, action@, res@),
            res.hlc >= old(self)@.clock,
            old(self)@.clock < u64::MAX ==> res.hlc > old(self)@.clock,
            old(self)@.clock < u64::MAX ==> forall|i: int|
                0 <= i < old(self)@.entries.len() ==> #[trigger] old(self)@.entries[i].hlc < res.hlc,
            final(self)@ == old(self)@.appended(res@),
            hash_ok(res@),
            old(self)@.device_id.0@ == ed25519_public(old(self)@.signing_key@) ==> signature_ok(
                res@,
            ),
    {
        let ghost old_v = self@;
        let hlc = self.clock.tick();
        let parents = copy_hashes(&self.tips);
        let entry = DagEntry::new_signed(
            hlc,
            self.device_id,
            action,
            parents,
            &self.signing_key,
        );
        let mut t: Vec<[u8; 32]> = Vec::new();
        t.push(entry.hash);
        self.tips = t;
        self.state.apply(entry.hlc, &entry.device_id, &entry.action);
        let copy = entry.duplicate();
        self.store_entry(copy);
        proof {
            lemma_store(old_v.entries, entry@);
            assert(self@.tips =~= seq![entry.hash]);
            assert(contains_hash(self@.entries, entry.hash));
        }
        entry
    }

    /// Receives an entry from a peer: checks its hash, its signature and
    /// that every parent is stored; an entry already stored is accepted and
    /// changes nothing. Otherwise takes note of its clock value, replaces
    /// its parents among the tips by it, applies it to the state and stores
    /// it. Returns the entry for the platform to persist.
    pub fn receive_entry(&mut self, entry: DagEntry) -> (res: Result<DagEntry, DagError>)
        requires
            old(self)@.wf(),
        ensures
            final(self)@.wf(),
            !hash_ok(entry@) ==> (res matches Err(DagError::InvalidHash)) && final(self)@ == old(self)@,
            hash_ok(entry@) && !signature_ok(entry@) ==> (res matches Err(DagError::InvalidSignature))
                && final(self)@ == old(self)@,
            hash_ok(entry@) && signature_ok(entry@) && missing_from(old(self)@.entries, entry@.parents).len()
                > 0 ==> (res matches Err(DagError::MissingParents(m)) && m@ == missing_from(
                old(self)@.entries,
                entry@.parents,
            )) && final(self)@ == old(self)@,
            hash_ok(entry@) && signature_ok(entry@) && missing_from(old(self)@.entries, entry@.parents).len()
                == 0 ==> (res matches Ok(r) && r@ == entry@) && final(self)@ == old(self)@.received_if_new(entry@),
    {
        match entry.verify_hash() {
            Ok(()) => {},
            Err(e) => {
                return Err(e);
            },
        }
        match entry.verify_signature() {
            Ok(()) => {},
            Err(e) => {
                return Err(e);
            },
        }
        let missing = self.missing(&entry.parents);
        if missing.len() > 0 {
            return Err(DagError::MissingParents(missing));
        }
        if self.find_entry(&entry.hash).is_some() {
            return Ok(entry);
        }
        let ghost old_v = self@;
        proof {
            lemma_missing_from(old_v.entries, entry@.parents);
            lemma_without(old_v.tips, entry@.parents);
        }
        self.clock.witness(entry.hlc);
        let mut t: Vec<[u8; 32]> = Vec::new();
        let mut i: usize = 0;
        while i < self.tips.len()
            invariant
                i <= self.tips@.len(),
                t@ == without(self.tips@.subrange(0, i as int), entry.parents@),
            decreases self.tips@.len() - i,
        {
            proof {
                assert(self.tips@.subrange(0, i + 1).drop_last() =~= self.tips@.subrange(0, i as int));
            }
            let mut found = false;
            let mut j: usize = 0;
            while j < entry.parents.len()
                invariant
                    j <= entry.parents@.len(),
                    i < self.tips@.len(),
                    found == exists|b: int| 0 <= b < j && entry.parents@[b] == self.tips@[i as int],
                decreases entry.parents@.len() - j,
            {
                if bytes32_eq(&entry.parents[j], &self.tips[i]) {
                    found = true;
                }
                j = j + 1;
            }
            if !found {
                t.push(self.tips[i]);
            }
            i = i + 1;
        }
        assert(self.tips@.subrange(0, self.tips@.len() as int) =~= self.tips@);
        t.push(entry.hash);
        self.tips = t;
        self.state.apply(entry.hlc, &entry.device_id, &entry.action);
        let copy = entry.duplicate();
        self.entries.push(copy);
        proof {
            assert(store(old_v.entries, entry@) == old_v.entries.push(entry@));
            lemma_store(old_v.entries, entry@);
            assert(self@.entries =~= old_v.entries.push(entry@));
            assert(!without(old_v.tips, entry@.parents).contains(entry.hash)) by {
                if old_v.tips.contains(entry.hash) {
                    let k = choose|k: int| 0 <= k < old_v.tips.len() && old_v.tips[k] == entry.hash;
                    assert(contains_hash(old_v.entries, old_v.tips[k]));
                }
            }
            assert(self@.tips == without(old_v.tips, entry@.parents).push(entry.hash));
            assert forall|k: int| 0 <= k < self@.tips.len() implies contains_hash(self@.entries, self@.tips[k]) by {
                if k < self@.tips.len() - 1 {
                    let w = without(old_v.tips, entry@.parents);
                    assert(self@.tips[k] == w[k]);
                    assert(w.contains(w[k]));
                    assert(old_v.tips.contains(w[k]));
                    let m = choose|m: int| 0 <= m < old_v.tips.len() && old_v.tips[m] == self@.tips[k];
                    assert(contains_hash(old_v.entries, old_v.tips[m]));
                } else {
                    assert(self@.entries[old_v.entries.len() as int].hash == entry.hash);
                }
            }
            assert(self@ == old_v.received(entry@));
        }
        Ok(entry)
    }

    /// When there are two or more tips, appends a `Merge` entry naming all
    /// of them as parents, which leaves it the only tip.
    pub fn maybe_merge(&mut self) -> (res: Option<DagEntry>)
        requires
            old(self)@.wf(),
        ensures
            final(self)@.wf(),
            old(self)@.tips.len() < 2 ==> res is None && final(self)@ == old(self)@,
            old(self)@.tips.len() >= 2 ==> (res matches Some(e) && old(self)@.made_entry(e.hlc, ActionV::Merge, e@)
                && e.hlc >= old(self)@.clock && final(self)@ == old(self)@.appended(e@)),
    {
        if self.tips.len() < 2 {
            return None;
        }
        Some(self.append(Action::Merge))
    }

    /// The current tip hashes.
    pub fn tips(&self) -> (res: &Vec<[u8; 32]>)
        ensures
            res@ == self@.tips,
    {
        &self.tips
    }

    /// The materialized state.
    pub fn state(&self) -> (res: &MaterializedState)
        ensures
            res@ == self@.state,
    {
        &self.state
    }

    /// The number of stored entries.
    pub fn len(&self) -> (res: usize)
        ensures
            res == self@.entries.len(),
    {
        self.entries.len()
    }

    /// Whether no entry is stored.
    pub fn is_empty(&self) -> (res: bool)
        ensures
            res == (self@.entries.len() == 0),
    {
        self.entries.len() == 0
    }

    /// The stored entry with hash `hash`, if any.
    pub fn get_entry(&self, hash: &[u8; 32]) -> (res: Option<&DagEntry>)
        requires
            self@.wf(),
        ensures
            res is Some <==> self@.has_entry(*hash),
            res matches Some(e) ==> e@ == self@.entries[hash_pos(self@.entries, *hash)],
    {
        match self.find_entry(hash) {
            Some(i) => {
                proof {
                    let k = hash_pos(self@.entries, *hash);
                    assert(self@.entries[k].hash == *hash);
                }
                Some(&self.entries[i])
            },
            None => None,
        }
    }

    /// Copies of all stored entries, in store order.
    pub fn all_entries(&self) -> (res: Vec<DagEntry>)
        ensures
            res@.map_values(|e: DagEntry| e@) == self@.entries,
    {
        let mut out: Vec<DagEntry> = Vec::new();
        let mut i: usize = 0;
        while i < self.entries.len()
            invariant
                i <= self.entries@.len(),
                out@.len() == i,
                forall|j: int| 0 <= j < i ==> out@[j]@ == self@.entries[j],
            decreases self.entries@.len() - i,
        {
            let d = self.entries[i].duplicate();
            assert(d@ == self@.entries[i as int]);
            out.push(d);
            i = i + 1;
        }
        assert(out@.map_values(|e: DagEntry| e@) =~= self@.entries);
        out
    }

    /// This device's id.
    pub fn device_id(&self) -> (res: DeviceId)
        ensures
            res == self@.device_id,
    {
        self.device_id
    }
}

/// The DAG after loading each entry of `es` in turn.
pub open spec fn loaded_all(v: DagV, es: Seq<DagEntryV>) -> DagV
    decreases es.len(),
{
    if es.len() == 0 {
        v
    } else {
        loaded_all(v, es.drop_last()).loaded(es.last())
    }
}

/// Entries of `es` that share a hash are the same entry.
pub open spec fn hashes_consistent(es: Seq<DagEntryV>) -> bool {
    forall|i: int, j: int|
        0 <= i < es.len() && 0 <= j < es.len() && #[trigger] es[i].hash == #[trigger] es[j].hash ==> es[i] == es[j]
}

proof fn lemma_same_elements(s: Seq<DagEntryV>, t: Seq<DagEntryV>)
    requires
        forall|x: DagEntryV| s.contains(x) <==> t.contains(x),
    ensures
        forall|h: [u8; 32]| contains_hash(s, h) <==> contains_hash(t, h),
        forall|h: [u8; 32]| is_referenced(s, h) <==> is_referenced(t, h),
{
    assert forall|h: [u8; 32]| contains_hash(s, h) implies contains_hash(t, h) by {
        let i = choose|i: int| 0 <= i < s.len() && s[i].hash == h;
        assert(s.contains(s[i]));
        let k = choose|k: int| 0 <= k < t.len() && t[k] == s[i];
    }
    assert forall|h: [u8; 32]| contains_hash(t, h) implies contains_hash(s, h) by {
        let i = choose|i: int| 0 <= i < t.len() && t[i].hash == h;
        assert(t.contains(t[i]));
        let k = choose|k: int| 0 <= k < s.len() && s[k] == t[i];
    }
    assert forall|h: [u8; 32]| is_referenced(s, h) implies is_referenced(t, h) by {
        let (i, j) = choose|i: int, j: int| 0 <= i < s.len() && 0 <= j < s[i].parents.len() && s[i].parents[j] == h;
        assert(s.contains(s[i]));
        let k = choose|k: int| 0 <= k < t.len() && t[k] == s[i];
        assert(t[k].parents[j] == h);
    }
    assert forall|h: [u8; 32]| is_referenced(t, h) implies is_referenced(s, h) by {
        let (i, j) = choose|i: int, j: int| 0 <= i < t.len() && 0 <= j < t[i].parents.len() && t[i].parents[j] == h;
        assert(t.contains(t[i]));
        let k = choose|k: int| 0 <= k < s.len() && s[k] == t[i];
        assert(s[k].parents[j] == h);
    }
}

/// Loading consistent entries into a DAG with none keeps exactly those
/// entries, each once.
proof fn lemma_loaded_entries(v: DagV, es: Seq<DagEntryV>)
    requires
        v.entries.len() == 0,
        hashes_consistent(es),
    ensures
        distinct_hashes(loaded_all(v, es).entries),
        forall|x: DagEntryV| loaded_all(v, es).entries.contains(x) <==> es.contains(x),
    decreases es.len(),
{
    if es.len() == 0 {
        assert(distinct_hashes(v.entries));
    } else {
        let r = es.drop_last();
        let e = es.last();
        assert forall|i: int, j: int|
            0 <= i < r.len() && 0 <= j < r.len() && #[trigger] r[i].hash == #[trigger] r[j].hash implies r[i] == r[j] by {
            assert(r[i] == es[i] && r[j] == es[j]);
        }
        lemma_loaded_entries(v, r);
        let s0 = loaded_all(v, r).entries;
        lemma_store(s0, e);
        assert(es =~= r.push(e));
        if contains_hash(s0, e.hash) {
            let k = hash_pos(s0, e.hash);
            assert(s0.contains(s0[k]));
            assert(r.contains(s0[k]));
            let m = choose|m: int| 0 <= m < r.len() && r[m] == s0[k];
            assert(es[m] == r[m]);
            assert(es[es.len() - 1] == e);
            assert(s0[k] == e);
            assert(store(s0, e) =~= s0);
            assert forall|x: DagEntryV| es.contains(x) <==> (r.contains(x) || x == e) by {
                if es.contains(x) {
                    let i = choose|i: int| 0 <= i < es.len() && es[i] == x;
                    if i < r.len() {
                        assert(r[i] == x);
                    }
                }
                if r.contains(x) {
                    let i = choose|i: int| 0 <= i < r.len() && r[i] == x;
                    assert(es[i] == x);
                }
            }
        } else {
            assert(store(s0, e) == s0.push(e));
            assert forall|x: DagEntryV| s0.push(e).contains(x) <==> es.contains(x) by {
                if es.contains(x) {
                    let i = choose|i: int| 0 <= i < es.len() && es[i] == x;
                    if i < r.len() {
                        assert(r[i] == x);
                        assert(r.contains(x));
                        let k = choose|k: int| 0 <= k < s0.len() && s0[k] == x;
                        assert(s0.push(e)[k] == x);
                    } else {
                        assert(s0.push(e)[s0.len() as int] == x);
                    }
                }
                if s0.push(e).contains(x) {
                    let i = choose|i: int| 0 <= i < s0.push(e).len() && s0.push(e)[i] == x;
                    if i < s0.len() {
                        assert(s0[i] == x);
                        assert(s0.contains(x));
                        assert(r.contains(x));
                        let k = choose|k: int| 0 <= k < r.len() && r[k] == x;
                        assert(es[k] == x);
                    } else {
                        assert(es[es.len() - 1] == x);
                    }
                }
            }
        }
    }
}

proof fn lemma_distinct_len(s: Seq<DagEntryV>, t: Seq<DagEntryV>)
    requires
        distinct_hashes(s),
        distinct_hashes(t),
        forall|x: DagEntryV| s.contains(x) <==> t.contains(x),
    ensures
        s.len() == t.len(),
{
    assert(s.no_duplicates()) by {
        assert forall|i: int, j: int| 0 <= i < s.len() && 0 <= j < s.len() && i != j implies s[i] != s[j] by {
            assert(s[i].hash != s[j].hash);
        }
    }
    assert(t.no_duplicates()) by {
        assert forall|i: int, j: int| 0 <= i < t.len() && 0 <= j < t.len() && i != j implies t[i] != t[j] by {
            assert(t[i].hash != t[j].hash);
        }
    }
    s.unique_seq_to_set();
    t.unique_seq_to_set();
    assert(s.to_set() =~= t.to_set());
}

/// Loading the same entries into a DAG with none, in any order and any
/// number of times each, gives as many entries as there are distinct ones
/// and the same tips: the hashes of the loaded entries that no loaded entry
/// names as a parent.
pub proof fn lemma_load_order(v: DagV, a: Seq<DagEntryV>, b: Seq<DagEntryV>)
    requires
        v.wf(),
        v.entries.len() == 0,
        hashes_consistent(a),
        forall|x: DagEntryV| a.contains(x) <==> b.contains(x),
    ensures
        loaded_all(v, a).entries.len() == loaded_all(v, b).entries.len(),
        forall|h: [u8; 32]| #[trigger] loaded_all(v, a).tips.contains(h) <==> loaded_all(v, b).tips.contains(h),
        forall|h: [u8; 32]|
            #[trigger] loaded_all(v, a).tips.contains(h) <==> (contains_hash(a, h) && !is_referenced(a, h)),
{
    assert(hashes_consistent(b)) by {
        assert forall|i: int, j: int|
            0 <= i < b.len() && 0 <= j < b.len() && #[trigger] b[i].hash == #[trigger] b[j].hash implies b[i] == b[j] by {
            assert(b.contains(b[i]) && b.contains(b[j]));
            let p = choose|p: int| 0 <= p < a.len() && a[p] == b[i];
            let q = choose|q: int| 0 <= q < a.len() && a[q] == b[j];
            assert(a[p].hash == a[q].hash);
        }
    }
    lemma_loaded_entries(v, a);
    lemma_loaded_entries(v, b);
    let ea = loaded_all(v, a).entries;
    let eb = loaded_all(v, b).entries;
    assert forall|x: DagEntryV| ea.contains(x) <==> eb.contains(x) by {
        assert(ea.contains(x) <==> a.contains(x));
        assert(eb.contains(x) <==> b.contains(x));
    }
    lemma_distinct_len(ea, eb);
    lemma_same_elements(a, b);
    lemma_tips_of_loaded(v, a);
    lemma_tips_of_loaded(v, b);
    assert forall|h: [u8; 32]| #[trigger] loaded_all(v, a).tips.contains(h) <==> loaded_all(v, b).tips.contains(h) by {
        assert(loaded_all(v, a).tips.contains(h) <==> (contains_hash(a, h) && !is_referenced(a, h)));
        assert(loaded_all(v, b).tips.contains(h) <==> (contains_hash(b, h) && !is_referenced(b, h)));
        assert(contains_hash(a, h) <==> contains_hash(b, h));
        assert(is_referenced(a, h) <==> is_referenced(b, h));
    }
}

/// After loading, the tips are the stored hashes no stored entry names as
/// a parent.
proof fn lemma_tips_of_loaded(v: DagV, es: Seq<DagEntryV>)
    requires
        v.wf(),
        v.entries.len() == 0,
        hashes_consistent(es),
    ensures
        forall|h: [u8; 32]| loaded_all(v, es).tips.contains(h) <==> (contains_hash(es, h) && !is_referenced(es, h)),
{
    lemma_loaded_entries(v, es);
    let e = loaded_all(v, es).entries;
    lemma_same_elements(e, es);
    if es.len() == 0 {
        assert forall|h: [u8; 32]| !v.tips.contains(h) by {
            if v.tips.contains(h) {
                let i = choose|i: int| 0 <= i < v.tips.len() && v.tips[i] == h;
                assert(contains_hash(v.entries, v.tips[i]));
            }
        }
    } else {
        assert(loaded_all(v, es).tips == unreferenced(e, e));
        lemma_unreferenced(e, e);
    }
}

/// Clock values follow causal order: once an entry `e` is received,
/// loaded or appended (at a clock value not below `v`'s, as `append`
/// stamps), turning `v` into `w`, an entry appended next is
/// stamped above `w`'s clock (as `append` stamps while the clock is below
/// its largest value), hence above `e` and, when `v` is well formed, above
/// every entry stored before.
pub proof fn lemma_append_follows(v: DagV, e: DagEntryV, w: DagV, next_hlc: u64)
    requires
        w == v.received(e) || w == v.loaded(e) || (w == v.appended(e) && e.hlc >= v.clock),
        next_hlc > w.clock,
    ensures
        next_hlc > e.hlc,
        v.wf() ==> forall|i: int| 0 <= i < v.entries.len() ==> #[trigger] v.entries[i].hlc < next_hlc,
{
    assert(w.clock >= v.clock);
}

/// Loading two renames of one device made with different clock values or
/// authors leaves the same state in either order: the later stamp wins,
/// whichever entry is loaded last.
pub proof fn lemma_loaded_renames_commute(
    v: DagV,
    e1: DagEntryV,
    e2: DagEntryV,
    id: DeviceId,
    n1: Seq<char>,
    n2: Seq<char>,
)
    requires
        v.wf(),
        e1.action == (ActionV::DeviceNameChanged { device_id: id, name: n1 }),
        e2.action == (ActionV::DeviceNameChanged { device_id: id, name: n2 }),
        (e1.hlc, e1.device_id) != (e2.hlc, e2.device_id),
    ensures
        v.loaded(e1).loaded(e2).state == v.loaded(e2).loaded(e1).state,
{
    crate::state::lemma_name_changes_commute(v.state, id, n1, e1.hlc, e1.device_id, n2, e2.hlc, e2.device_id);
}

/// An entry this device makes names every current tip as a parent, and
/// once appended it is the only tip, is stored, and carries the clock
/// value it was made at; so an auto-merge collapses all tips into one.
pub proof fn lemma_append_collapses_tips(v: DagV, hlc: u64, action: ActionV, e: DagEntryV)
    requires
        v.wf(),
        v.made_entry(hlc, action, e),
    ensures
        forall|k: int| 0 <= k < v.tips.len() ==> e.parents.contains(#[trigger] v.tips[k]),
        v.appended(e).tips.len() == 1,
        v.appended(e).tips[0] == e.hash,
        v.appended(e).has_entry(e.hash),
        v.appended(e).clock == hlc,
{
    assert forall|k: int| 0 <= k < v.tips.len() implies e.parents.contains(#[trigger] v.tips[k]) by {
        assert(e.parents[k] == v.tips[k]);
    }
    lemma_store(v.entries, e);
}

} // verus!
