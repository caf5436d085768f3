//! Ordering a batch of entries so that parents come before children
//! (Kahn's algorithm, ties broken by clock value then author).

use vstd::prelude::*;
use crate::dag::{contains_hash, hash_pos, distinct_hashes, distinct32, store};
use crate::entry::{DagEntry, DagEntryV, DagError};
use crate::types::{bytes32_eq, bytes32_lt, bytes_lt};
use vstd::set_lib::{set_int_range, lemma_int_range, lemma_len_subset};

verus! {

/// Number of positions of `ps` holding the hash of an entry of `b`.
pub open spec fn cnt_occ(b: Seq<DagEntryV>, ps: Seq<[u8; 32]>) -> nat
    decreases ps.len(),
{
    if ps.len() == 0 {
        0
    } else {
        cnt_occ(b, ps.drop_last()) + if contains_hash(b, ps.last()) {
            1nat
        } else {
            0nat
        }
    }
}

/// Number of elements of `h` that `ps` contains.
pub open spec fn cnt_done(h: Seq<[u8; 32]>, ps: Seq<[u8; 32]>) -> nat
    decreases h.len(),
{
    if h.len() == 0 {
        0
    } else {
        cnt_done(h.drop_last(), ps) + if ps.contains(h.last()) {
            1nat
        } else {
            0nat
        }
    }
}

proof fn lemma_cnt_done_push_ps(h: Seq<[u8; 32]>, ps: Seq<[u8; 32]>, p: [u8; 32])
    requires
        distinct32(h),
    ensures
        cnt_done(h, ps.push(p)) == cnt_done(h, ps) + if h.contains(p) && !ps.contains(p) {
            1nat
        } else {
            0nat
        },
    decreases h.len(),
{
    if h.len() > 0 {
        let r = h.drop_last();
        assert(distinct32(r));
        lemma_cnt_done_push_ps(r, ps, p);
        let x = h.last();
        assert(ps.push(p).contains(x) <==> (ps.contains(x) || x == p)) by {
            if ps.contains(x) {
                let i = choose|i: int| 0 <= i < ps.len() && ps[i] == x;
                assert(ps.push(p)[i] == x);
            }
            if x == p {
                assert(ps.push(p)[ps.len() as int] == x);
            }
            if ps.push(p).contains(x) {
                let i = choose|i: int| 0 <= i < ps.push(p).len() && ps.push(p)[i] == x;
                if i < ps.len() {
                    assert(ps[i] == x);
                }
            }
        }
        assert(h.contains(p) <==> (r.contains(p) || x == p)) by {
            if h.contains(p) {
                let i = choose|i: int| 0 <= i < h.len() && h[i] == p;
                if i < h.len() - 1 {
                    assert(r[i] == p);
                }
            }
            if r.contains(p) {
                let i = choose|i: int| 0 <= i < r.len() && r[i] == p;
                assert(h[i] == p);
            }
        }
        if x == p {
            assert(!r.contains(p)) by {
                if r.contains(p) {
                    let i = choose|i: int| 0 <= i < r.len() && r[i] == p;
                    assert(h[i] == h[h.len() - 1]);
                }
            }
        }
    }
}

/// Elements of `h` all stand for entries of `b`.
pub open spec fn all_in(b: Seq<DagEntryV>, h: Seq<[u8; 32]>) -> bool {
    forall|k: int| 0 <= k < h.len() ==> contains_hash(b, #[trigger] h[k])
}

/// What the processed hashes `h` can account for is bounded by the
/// positions holding batch hashes, strictly so when a batch hash of `ps` is
/// not among them.
proof fn lemma_cnt_bound(b: Seq<DagEntryV>, h: Seq<[u8; 32]>, ps: Seq<[u8; 32]>)
    requires
        distinct32(h),
        all_in(b, h),
    ensures
        cnt_done(h, ps) <= cnt_occ(b, ps),
        (exists|j: int| 0 <= j < ps.len() && contains_hash(b, ps[j]) && !h.contains(ps[j]))
            ==> cnt_done(h, ps) < cnt_occ(b, ps),
    decreases ps.len(),
{
    if ps.len() == 0 {
        assert(cnt_done(h, ps) == 0) by {
            lemma_cnt_done_empty(h, ps);
        }
    } else {
        let r = ps.drop_last();
        let p = ps.last();
        lemma_cnt_bound(b, h, r);
        assert(r.push(p) =~= ps);
        lemma_cnt_done_push_ps(h, r, p);
        if h.contains(p) {
            let k = choose|k: int| 0 <= k < h.len() && h[k] == p;
            assert(contains_hash(b, h[k]));
        }
        if exists|j: int| 0 <= j < ps.len() && contains_hash(b, ps[j]) && !h.contains(ps[j]) {
            let j = choose|j: int| 0 <= j < ps.len() && contains_hash(b, ps[j]) && !h.contains(ps[j]);
            if j < ps.len() - 1 {
                assert(r[j] == ps[j]);
            }
        }
    }
}

proof fn lemma_cnt_done_empty(h: Seq<[u8; 32]>, ps: Seq<[u8; 32]>)
    requires
        ps.len() == 0,
    ensures
        cnt_done(h, ps) == 0,
    decreases h.len(),
{
    if h.len() > 0 {
        lemma_cnt_done_empty(h.drop_last(), ps);
    }
}

/// When `ps` has no repeats and every batch hash in it is processed, the
/// processed hashes account for every batch position of `ps`.
proof fn lemma_cnt_full(b: Seq<DagEntryV>, h: Seq<[u8; 32]>, ps: Seq<[u8; 32]>)
    requires
        distinct32(h),
        distinct32(ps),
        forall|j: int| 0 <= j < ps.len() && contains_hash(b, ps[j]) ==> h.contains(ps[j]),
        all_in(b, h),
    ensures
        cnt_done(h, ps) == cnt_occ(b, ps),
    decreases ps.len(),
{
    if ps.len() == 0 {
        lemma_cnt_done_empty(h, ps);
    } else {
        let r = ps.drop_last();
        let p = ps.last();
        assert(distinct32(r));
        assert forall|j: int| 0 <= j < r.len() && contains_hash(b, r[j]) implies h.contains(r[j]) by {
            assert(ps[j] == r[j]);
        }
        lemma_cnt_full(b, h, r);
        assert(r.push(p) =~= ps);
        lemma_cnt_done_push_ps(h, r, p);
        assert(!r.contains(p)) by {
            if r.contains(p) {
                let i = choose|i: int| 0 <= i < r.len() && r[i] == p;
                assert(ps[i] == ps[ps.len() - 1]);
            }
        }
        if h.contains(p) {
            let k = choose|k: int| 0 <= k < h.len() && h[k] == p;
            assert(contains_hash(b, h[k]));
        }
    }
}


/// `x` orders strictly before `y`: lower clock value, or equal clock value
/// and lower author id.
pub open spec fn clock_before(x: DagEntryV, y: DagEntryV) -> bool {
    x.hlc < y.hlc || (x.hlc == y.hlc && bytes_lt(x.device_id.0@, y.device_id.0@))
}

pub proof fn lemma_bytes_lt_trans(a: Seq<u8>, b: Seq<u8>, c: Seq<u8>)
    requires
        a.len() == b.len() == c.len(),
        bytes_lt(a, b),
        bytes_lt(b, c),
    ensures
        bytes_lt(a, c),
{
    let k1 = choose|k: int|
        0 <= k < a.len() && k < b.len() && a[k] < b[k] && forall|j: int| 0 <= j < k ==> a[j] == b[j];
    let k2 = choose|k: int|
        0 <= k < b.len() && k < c.len() && b[k] < c[k] && forall|j: int| 0 <= j < k ==> b[j] == c[j];
    let k = if k1 < k2 {
        k1
    } else {
        k2
    };
    assert(a[k] < c[k]);
    assert(forall|j: int| 0 <= j < k ==> a[j] == c[j]);
}

pub proof fn lemma_clock_before_trans(x: DagEntryV, y: DagEntryV, z: DagEntryV)
    requires
        clock_before(x, y),
        clock_before(y, z),
    ensures
        clock_before(x, z),
{
    if x.hlc == y.hlc && y.hlc == z.hlc {
        lemma_bytes_lt_trans(x.device_id.0@, y.device_id.0@, z.device_id.0@);
    }
}

fn entry_before(x: &DagEntry, y: &DagEntry) -> (res: bool)
    ensures
        res == clock_before(x@, y@),
{
    x.hlc < y.hlc || (x.hlc == y.hlc && bytes32_lt(&x.device_id.0, &y.device_id.0))
}

/// No element occurs twice.
pub open spec fn distinct_idx(s: Seq<usize>) -> bool {
    forall|i: int, j: int| 0 <= i < j < s.len() ==> s[i] != s[j]
}

/// Orders positions of `b` by clock value then author, keeping the order
/// of equal keys.
fn sort_by_clock(idx: &Vec<usize>, b: &Vec<DagEntry>) -> (res: Vec<usize>)
    requires
        forall|k: int| 0 <= k < idx@.len() ==> idx@[k] < b@.len(),
        distinct_idx(idx@),
    ensures
        res@.len() == idx@.len(),
        forall|x: usize| res@.contains(x) <==> idx@.contains(x),
        distinct_idx(res@),
        forall|i: int, j: int|
            0 <= i < j < res@.len() ==> !clock_before(b@[res@[j] as int]@, b@[res@[i] as int]@),
{
    let mut res: Vec<usize> = Vec::new();
    let mut k: usize = 0;
    while k < idx.len()
        invariant
            k <= idx@.len(),
            forall|m: int| 0 <= m < idx@.len() ==> idx@[m] < b@.len(),
            distinct_idx(idx@),
            res@.len() == k,
            forall|x: usize| res@.contains(x) <==> idx@.subrange(0, k as int).contains(x),
            distinct_idx(res@),
            forall|m: int| 0 <= m < res@.len() ==> res@[m] < b@.len(),
            forall|i: int, j: int|
                0 <= i < j < res@.len() ==> !clock_before(b@[res@[j] as int]@, b@[res@[i] as int]@),
        decreases idx@.len() - k,
    {
        let x = idx[k];
        let mut p: usize = 0;
        while p < res.len() && !entry_before(&b[x], &b[res[p]])
            invariant
                p <= res@.len(),
                x < b@.len(),
                forall|m: int| 0 <= m < res@.len() ==> res@[m] < b@.len(),
                forall|i: int| 0 <= i < p ==> !clock_before(b@[x as int]@, b@[res@[i] as int]@),
            decreases res@.len() - p,
        {
            p = p + 1;
        }
        let ghost old_res = res@;
        assert(!old_res.contains(x)) by {
            if old_res.contains(x) {
                let m = choose|m: int| 0 <= m < k && #[trigger] idx@.subrange(0, k as int)[m] == x;
                assert(idx@[m] == idx@[k as int]);
            }
        }
        res.insert(p, x);
        proof {
            assert(res@ == old_res.insert(p as int, x));
            assert forall|y: usize| res@.contains(y) <==> idx@.subrange(0, k + 1).contains(y) by {
                if res@.contains(y) {
                    let m = choose|m: int| 0 <= m < res@.len() && res@[m] == y;
                    if m < p {
                        assert(old_res[m] == y);
                    } else if m > p {
                        assert(old_res[m - 1] == y);
                    }
                    if y != x {
                        assert(old_res.contains(y));
                        let m2 = choose|m2: int| 0 <= m2 < k && #[trigger] idx@.subrange(0, k as int)[m2] == y;
                        assert(idx@.subrange(0, k + 1)[m2] == y);
                    } else {
                        assert(idx@.subrange(0, k + 1)[k as int] == y);
                    }
                }
                if idx@.subrange(0, k + 1).contains(y) {
                    let m = choose|m: int| 0 <= m < k + 1 && #[trigger] idx@.subrange(0, k + 1)[m] == y;
                    if m < k {
                        assert(idx@.subrange(0, k as int)[m] == y);
                        assert(old_res.contains(y));
                        let m2 = choose|m2: int| 0 <= m2 < old_res.len() && old_res[m2] == y;
                        if m2 < p {
                            assert(res@[m2] == y);
                        } else {
                            assert(res@[m2 + 1] == y);
                        }
                    } else {
                        assert(res@[p as int] == y);
                    }
                }
            }
            assert forall|i: int, j: int| 0 <= i < j < res@.len() implies res@[i] != res@[j] by {
                if i < p && j < p {
                } else if i < p && j == p {
                    assert(old_res.contains(old_res[i]));
                } else if i < p && j > p {
                    assert(res@[j] == old_res[j - 1]);
                } else if i == p {
                    assert(res@[j] == old_res[j - 1]);
                    assert(old_res.contains(old_res[j - 1]));
                } else {
                    assert(res@[i] == old_res[i - 1]);
                    assert(res@[j] == old_res[j - 1]);
                }
            }
            assert forall|i: int, j: int|
                0 <= i < j < res@.len() implies !clock_before(b@[res@[j] as int]@, b@[res@[i] as int]@) by {
                if i < p && j < p {
                    assert(res@[i] == old_res[i] && res@[j] == old_res[j]);
                } else if i < p && j == p {
                    assert(res@[i] == old_res[i]);
                } else if i < p && j > p {
                    assert(res@[i] == old_res[i] && res@[j] == old_res[j - 1]);
                } else if i == p {
                    assert(res@[j] == old_res[j - 1]);
                    assert(p < old_res.len());
                    assert(clock_before(b@[x as int]@, b@[old_res[p as int] as int]@));
                    if clock_before(b@[res@[j] as int]@, b@[x as int]@) {
                        lemma_clock_before_trans(
                            b@[res@[j] as int]@,
                            b@[x as int]@,
                            b@[old_res[p as int] as int]@,
                        );
                    }
                } else {
                    assert(res@[i] == old_res[i - 1] && res@[j] == old_res[j - 1]);
                }
            }
        }
        k = k + 1;
    }
    assert(idx@.subrange(0, idx@.len() as int) =~= idx@);
    res
}


/// The values of a vector of entries.
pub open spec fn views(s: Seq<DagEntry>) -> Seq<DagEntryV> {
    s.map_values(|e: DagEntry| e@)
}

/// The batch a sequence of entries collapses to when keyed by hash: each
/// hash once, holding the last entry given with it.
pub open spec fn batch_of(s: Seq<DagEntryV>) -> Seq<DagEntryV>
    decreases s.len(),
{
    if s.len() == 0 {
        Seq::empty()
    } else {
        store(batch_of(s.drop_last()), s.last())
    }
}

/// Keying by hash keeps no hash twice, draws every entry from the input
/// and keeps every hash of it.
pub proof fn lemma_batch_of(s: Seq<DagEntryV>)
    ensures
        distinct_hashes(batch_of(s)),
        forall|x: DagEntryV| batch_of(s).contains(x) ==> s.contains(x),
        forall|h: [u8; 32]| contains_hash(batch_of(s), h) <==> contains_hash(s, h),
    decreases s.len(),
{
    if s.len() > 0 {
        let r = s.drop_last();
        let e = s.last();
        let br = batch_of(r);
        lemma_batch_of(r);
        crate::dag::lemma_store(br, e);
        assert forall|x: DagEntryV| batch_of(s).contains(x) implies s.contains(x) by {
            let k = choose|k: int| 0 <= k < batch_of(s).len() && batch_of(s)[k] == x;
            if x != e {
                if contains_hash(br, e.hash) {
                    assert(br[k] == x);
                } else {
                    assert(br.push(e)[k] == x);
                    assert(k < br.len());
                    assert(br[k] == x);
                }
                assert(br.contains(x));
                assert(r.contains(x));
                let m = choose|m: int| 0 <= m < r.len() && r[m] == x;
                assert(s[m] == x);
            } else {
                assert(s[s.len() - 1] == x);
            }
        }
        assert forall|h: [u8; 32]| contains_hash(batch_of(s), h) <==> contains_hash(s, h) by {
            if contains_hash(s, h) {
                let m = choose|m: int| 0 <= m < s.len() && s[m].hash == h;
                if m < s.len() - 1 {
                    assert(r[m].hash == h);
                }
            }
            if contains_hash(r, h) {
                let m = choose|m: int| 0 <= m < r.len() && r[m].hash == h;
                assert(s[m].hash == h);
            }
        }
    }
}

/// Keying a sequence with no repeated hash by hash leaves it as it is.
pub proof fn lemma_batch_of_distinct(s: Seq<DagEntryV>)
    requires
        distinct_hashes(s),
    ensures
        batch_of(s) == s,
    decreases s.len(),
{
    if s.len() > 0 {
        let r = s.drop_last();
        assert(distinct_hashes(r));
        lemma_batch_of_distinct(r);
        assert(!contains_hash(r, s.last().hash)) by {
            if contains_hash(r, s.last().hash) {
                let m = choose|m: int| 0 <= m < r.len() && r[m].hash == s.last().hash;
                assert(s[m].hash != s[s.len() - 1].hash);
            }
        }
        assert(r.push(s.last()) =~= s);
    }
}

/// An ordering drawn from the batch without repeats and as long as it
/// holds every hash of the batch.
pub proof fn lemma_topo_complete(b: Seq<DagEntryV>, out: Seq<DagEntryV>)
    requires
        distinct_hashes(b),
        topo_ordered(b, out),
        out.len() == b.len(),
    ensures
        forall|h: [u8; 32]| contains_hash(b, h) ==> contains_hash(out, h),
{
    broadcast use vstd::seq_lib::seq_to_set_is_finite;
    let ho = out.map_values(|e: DagEntryV| e.hash);
    let hb = b.map_values(|e: DagEntryV| e.hash);
    assert(ho.no_duplicates()) by {
        assert forall|i: int, j: int| 0 <= i < ho.len() && 0 <= j < ho.len() && i != j implies ho[i] != ho[j] by {
            if i < j {
                assert(out[i].hash != out[j].hash);
            } else {
                assert(out[j].hash != out[i].hash);
            }
        }
    }
    assert(hb.no_duplicates()) by {
        assert forall|i: int, j: int| 0 <= i < hb.len() && 0 <= j < hb.len() && i != j implies hb[i] != hb[j] by {
            if i < j {
                assert(b[i].hash != b[j].hash);
            } else {
                assert(b[j].hash != b[i].hash);
            }
        }
    }
    ho.unique_seq_to_set();
    hb.unique_seq_to_set();
    assert forall|h: [u8; 32]| contains_hash(b, h) implies contains_hash(out, h) by {
        if !contains_hash(out, h) {
            let m = choose|m: int| 0 <= m < b.len() && b[m].hash == h;
            assert(hb[m] == h);
            assert(hb.to_set().contains(h));
            assert(ho.to_set().subset_of(hb.to_set().remove(h))) by {
                assert forall|x: [u8; 32]| ho.to_set().contains(x) implies hb.to_set().remove(h).contains(x) by {
                    let k = choose|k: int| 0 <= k < ho.len() && ho[k] == x;
                    assert(out[k].hash == x);
                    assert(b.contains(out[k]));
                    let c = choose|c: int| 0 <= c < b.len() && b[c] == out[k];
                    assert(hb[c] == x);
                }
            }
            lemma_len_subset(ho.to_set(), hb.to_set().remove(h));
        }
    }
}

/// The hashes of the batch entries at positions `q`.
pub open spec fn pos_hashes(b: Seq<DagEntryV>, q: Seq<usize>) -> Seq<[u8; 32]> {
    q.map_values(|i: usize| b[i as int].hash)
}

/// `out` is drawn from `b` without repeats and lists every parent that is
/// in `b` before the entry that names it.
pub open spec fn topo_ordered(b: Seq<DagEntryV>, out: Seq<DagEntryV>) -> bool {
    &&& distinct_hashes(out)
    &&& forall|k: int| 0 <= k < out.len() ==> b.contains(#[trigger] out[k])
    &&& forall|a: int, j: int|
        0 <= a < out.len() && 0 <= j < out[a].parents.len() && contains_hash(b, #[trigger] out[a].parents[j])
            ==> exists|c: int| 0 <= c < a && out[c].hash == out[a].parents[j]
}

/// `rank` strictly increases from every in-batch parent to its child.
pub open spec fn ranked(b: Seq<DagEntryV>, rank: spec_fn([u8; 32]) -> nat) -> bool {
    forall|i: int, j: int|
        0 <= i < b.len() && 0 <= j < b[i].parents.len() && contains_hash(b, b[i].parents[j])
            ==> rank(b[i].parents[j]) < rank(b[i].hash)
}

/// `e` names no parent that is in `b`.
pub open spec fn is_root(b: Seq<DagEntryV>, e: DagEntryV) -> bool {
    forall|j: int| 0 <= j < e.parents.len() ==> !contains_hash(b, #[trigger] e.parents[j])
}

/// The first `z` entries of `out` are exactly the roots of `b`, each root
/// of `b` among them, ordered by clock value then author.
pub open spec fn roots_first(b: Seq<DagEntryV>, out: Seq<DagEntryV>, z: int) -> bool {
    &&& 0 <= z <= out.len()
    &&& forall|k: int| 0 <= k < out.len() ==> (k < z <==> is_root(b, #[trigger] out[k]))
    &&& forall|i: int, j: int| 0 <= i < j < z ==> !clock_before(#[trigger] out[j], #[trigger] out[i])
    &&& forall|k: int|
        0 <= k < b.len() && is_root(b, #[trigger] b[k]) ==> exists|m: int| 0 <= m < z && out[m] == b[k]
}

proof fn lemma_cnt_occ_zero(b: Seq<DagEntryV>, ps: Seq<[u8; 32]>)
    ensures
        cnt_occ(b, ps) == 0 <==> forall|j: int| 0 <= j < ps.len() ==> !contains_hash(b, #[trigger] ps[j]),
    decreases ps.len(),
{
    if ps.len() > 0 {
        let r = ps.drop_last();
        lemma_cnt_occ_zero(b, r);
        assert forall|j: int| 0 <= j < r.len() implies r[j] == ps[j] by {}
        if cnt_occ(b, ps) == 0 {
            assert forall|j: int| 0 <= j < ps.len() implies !contains_hash(b, #[trigger] ps[j]) by {
                if j < r.len() {
                    assert(r[j] == ps[j]);
                }
            }
        }
        if forall|j: int| 0 <= j < ps.len() ==> !contains_hash(b, #[trigger] ps[j]) {
            assert(!contains_hash(b, ps[ps.len() - 1]));
            assert forall|j: int| 0 <= j < r.len() implies !contains_hash(b, #[trigger] r[j]) by {
                assert(r[j] == ps[j]);
            }
        }
    }
}

/// An entry is a root exactly when none of its distinct parents is in the batch.
proof fn lemma_root_count(b: Seq<DagEntryV>, e: DagEntryV)
    ensures
        is_root(b, e) <==> cnt_occ(b, dedup32(e.parents)) == 0,
{
    let d = dedup32(e.parents);
    lemma_dedup32(e.parents);
    lemma_cnt_occ_zero(b, d);
    if is_root(b, e) {
        assert forall|j: int| 0 <= j < d.len() implies !contains_hash(b, #[trigger] d[j]) by {
            assert(d.contains(d[j]));
            assert(e.parents.contains(d[j]));
            let m = choose|m: int| 0 <= m < e.parents.len() && e.parents[m] == d[j];
        }
    }
    if cnt_occ(b, d) == 0 {
        assert forall|j: int| 0 <= j < e.parents.len() implies !contains_hash(b, #[trigger] e.parents[j]) by {
            assert(e.parents.contains(e.parents[j]));
            assert(d.contains(e.parents[j]));
            let m = choose|m: int| 0 <= m < d.len() && d[m] == e.parents[j];
        }
    }
}

/// A distinct sequence of positions below `n` has at most `n` elements,
/// and exactly `n` when it holds them all.
proof fn lemma_positions_len(s: Seq<usize>, n: nat)
    requires
        distinct_idx(s),
        forall|k: int| 0 <= k < s.len() ==> s[k] < n,
        n <= usize::MAX,
    ensures
        s.len() <= n,
        (forall|i: usize| i < n ==> s.contains(i)) ==> s.len() == n,
{
    let t = s.map_values(|x: usize| x as int);
    assert(t.no_duplicates()) by {
        assert forall|i: int, j: int| 0 <= i < t.len() && 0 <= j < t.len() && i != j implies t[i] != t[j] by {
            if i < j {
                assert(s[i] != s[j]);
            } else {
                assert(s[j] != s[i]);
            }
        }
    }
    t.unique_seq_to_set();
    lemma_int_range(0, n as int);
    assert(t.to_set().subset_of(set_int_range(0, n as int)));
    lemma_len_subset(t.to_set(), set_int_range(0, n as int));
    if forall|i: usize| i < n ==> s.contains(i) {
        assert(set_int_range(0, n as int).subset_of(t.to_set())) by {
            assert forall|x: int| set_int_range(0, n as int).contains(x) implies t.to_set().contains(x) by {
                assert(s.contains(x as usize));
                let k = choose|k: int| 0 <= k < s.len() && s[k] == x as usize;
                assert(t[k] == x);
            }
        }
        lemma_len_subset(set_int_range(0, n as int), t.to_set());
    }
}

proof fn lemma_pos_hashes_distinct(b: Seq<DagEntryV>, q: Seq<usize>)
    requires
        distinct_hashes(b),
        distinct_idx(q),
        forall|k: int| 0 <= k < q.len() ==> q[k] < b.len(),
    ensures
        distinct32(pos_hashes(b, q)),
        all_in(b, pos_hashes(b, q)),
{
    assert forall|i: int, j: int| 0 <= i < j < q.len() implies pos_hashes(b, q)[i] != pos_hashes(b, q)[j] by {
        let x = q[i] as int;
        let y = q[j] as int;
        if x < y {
            assert(b[x].hash != b[y].hash);
        } else {
            assert(b[y].hash != b[x].hash);
        }
    }
    assert forall|k: int| 0 <= k < pos_hashes(b, q).len() implies contains_hash(b, #[trigger] pos_hashes(b, q)[k]) by {
        assert(b[q[k] as int].hash == pos_hashes(b, q)[k]);
    }
}

/// Position in `b` of the entry with hash `h`.
fn find_in(b: &Vec<DagEntry>, h: &[u8; 32]) -> (res: Option<usize>)
    ensures
        match res {
            Some(i) => i < b@.len() && b@[i as int].hash == *h,
            None => !contains_hash(views(b@), *h),
        },
{
    let mut i: usize = 0;
    while i < b.len()
        invariant
            i <= b@.len(),
            forall|j: int| 0 <= j < i ==> b@[j].hash != *h,
        decreases b@.len() - i,
    {
        if bytes32_eq(&b[i].hash, h) {
            return Some(i);
        }
        i = i + 1;
    }
    proof {
        if contains_hash(views(b@), *h) {
            let j = choose|j: int| 0 <= j < views(b@).len() && views(b@)[j].hash == *h;
            assert(b@[j].hash == *h);
        }
    }
    None
}

/// Whether `ps` contains `h`.
pub(crate) fn list_contains(ps: &Vec<[u8; 32]>, h: &[u8; 32]) -> (res: bool)
    ensures
        res == ps@.contains(*h),
{
    let mut i: usize = 0;
    while i < ps.len()
        invariant
            i <= ps@.len(),
            forall|j: int| 0 <= j < i ==> ps@[j] != *h,
        decreases ps@.len() - i,
    {
        if bytes32_eq(&ps[i], h) {
            assert(ps@[i as int] == *h);
            return true;
        }
        i = i + 1;
    }
    false
}

/// Number of positions of `ps` holding the hash of an entry of `b`.
fn count_in_batch(b: &Vec<DagEntry>, ps: &Vec<[u8; 32]>) -> (res: usize)
    ensures
        res == cnt_occ(views(b@), ps@),
{
    let mut c: usize = 0;
    let mut i: usize = 0;
    while i < ps.len()
        invariant
            i <= ps@.len(),
            c == cnt_occ(views(b@), ps@.subrange(0, i as int)),
            c <= i,
        decreases ps@.len() - i,
    {
        assert(ps@.subrange(0, i + 1).drop_last() =~= ps@.subrange(0, i as int));
        if find_in(b, &ps[i]).is_some() {
            proof {
                let k = choose|k: int| 0 <= k < b@.len() && b@[k].hash == ps@[i as int];
                assert(views(b@)[k].hash == ps@[i as int]);
            }
            c = c + 1;
        }
        i = i + 1;
    }
    assert(ps@.subrange(0, ps@.len() as int) =~= ps@);
    c
}

/// Stores `e` into `b`, replacing an entry with the same hash.
fn store_into(b: &mut Vec<DagEntry>, e: DagEntry)
    requires
        distinct_hashes(views(old(b)@)),
    ensures
        views(final(b)@) == store(views(old(b)@), e@),
        distinct_hashes(views(final(b)@)),
{
    let ghost s = views(b@);
    proof { crate::dag::lemma_store(s, e@); }
    match find_in(b, &e.hash) {
        Some(i) => {
            assert(s[i as int].hash == e.hash);
            assert(hash_pos(s, e.hash) == i as int) by {
                let k = hash_pos(s, e.hash);
                assert(s[k].hash == e.hash);
            }
            b.set(i, e);
            assert(views(b@) =~= store(s, e@));
        },
        None => {
            b.push(e);
            assert(views(b@) =~= store(s, e@));
        },
    }
}


/// The elements of `s` in order, each kept at its first occurrence.
pub open spec fn dedup32(s: Seq<[u8; 32]>) -> Seq<[u8; 32]>
    decreases s.len(),
{
    if s.len() == 0 {
        Seq::empty()
    } else if dedup32(s.drop_last()).contains(s.last()) {
        dedup32(s.drop_last())
    } else {
        dedup32(s.drop_last()).push(s.last())
    }
}

pub proof fn lemma_dedup32(s: Seq<[u8; 32]>)
    ensures
        distinct32(dedup32(s)),
        forall|x: [u8; 32]| dedup32(s).contains(x) <==> s.contains(x),
    decreases s.len(),
{
    if s.len() > 0 {
        let r = s.drop_last();
        let d = dedup32(r);
        lemma_dedup32(r);
        assert forall|x: [u8; 32]| s.contains(x) <==> (r.contains(x) || x == s.last()) by {
            lemma_seq_push_contains(r, s.last(), x);
            assert(r.push(s.last()) =~= s);
        }
        assert forall|x: [u8; 32]| d.push(s.last()).contains(x) <==> (d.contains(x) || x == s.last()) by {
            lemma_seq_push_contains(d, s.last(), x);
        }
        if !d.contains(s.last()) {
            assert forall|i: int, j: int| 0 <= i < j < d.push(s.last()).len() implies d.push(s.last())[i]
                != d.push(s.last())[j] by {
                if j == d.len() {
                    assert(d.contains(d[i]));
                }
            }
        }
    }
}

/// The hashes of `p`, each kept at its first occurrence.
fn dedup_hashes(p: &Vec<[u8; 32]>) -> (res: Vec<[u8; 32]>)
    ensures
        res@ == dedup32(p@),
{
    let mut out: Vec<[u8; 32]> = Vec::new();
    let mut i: usize = 0;
    assert(p@.subrange(0, 0) =~= Seq::<[u8; 32]>::empty());
    while i < p.len()
        invariant
            i <= p@.len(),
            out@ == dedup32(p@.subrange(0, i as int)),
        decreases p@.len() - i,
    {
        assert(p@.subrange(0, i + 1).drop_last() =~= p@.subrange(0, i as int));
        if !list_contains(&out, &p[i]) {
            out.push(p[i]);
        }
        i = i + 1;
    }
    assert(p@.subrange(0, p@.len() as int) =~= p@);
    out
}

/// The bookkeeping of Kahn's algorithm over the batch `b`: `deg` holds, for
/// each batch entry, its in-batch parent positions not yet accounted for by
/// the processed prefix `queue[..head]`; an entry is queued exactly when
/// that number is zero; processed entries have their in-batch parents
/// earlier in the queue, and pending ones have them processed.
pub open spec fn kahn_inv(b: Seq<DagEntryV>, deg: Seq<usize>, queue: Seq<usize>, head: int) -> bool {
    let h = pos_hashes(b, queue.take(head));
    &&& distinct_hashes(b)
    &&& b.len() <= usize::MAX
    &&& deg.len() == b.len()
    &&& distinct_idx(queue)
    &&& forall|k: int| 0 <= k < queue.len() ==> #[trigger] queue[k] < b.len()
    &&& 0 <= head <= queue.len()
    &&& forall|i: int|
        0 <= i < b.len() ==> #[trigger] deg[i] as int == cnt_occ(b, dedup32(b[i].parents)) - cnt_done(
            h,
            dedup32(b[i].parents),
        )
    &&& forall|i: usize| i < b.len() ==> ((#[trigger] deg[i as int] == 0) <==> queue.contains(i))
    &&& forall|a: int, j: int|
        0 <= a < head && 0 <= j < dedup32(b[queue[a] as int].parents).len() && contains_hash(
            b,
            #[trigger] dedup32(b[queue[a] as int].parents)[j],
        ) ==> exists|c: int| 0 <= c < a && b[queue[c] as int].hash == dedup32(b[queue[a] as int].parents)[j]
    &&& forall|a: int, j: int|
        head <= a < queue.len() && 0 <= j < dedup32(b[queue[a] as int].parents).len() && contains_hash(
            b,
            #[trigger] dedup32(b[queue[a] as int].parents)[j],
        ) ==> h.contains(dedup32(b[queue[a] as int].parents)[j])
}

proof fn lemma_queue_hash(b: Seq<DagEntryV>, queue: Seq<usize>, c: int, d: int)
    requires
        distinct_hashes(b),
        distinct_idx(queue),
        forall|k: int| 0 <= k < queue.len() ==> #[trigger] queue[k] < b.len(),
        0 <= c < queue.len(),
        0 <= d < queue.len(),
        b[queue[c] as int].hash == b[queue[d] as int].hash,
    ensures
        c == d,
{
    let x = queue[c] as int;
    let y = queue[d] as int;
    if x != y {
        if x < y {
            assert(b[x].hash != b[y].hash);
        } else {
            assert(b[y].hash != b[x].hash);
        }
    }
    if c != d {
        if c < d {
            assert(queue[c] != queue[d]);
        } else {
            assert(queue[d] != queue[c]);
        }
    }
}

/// An entry naming the entry being processed as a parent is not yet queued.
proof fn lemma_no_underflow(b: Seq<DagEntryV>, deg: Seq<usize>, queue: Seq<usize>, head: int, j: int)
    requires
        kahn_inv(b, deg, queue, head),
        head < queue.len(),
        0 <= j < b.len(),
        dedup32(b[j].parents).contains(b[queue[head] as int].hash),
    ensures
        deg[j] > 0,
{
    let q = queue[head] as int;
    let p = b[q].hash;
    let h = pos_hashes(b, queue.take(head));
    if deg[j] == 0 {
        assert(deg[(j as usize) as int] == 0);
        assert(queue.contains(j as usize));
        let a = choose|a: int| 0 <= a < queue.len() && queue[a] == j as usize;
        let jj = choose|jj: int| 0 <= jj < dedup32(b[j].parents).len() && dedup32(b[j].parents)[jj] == p;
        assert(b[q].hash == p);
        assert(contains_hash(b, dedup32(b[queue[a] as int].parents)[jj]));
        if a < head {
            let c = choose|c: int| 0 <= c < a && b[queue[c] as int].hash == dedup32(b[queue[a] as int].parents)[jj];
            lemma_queue_hash(b, queue, c, head);
        } else {
            assert(h.contains(p));
            let c = choose|c: int| 0 <= c < h.len() && h[c] == p;
            assert(h[c] == b[queue[c] as int].hash);
            lemma_queue_hash(b, queue, c, head);
        }
    }
}

/// When the queue has been worked through, every entry whose ancestry in
/// the batch is ranked is queued.
proof fn lemma_kahn_complete_rank(
    b: Seq<DagEntryV>,
    deg: Seq<usize>,
    queue: Seq<usize>,
    rank: spec_fn([u8; 32]) -> nat,
    r: nat,
)
    requires
        kahn_inv(b, deg, queue, queue.len() as int),
        ranked(b, rank),
    ensures
        forall|i: int| 0 <= i < b.len() && rank(b[i].hash) <= r ==> queue.contains(i as usize),
    decreases r,
{
    let h = pos_hashes(b, queue.take(queue.len() as int));
    assert(queue.take(queue.len() as int) =~= queue);
    if r > 0 {
        lemma_kahn_complete_rank(b, deg, queue, rank, (r - 1) as nat);
    }
    assert forall|i: int| 0 <= i < b.len() && rank(b[i].hash) <= r implies queue.contains(i as usize) by {
        if !queue.contains(i as usize) {
            assert(deg[(i as usize) as int] != 0);
            lemma_pos_hashes_distinct(b, queue);
            let ps = dedup32(b[i].parents);
            lemma_dedup32(b[i].parents);
            assert(distinct32(ps));
            if forall|j: int| 0 <= j < ps.len() && contains_hash(b, ps[j]) ==> h.contains(ps[j]) {
                lemma_cnt_full(b, h, ps);
            } else {
                let j = choose|j: int| 0 <= j < ps.len() && contains_hash(b, ps[j]) && !h.contains(ps[j]);
                let k = choose|k: int| 0 <= k < b.len() && b[k].hash == ps[j];
                assert(ps.contains(ps[j]));
                assert(b[i].parents.contains(ps[j]));
                let jj = choose|jj: int| 0 <= jj < b[i].parents.len() && b[i].parents[jj] == ps[j];
                assert(rank(b[i].parents[jj]) < rank(b[i].hash));
                assert(queue.contains(k as usize));
                let c = choose|c: int| 0 <= c < queue.len() && queue[c] == k as usize;
                assert(h[c] == b[k].hash);
            }
        }
    }
}

/// Orders a batch of entries so that parents come before children (Kahn's
/// algorithm). Entries are first keyed by hash, the last of equal hashes
/// kept. Entries ready at the same time are taken in order of clock value,
/// then author. An entry on a cycle within the batch, or below one, is left
/// out; when the batch has no cycle every entry is in the result.
pub fn topological_sort(entries: Vec<DagEntry>) -> (res: Result<Vec<DagEntry>, DagError>)
    ensures
        res is Ok,
        res matches Ok(out) ==> topo_ordered(batch_of(views(entries@)), views(out@)),
        res matches Ok(out) ==> ((exists|rank: spec_fn([u8; 32]) -> nat|
            ranked(batch_of(views(entries@)), rank)) ==> out@.len() == batch_of(views(entries@)).len()),
        res matches Ok(out) ==> exists|z: int| roots_first(batch_of(views(entries@)), views(out@), z),
{
    let ghost input = views(entries@);
    let mut b: Vec<DagEntry> = Vec::new();
    let mut i: usize = 0;
    assert(input.subrange(0, 0) =~= Seq::<DagEntryV>::empty());
    assert(views(b@) =~= Seq::<DagEntryV>::empty());
    while i < entries.len()
        invariant
            i <= entries@.len(),
            input == views(entries@),
            views(b@) == batch_of(input.subrange(0, i as int)),
            distinct_hashes(views(b@)),
        decreases entries@.len() - i,
    {
        assert(input.subrange(0, i + 1).drop_last() =~= input.subrange(0, i as int));
        let e = entries[i].duplicate();
        store_into(&mut b, e);
        i = i + 1;
    }
    assert(input.subrange(0, input.len() as int) =~= input);
    let ghost bv = views(b@);
    let n = b.len();
    let mut deg: Vec<usize> = Vec::new();
    let mut seeds: Vec<usize> = Vec::new();
    let mut dp: Vec<Vec<[u8; 32]>> = Vec::new();
    let mut i: usize = 0;
    while i < n
        invariant
            n == b@.len(),
            bv == views(b@),
            i <= n,
            deg@.len() == i,
            dp@.len() == i,
            forall|k: int| 0 <= k < i ==> #[trigger] dp@[k]@ == dedup32(bv[k].parents),
            forall|k: int| 0 <= k < i ==> #[trigger] deg@[k] as int == cnt_occ(bv, dedup32(bv[k].parents)),
            distinct_idx(seeds@),
            forall|k: int| 0 <= k < seeds@.len() ==> #[trigger] seeds@[k] < i,
            forall|k: usize| k < i ==> ((#[trigger] deg@[k as int] == 0) <==> seeds@.contains(k)),
        decreases n - i,
    {
        let dpi = dedup_hashes(&b[i].parents);
        assert(b@[i as int].parents@ == bv[i as int].parents);
        let c = count_in_batch(&b, &dpi);
        let ghost dp_prev = dp@;
        dp.push(dpi);
        assert forall|k: int| 0 <= k < i + 1 implies #[trigger] dp@[k]@ == dedup32(bv[k].parents) by {
            if k < i {
                assert(dp@[k] == dp_prev[k]);
            }
        }
        let ghost deg_prev = deg@;
        let ghost seeds_prev = seeds@;
        deg.push(c);
        if c == 0 {
            proof {
                assert(!seeds_prev.contains(i)) by {
                    if seeds_prev.contains(i) {
                        let k = choose|k: int| 0 <= k < seeds_prev.len() && seeds_prev[k] == i;
                    }
                }
            }
            seeds.push(i);
        }
        proof {
            assert forall|k: usize| k < i + 1 implies ((#[trigger] deg@[k as int] == 0) <==> seeds@.contains(k)) by {
                lemma_seq_push_contains(seeds_prev, i, k);
                if seeds_prev.contains(k) {
                    let m = choose|m: int| 0 <= m < seeds_prev.len() && seeds_prev[m] == k;
                    assert(seeds_prev[m] < i);
                }
                if k < i {
                    assert(deg@[k as int] == deg_prev[k as int]);
                    assert((deg_prev[k as int] == 0) <==> seeds_prev.contains(k));
                }
            }
            assert forall|k: int| 0 <= k < i + 1 implies #[trigger] deg@[k] as int == cnt_occ(bv, dedup32(bv[k].parents)) by {
                if k < i {
                    assert(deg@[k] == deg_prev[k]);
                }
            }
        }
        i = i + 1;
    }
    let ghost deg_init = deg@;
    let mut queue = sort_by_clock(&seeds, &b);
    let ghost q_init = queue@;
    let ghost z = q_init.len() as int;
    let mut head: usize = 0;
    let mut out: Vec<DagEntry> = Vec::new();
    proof {
        assert forall|k: int| 0 <= k < z implies is_root(bv, #[trigger] bv[q_init[k] as int]) by {
            let x = q_init[k];
            assert(q_init.contains(x));
            assert(seeds@.contains(x));
            let m = choose|m: int| 0 <= m < seeds@.len() && seeds@[m] == x;
            assert(deg_init[x as int] == 0);
            lemma_root_count(bv, bv[x as int]);
        }
        assert forall|i: int, j: int| 0 <= i < j < z implies !clock_before(
            #[trigger] bv[q_init[j] as int],
            #[trigger] bv[q_init[i] as int],
        ) by {
            assert(q_init.contains(q_init[j]) && q_init.contains(q_init[i]));
            assert(seeds@.contains(q_init[j]) && seeds@.contains(q_init[i]));
            let mj = choose|m: int| 0 <= m < seeds@.len() && seeds@[m] == q_init[j];
            let mi = choose|m: int| 0 <= m < seeds@.len() && seeds@[m] == q_init[i];
            assert(b@[q_init[j] as int]@ == bv[q_init[j] as int]);
            assert(b@[q_init[i] as int]@ == bv[q_init[i] as int]);
        }
        assert forall|x: usize| x < n && is_root(bv, #[trigger] bv[x as int]) implies q_init.contains(x) by {
            lemma_root_count(bv, bv[x as int]);
            assert(deg_init[x as int] == 0);
            assert(seeds@.contains(x));
        }
    }
    proof {
        let h0 = pos_hashes(bv, queue@.take(0));
        assert(queue@.take(0) =~= Seq::<usize>::empty());
        assert(h0 =~= Seq::<[u8; 32]>::empty());
        assert(distinct32(h0));
        assert(all_in(bv, h0));
        assert forall|k: int| 0 <= k < queue@.len() implies #[trigger] queue@[k] < bv.len() by {
            assert(queue@.contains(queue@[k]));
            assert(seeds@.contains(queue@[k]));
            let m = choose|m: int| 0 <= m < seeds@.len() && seeds@[m] == queue@[k];
        }
        assert forall|k: int| 0 <= k < bv.len() implies #[trigger] deg@[k] as int == cnt_occ(bv, dedup32(bv[k].parents))
            - cnt_done(h0, dedup32(bv[k].parents)) by {
            lemma_cnt_done_empty_h(dedup32(bv[k].parents));
        }
        assert forall|i: usize| i < bv.len() implies ((#[trigger] deg@[i as int] == 0) <==> queue@.contains(i)) by {
            assert(seeds@.contains(i) <==> queue@.contains(i));
        }
        assert forall|a: int, j: int|
            0 <= a < queue@.len() && 0 <= j < dedup32(bv[queue@[a] as int].parents).len() && contains_hash(
                bv,
                #[trigger] dedup32(bv[queue@[a] as int].parents)[j],
            ) implies h0.contains(dedup32(bv[queue@[a] as int].parents)[j]) by {
            let x = queue@[a];
            let ps = dedup32(bv[x as int].parents);
            assert(queue@.contains(x));
            assert(seeds@.contains(x));
            let m = choose|m: int| 0 <= m < seeds@.len() && seeds@[m] == x;
            assert(x < n);
            assert(deg@[x as int] == 0);
            lemma_cnt_done_empty_h(ps);
            assert(!h0.contains(ps[j]));
            lemma_cnt_bound(bv, h0, ps);
        }
        assert(kahn_inv(bv, deg@, queue@, 0));
    }
    while head < queue.len()
        invariant
            n == b@.len(),
            bv == views(b@),
            kahn_inv(bv, deg@, queue@, head as int),
            dp@.len() == n,
            forall|k: int| 0 <= k < n ==> #[trigger] dp@[k]@ == dedup32(bv[k].parents),
            out@.len() == head,
            forall|k: int| 0 <= k < head ==> #[trigger] out@[k]@ == bv[queue@[k] as int],
            z == q_init.len(),
            z <= queue@.len(),
            forall|k: int| 0 <= k < z ==> #[trigger] queue@[k] == q_init[k],
            forall|k: int| z <= k < queue@.len() ==> !is_root(bv, #[trigger] bv[queue@[k] as int]),
            forall|k: int| 0 <= k < z ==> is_root(bv, #[trigger] bv[q_init[k] as int]),
            forall|i: int, j: int| 0 <= i < j < z ==> !clock_before(
                #[trigger] bv[q_init[j] as int],
                #[trigger] bv[q_init[i] as int],
            ),
            forall|x: usize| x < n && is_root(bv, #[trigger] bv[x as int]) ==> q_init.contains(x),
        decreases n - head,
    {
        proof {
            lemma_positions_len(queue@, n as nat);
        }
        let q = queue[head];
        out.push(b[q].duplicate());
        let ghost h_old = pos_hashes(bv, queue@.take(head as int));
        let ghost h_new = pos_hashes(bv, queue@.take(head + 1));
        let ghost deg0 = deg@;
        let ghost queue0 = queue@;
        proof {
            assert(h_new =~= h_old.push(bv[q as int].hash));
            assert(h_new.drop_last() =~= h_old);
            assert(queue0.take(head + 1) =~= queue0.take(head as int).push(q));
            let qq = queue0.take(head + 1);
            assert(distinct_idx(qq));
            lemma_pos_hashes_distinct(bv, qq);
        }
        let mut children: Vec<usize> = Vec::new();
        let mut j: usize = 0;
        while j < n
            invariant
                n == b@.len(),
                bv == views(b@),
                kahn_inv(bv, deg0, queue0, head as int),
                dp@.len() == n,
                forall|k: int| 0 <= k < n ==> #[trigger] dp@[k]@ == dedup32(bv[k].parents),
                queue@ == queue0,
                head < queue0.len(),
                q == queue0[head as int],
                h_new == h_old.push(bv[q as int].hash),
                h_old == pos_hashes(bv, queue0.take(head as int)),
                h_new == pos_hashes(bv, queue0.take(head + 1)),
                distinct32(h_new),
                all_in(bv, h_new),
                j <= n,
                deg@.len() == n,
                forall|i: int| 0 <= i < j ==> #[trigger] deg@[i] as int == cnt_occ(bv, dedup32(bv[i].parents)) - cnt_done(h_new, dedup32(bv[i].parents)),
                forall|i: int| j <= i < n ==> #[trigger] deg@[i] == deg0[i],
                distinct_idx(children@),
                forall|c: int| 0 <= c < children@.len() ==> #[trigger] children@[c] < j,
                forall|c: int| 0 <= c < children@.len() ==> !queue0.contains(#[trigger] children@[c]),
                forall|c: int| 0 <= c < children@.len() ==> !is_root(bv, #[trigger] bv[children@[c] as int]),
                forall|i: usize| i < j ==> ((#[trigger] deg@[i as int] == 0) <==> (queue0.contains(i) || children@.contains(i))),
                forall|c: int, k: int|
                    0 <= c < children@.len() && 0 <= k < dedup32(bv[children@[c] as int].parents).len() && contains_hash(
                        bv,
                        #[trigger] dedup32(bv[children@[c] as int].parents)[k],
                    ) ==> h_new.contains(dedup32(bv[children@[c] as int].parents)[k]),
            decreases n - j,
        {
            let ghost ps = dedup32(bv[j as int].parents);
            proof {
                assert(h_new.drop_last() =~= h_old);
                assert(cnt_done(h_new, ps) == cnt_done(h_old, ps) + if ps.contains(bv[q as int].hash) { 1nat } else { 0nat });
                assert(deg0[j as int] as int == cnt_occ(bv, ps) - cnt_done(h_old, ps));
            }
            let ghost deg_prev = deg@;
            let ghost children_prev = children@;
            assert(dp@[j as int]@ == dedup32(bv[j as int].parents));
            if list_contains(&dp[j], &b[q].hash) {
                proof {
                    lemma_no_underflow(bv, deg0, queue0, head as int, j as int);
                }
                let d = deg[j] - 1;
                deg.set(j, d);
                if d == 0 {
                    proof {
                        assert(!queue0.contains(j)) by {
                            assert(deg0[(j as usize) as int] != 0);
                        }
                        assert(!children_prev.contains(j)) by {
                            if children_prev.contains(j) {
                                let c = choose|c: int| 0 <= c < children_prev.len() && children_prev[c] == j;
                            }
                        }
                        lemma_cnt_bound(bv, h_new, ps);
                        let hq = bv[q as int].hash;
                        assert(ps.contains(hq));
                        lemma_dedup32(bv[j as int].parents);
                        assert(bv[j as int].parents.contains(hq));
                        let m = choose|m: int| 0 <= m < bv[j as int].parents.len() && bv[j as int].parents[m] == hq;
                        assert(contains_hash(bv, bv[j as int].parents[m]));
                    }
                    children.push(j);
                }
            }
            proof {
                assert forall|i: usize| i < j + 1 implies ((#[trigger] deg@[i as int] == 0) <==> (queue0.contains(i) || children@.contains(i))) by {
                    lemma_seq_push_contains(children_prev, j, i);
                    if children_prev.contains(i) {
                        let m = choose|m: int| 0 <= m < children_prev.len() && children_prev[m] == i;
                        assert(children_prev[m] < j);
                    }
                    if i < j {
                        assert(deg@[i as int] == deg_prev[i as int]);
                        assert((deg_prev[i as int] == 0) <==> (queue0.contains(i) || children_prev.contains(i)));
                    } else {
                        assert(deg_prev[j as int] == deg0[j as int]);
                        assert((deg0[(j as usize) as int] == 0) <==> queue0.contains(j));
                    }
                }
                assert forall|i: int| 0 <= i < j + 1 implies #[trigger] deg@[i] as int == cnt_occ(bv, dedup32(bv[i].parents)) - cnt_done(h_new, dedup32(bv[i].parents)) by {
                    if i < j {
                        assert(deg@[i] == deg_prev[i]);
                    }
                }
                assert forall|i: int| j + 1 <= i < n implies #[trigger] deg@[i] == deg0[i] by {
                    assert(deg@[i] == deg_prev[i]);
                }
                assert forall|c: int| 0 <= c < children@.len() implies !is_root(bv, #[trigger] bv[children@[c] as int]) by {
                    if c < children_prev.len() {
                        assert(children@[c] == children_prev[c]);
                    }
                }
            }
            j = j + 1;
        }
        let sorted = sort_by_clock(&children, &b);
        let mut k: usize = 0;
        while k < sorted.len()
            invariant
                k <= sorted@.len(),
                queue@ == queue0 + sorted@.subrange(0, k as int),
            decreases sorted@.len() - k,
        {
            queue.push(sorted[k]);
            k = k + 1;
            assert(queue@ =~= queue0 + sorted@.subrange(0, k as int));
        }
        assert(sorted@.subrange(0, sorted@.len() as int) =~= sorted@);
        proof {
            let q1 = queue@;
            assert(q1.take(head + 1) =~= queue0.take(head + 1));
            assert(distinct_idx(q1)) by {
                assert forall|x: int, y: int| 0 <= x < y < q1.len() implies q1[x] != q1[y] by {
                    if y >= queue0.len() {
                        assert(sorted@.contains(q1[y]));
                        assert(children@.contains(q1[y]));
                        let c = choose|c: int| 0 <= c < children@.len() && children@[c] == q1[y];
                        if x < queue0.len() {
                            assert(queue0.contains(q1[x]));
                        }
                    }
                }
            }
            assert forall|kk: int| 0 <= kk < q1.len() implies #[trigger] q1[kk] < bv.len() by {
                if kk >= queue0.len() {
                    assert(sorted@.contains(q1[kk]));
                    assert(children@.contains(q1[kk]));
                    let c = choose|c: int| 0 <= c < children@.len() && children@[c] == q1[kk];
                }
            }
            assert forall|i: usize| i < bv.len() implies ((#[trigger] deg@[i as int] == 0) <==> q1.contains(i)) by {
                if queue0.contains(i) {
                    let m = choose|m: int| 0 <= m < queue0.len() && queue0[m] == i;
                    assert(q1[m] == i);
                }
                if children@.contains(i) {
                    assert(sorted@.contains(i));
                    let m = choose|m: int| 0 <= m < sorted@.len() && sorted@[m] == i;
                    assert(q1[queue0.len() + m] == i);
                }
                if q1.contains(i) {
                    let m = choose|m: int| 0 <= m < q1.len() && q1[m] == i;
                    if m < queue0.len() {
                        assert(queue0[m] == i);
                    } else {
                        assert(sorted@[m - queue0.len()] == i);
                        assert(children@.contains(i));
                    }
                }
            }
            assert forall|a: int, jj: int|
                0 <= a < head + 1 && 0 <= jj < dedup32(bv[q1[a] as int].parents).len() && contains_hash(
                    bv,
                    #[trigger] dedup32(bv[q1[a] as int].parents)[jj],
                ) implies exists|c: int| 0 <= c < a && bv[q1[c] as int].hash == dedup32(bv[q1[a] as int].parents)[jj] by {
                assert(q1[a] == queue0[a]);
                if a < head {
                    let c = choose|c: int| 0 <= c < a && bv[queue0[c] as int].hash == dedup32(bv[queue0[a] as int].parents)[jj];
                    assert(q1[c] == queue0[c]);
                } else {
                    let p = dedup32(bv[queue0[a] as int].parents)[jj];
                    assert(h_old.contains(p));
                    let c = choose|c: int| 0 <= c < h_old.len() && h_old[c] == p;
                    assert(h_old[c] == bv[queue0[c] as int].hash);
                    assert(q1[c] == queue0[c]);
                }
            }
            assert forall|a: int, jj: int|
                head + 1 <= a < q1.len() && 0 <= jj < dedup32(bv[q1[a] as int].parents).len() && contains_hash(
                    bv,
                    #[trigger] dedup32(bv[q1[a] as int].parents)[jj],
                ) implies pos_hashes(bv, q1.take(head + 1)).contains(dedup32(bv[q1[a] as int].parents)[jj]) by {
                let p = dedup32(bv[q1[a] as int].parents)[jj];
                assert(pos_hashes(bv, q1.take(head + 1)) == h_new);
                if a < queue0.len() {
                    assert(q1[a] == queue0[a]);
                    assert(h_old.contains(p));
                    let c = choose|c: int| 0 <= c < h_old.len() && h_old[c] == p;
                    assert(h_new[c] == p);
                } else {
                    assert(sorted@.contains(q1[a]));
                    assert(children@.contains(q1[a]));
                    let c = choose|c: int| 0 <= c < children@.len() && children@[c] == q1[a];
                }
            }
            assert forall|k: int| 0 <= k < bv.len() implies #[trigger] deg@[k] as int == cnt_occ(bv, dedup32(bv[k].parents))
                - cnt_done(pos_hashes(bv, q1.take(head + 1)), dedup32(bv[k].parents)) by {
                assert(pos_hashes(bv, q1.take(head + 1)) == h_new);
            }
            assert(out@[head as int]@ == bv[q1[head as int] as int]);
            assert forall|k: int| 0 <= k < z implies #[trigger] q1[k] == q_init[k] by {
                assert(q1[k] == queue0[k]);
            }
            assert forall|k: int| z <= k < q1.len() implies !is_root(bv, #[trigger] bv[q1[k] as int]) by {
                if k < queue0.len() {
                    assert(q1[k] == queue0[k]);
                } else {
                    assert(q1[k] == sorted@[k - queue0.len()]);
                    assert(sorted@.contains(q1[k]));
                    assert(children@.contains(q1[k]));
                    let c = choose|c: int| 0 <= c < children@.len() && children@[c] == q1[k];
                }
            }
        }
        head = head + 1;
    }
    proof {
        assert(queue@.take(head as int) =~= queue@);
        assert forall|i: int, j: int| 0 <= i < j < views(out@).len() implies views(out@)[i].hash != views(out@)[j].hash by {
            if bv[queue@[i] as int].hash == bv[queue@[j] as int].hash {
                lemma_queue_hash(bv, queue@, i, j);
            }
        }
        assert forall|k: int| 0 <= k < views(out@).len() implies bv.contains(#[trigger] views(out@)[k]) by {
            assert(views(out@)[k] == bv[queue@[k] as int]);
        }
        assert forall|a: int, jj: int|
            0 <= a < views(out@).len() && 0 <= jj < views(out@)[a].parents.len() && contains_hash(
                bv,
                #[trigger] views(out@)[a].parents[jj],
            ) implies exists|c: int| 0 <= c < a && views(out@)[c].hash == views(out@)[a].parents[jj] by {
            assert(views(out@)[a] == bv[queue@[a] as int]);
            let x = queue@[a] as int;
            let p = bv[x].parents[jj];
            lemma_dedup32(bv[x].parents);
            assert(bv[x].parents.contains(p));
            assert(dedup32(bv[x].parents).contains(p));
            let m = choose|m: int| 0 <= m < dedup32(bv[x].parents).len() && dedup32(bv[x].parents)[m] == p;
            assert(contains_hash(bv, dedup32(bv[queue@[a] as int].parents)[m]));
            let c = choose|c: int| 0 <= c < a && bv[queue@[c] as int].hash == dedup32(bv[queue@[a] as int].parents)[m];
            assert(views(out@)[c] == bv[queue@[c] as int]);
        }
        let ov = views(out@);
        assert forall|k: int| 0 <= k < ov.len() implies (k < z <==> is_root(bv, #[trigger] ov[k])) by {
            assert(ov[k] == bv[queue@[k] as int]);
            if k < z {
                assert(queue@[k] == q_init[k]);
            }
        }
        assert forall|i: int, j: int| 0 <= i < j < z implies !clock_before(#[trigger] ov[j], #[trigger] ov[i]) by {
            assert(ov[i] == bv[queue@[i] as int]);
            assert(ov[j] == bv[queue@[j] as int]);
            assert(queue@[i] == q_init[i]);
            assert(queue@[j] == q_init[j]);
        }
        assert forall|k: int| 0 <= k < bv.len() && is_root(bv, #[trigger] bv[k]) implies exists|m: int|
            0 <= m < z && ov[m] == bv[k] by {
            let x = k as usize;
            assert(bv[x as int] == bv[k]);
            assert(q_init.contains(x));
            let m = choose|m: int| 0 <= m < q_init.len() && q_init[m] == x;
            assert(queue@[m] == q_init[m]);
            assert(ov[m] == bv[queue@[m] as int]);
        }
        assert(roots_first(bv, ov, z));
        if exists|rank: spec_fn([u8; 32]) -> nat| ranked(bv, rank) {
            let rank = choose|rank: spec_fn([u8; 32]) -> nat| ranked(bv, rank);
            assert forall|i: usize| i < bv.len() implies queue@.contains(i) by {
                lemma_kahn_complete_rank(bv, deg@, queue@, rank, rank(bv[i as int].hash));
            }
            lemma_positions_len(queue@, n as nat);
        }
    }
    Ok(out)
}

proof fn lemma_seq_push_contains<A>(s: Seq<A>, a: A, x: A)
    ensures
        s.push(a).contains(x) <==> (s.contains(x) || x == a),
{
    if s.contains(x) {
        let i = choose|i: int| 0 <= i < s.len() && s[i] == x;
        assert(s.push(a)[i] == x);
    }
    if x == a {
        assert(s.push(a)[s.len() as int] == x);
    }
    if s.push(a).contains(x) {
        let i = choose|i: int| 0 <= i < s.push(a).len() && s.push(a)[i] == x;
        if i < s.len() {
            assert(s[i] == x);
        }
    }
}

proof fn lemma_cnt_done_empty_h(ps: Seq<[u8; 32]>)
    ensures
        cnt_done(Seq::empty(), ps) == 0,
{
}

} // verus!
