//! Gossip wire format: the compression flag byte in front of a payload,
//! and reassembly of a blob sent in chunks.

use vstd::prelude::*;
use std::collections::HashMap;
use crate::codec::append_bytes;
use crate::primitives::{deflate_compress, deflate_decompress, deflate_fast, inflated};
use crate::text::{concat, decimal, dec_chars};

verus! {

broadcast use vstd::std_specs::hash::group_hash_axioms;

/// Largest blob sent whole; larger ones go in chunks (4 MiB).
pub const CHUNK_THRESHOLD: usize = 4 * 1024 * 1024;

/// Size of each chunk of a large blob (1 MiB).
pub const CHUNK_SIZE: usize = 1024 * 1024;

/// Smallest payload that compression is tried on (256 bytes).
pub const COMPRESS_THRESHOLD: usize = 256;

/// Errors of the network layer.
#[derive(Debug)]
pub enum NetError {
    /// A message or payload could not be decoded.
    Deserialization(String),
    /// A connection could not be made or was lost.
    Connection(String),
    /// Writing to a stream failed.
    Write(String),
    /// Reading from a stream failed.
    Read(String),
    /// A message is larger than allowed.
    MessageTooLarge { size: usize, max: usize },
    /// A blob's content hash differs from the one asked for.
    BlobIntegrity { expected: String, actual: String },
    /// The gossip layer failed.
    Gossip(String),
}

/// A payload framed for the wire: a flag byte, 0 for raw and 1 for
/// deflate, then the payload. Payloads under [`COMPRESS_THRESHOLD`] bytes,
/// and those that deflate does not shrink, go raw.
pub open spec fn wire_frame(data: Seq<u8>) -> Seq<u8> {
    if data.len() < COMPRESS_THRESHOLD {
        seq![0u8] + data
    } else if deflate_fast(data).len() < data.len() {
        seq![1u8] + deflate_fast(data)
    } else {
        seq![0u8] + data
    }
}

/// The payload of a wire frame: what follows flag 0, or what follows flag
/// 1 inflated; `None` for an empty frame, another flag, or a corrupt
/// deflate stream.
pub open spec fn wire_payload(frame: Seq<u8>) -> Option<Seq<u8>> {
    if frame.len() == 0 {
        None
    } else if frame[0] == 0 {
        Some(frame.skip(1))
    } else if frame[0] == 1 {
        inflated(frame.skip(1))
    } else {
        None
    }
}

/// Frames a gossip payload, compressing it when that pays. Taking the
/// payload back out of the frame gives `data`.
pub fn compress_wire(data: &[u8]) -> (res: Vec<u8>)
    ensures
        res@ == wire_frame(data@),
        wire_payload(res@) == Some(data@),
{
    let mut out: Vec<u8> = Vec::new();
    if data.len() < COMPRESS_THRESHOLD {
        out.push(0);
        append_bytes(&mut out, data);
        assert(out@.skip(1) =~= data@);
        return out;
    }
    let compressed = deflate_compress(data);
    if compressed.len() < data.len() {
        out.push(1);
        append_bytes(&mut out, compressed.as_slice());
        assert(out@ =~= seq![1u8] + deflate_fast(data@));
        assert(out@.skip(1) =~= compressed@);
    } else {
        out.push(0);
        append_bytes(&mut out, data);
        assert(out@.skip(1) =~= data@);
    }
    out
}

/// Takes the payload out of a frame made by [`compress_wire`].
pub fn decompress_wire(data: &[u8]) -> (res: Result<Vec<u8>, NetError>)
    ensures
        res is Ok <==> wire_payload(data@) is Some,
        res matches Ok(v) ==> wire_payload(data@) == Some(v@),
        res matches Err(e) ==> e is Deserialization,
        data@.len() == 0 ==> (res matches Err(NetError::Deserialization(m)) && m@ == "empty wire payload"@),
        data@.len() > 0 && data@[0] > 1 ==> (res matches Err(NetError::Deserialization(m)) && m@
            == "unknown wire compression flag: "@ + dec_chars(data@[0] as nat)),
        data@.len() > 0 && data@[0] == 1 && inflated(data@.skip(1)) is None ==> (res matches Err(
            NetError::Deserialization(m),
        ) && m@.take(20) == "deflate decompress: "@),
{
    if data.len() == 0 {
        return Err(NetError::Deserialization(String::from_str("empty wire payload")));
    }
    let flag = data[0];
    let rest = slice_from(data, 1);
    if flag == 0 {
        Ok(rest)
    } else if flag == 1 {
        match deflate_decompress(rest.as_slice()) {
            Ok(v) => Ok(v),
            Err(m) => {
                let msg = concat("deflate decompress: ", m.as_str());
                proof {
                    reveal_strlit("deflate decompress: ");
                    assert(msg@.take(20) =~= "deflate decompress: "@);
                }
                Err(NetError::Deserialization(msg))
            },
        }
    } else {
        let digits = decimal(flag as u64);
        Err(NetError::Deserialization(concat("unknown wire compression flag: ", digits.as_str())))
    }
}

/// The bytes of `data` from position `start` on.
pub fn slice_from(data: &[u8], start: usize) -> (res: Vec<u8>)
    requires
        start <= data@.len(),
    ensures
        res@ == data@.skip(start as int),
{
    let mut out: Vec<u8> = Vec::new();
    let mut i: usize = start;
    while i < data.len()
        invariant
            start <= i <= data@.len(),
            out@ == data@.subrange(start as int, i as int),
        decreases data@.len() - i,
    {
        out.push(data[i]);
        i = i + 1;
        assert(out@ =~= data@.subrange(start as int, i as int));
    }
    assert(out@ =~= data@.skip(start as int));
    out
}

/// Strictly increasing.
pub open spec fn ascending(ks: Seq<u32>) -> bool {
    forall|i: int, j: int| 0 <= i < j < ks.len() ==> ks[i] < ks[j]
}

/// The chunks of `m` at the indices `ks`, one after another.
pub open spec fn concat_chunks(m: Map<u32, Seq<u8>>, ks: Seq<u32>) -> Seq<u8>
    decreases ks.len(),
{
    if ks.len() == 0 {
        Seq::empty()
    } else {
        concat_chunks(m, ks.drop_last()) + m[ks.last()]
    }
}

/// The indices of `m` in increasing order.
pub open spec fn index_order(m: Map<u32, Seq<u8>>) -> Seq<u32> {
    choose|ks: Seq<u32>| ascending(ks) && ks.to_set() == m.dom()
}

proof fn lemma_push_has(s: Seq<u32>, a: u32, x: u32)
    ensures
        s.push(a).contains(x) <==> (s.contains(x) || x == a),
{
    if s.contains(x) {
        let i = choose|i: int| 0 <= i < s.len() && s[i] == x;
        assert(s.push(a)[i] == x);
    }
    if x == a {
        assert(s.push(a)[s.len() as int] == x);
    }
    if s.push(a).contains(x) {
        let i = choose|i: int| 0 <= i < s.push(a).len() && s.push(a)[i] == x;
        if i < s.len() {
            assert(s[i] == x);
        }
    }
}

/// Two strictly increasing sequences with the same elements are equal.
proof fn lemma_ascending_unique(a: Seq<u32>, b: Seq<u32>)
    requires
        ascending(a),
        ascending(b),
        a.to_set() == b.to_set(),
    ensures
        a == b,
    decreases a.len(),
{
    if a.len() == 0 {
        if b.len() > 0 {
            assert(b.to_set().contains(b[0]));
        }
        assert(a =~= b);
    } else if b.len() == 0 {
        assert(a.to_set().contains(a[0]));
    } else {
        let x = a.last();
        let y = b.last();
        assert(a.to_set().contains(x));
        assert(b.to_set().contains(y));
        let j = choose|j: int| 0 <= j < b.len() && b[j] == x;
        let i = choose|i: int| 0 <= i < a.len() && a[i] == y;
        if j < b.len() - 1 {
            assert(b[j] < b[b.len() - 1]);
        }
        if i < a.len() - 1 {
            assert(a[i] < a[a.len() - 1]);
        }
        assert(x == y);
        let a2 = a.drop_last();
        let b2 = b.drop_last();
        assert(a2.to_set() =~= b2.to_set()) by {
            assert forall|z: u32| a2.contains(z) implies b2.contains(z) by {
                let k = choose|k: int| 0 <= k < a2.len() && a2[k] == z;
                assert(a[k] < a[a.len() - 1]);
                assert(a.to_set().contains(z));
                let m = choose|m: int| 0 <= m < b.len() && b[m] == z;
                assert(b2[m] == z);
            }
            assert forall|z: u32| b2.contains(z) implies a2.contains(z) by {
                let k = choose|k: int| 0 <= k < b2.len() && b2[k] == z;
                assert(b[k] < b[b.len() - 1]);
                assert(b.to_set().contains(z));
                let m = choose|m: int| 0 <= m < a.len() && a[m] == z;
                assert(a2[m] == z);
            }
        }
        lemma_ascending_unique(a2, b2);
        assert(a =~= a2.push(x));
        assert(b =~= b2.push(y));
    }
}

/// Elements without repeats drawn from a finite set, as many as it holds,
/// are all of it.
proof fn lemma_fill(a: Seq<u32>, d: Set<u32>)
    requires
        ascending(a),
        d.finite(),
        forall|y: u32| a.contains(y) ==> d.contains(y),
        a.len() == d.len(),
    ensures
        forall|y: u32| a.contains(y) <==> d.contains(y),
{
    broadcast use vstd::seq_lib::seq_to_set_is_finite;
    assert(a.no_duplicates()) by {
        assert forall|i: int, j: int| 0 <= i < a.len() && 0 <= j < a.len() && i != j implies a[i] != a[j] by {
            if i < j {
                assert(a[i] < a[j]);
            } else {
                assert(a[j] < a[i]);
            }
        }
    }
    a.unique_seq_to_set();
    assert forall|y: u32| d.contains(y) implies a.contains(y) by {
        if !a.contains(y) {
            assert(a.to_set().subset_of(d.remove(y)));
            vstd::set_lib::lemma_len_subset(a.to_set(), d.remove(y));
        }
    }
}

/// In-progress reassembly of one blob sent in chunks.
pub struct ChunkBuffer {
    total_chunks: u32,
    received: HashMap<u32, Vec<u8>>,
}

/// The value of a [`ChunkBuffer`]: the number of chunks expected and the
/// chunks received so far, by index.
pub struct ChunkBufferV {
    pub total_chunks: u32,
    pub received: Map<u32, Seq<u8>>,
}

impl View for ChunkBuffer {
    type V = ChunkBufferV;

    closed spec fn view(&self) -> ChunkBufferV {
        ChunkBufferV {
            total_chunks: self.total_chunks,
            received: self.received@.map_values(|v: Vec<u8>| v@),
        }
    }
}

impl ChunkBuffer {
    /// A buffer expecting `total_chunks` chunks, holding none.
    pub fn new(total_chunks: u32) -> (res: ChunkBuffer)
        ensures
            res@.total_chunks == total_chunks,
            res@.received == Map::<u32, Seq<u8>>::empty(),
    {
        let res = ChunkBuffer { total_chunks, received: HashMap::new() };
        assert(res@.received =~= Map::<u32, Seq<u8>>::empty());
        res
    }

    /// Stores the chunk at `index`, replacing one stored there before.
    pub fn insert(&mut self, index: u32, data: Vec<u8>)
        ensures
            final(self)@.total_chunks == old(self)@.total_chunks,
            final(self)@.received == old(self)@.received.insert(index, data@),
    {
        let ghost d = data@;
        self.received.insert(index, data);
        assert(self@.received =~= old(self)@.received.insert(index, d));
    }

    /// Whether as many chunks are stored as are expected.
    pub fn is_complete(&self) -> (res: bool)
        ensures
            res == (self@.received.dom().len() == self@.total_chunks),
    {
        assert(self@.received.dom() =~= self.received@.dom());
        self.received.len() == self.total_chunks as usize
    }

    /// The stored chunks one after another, in increasing order of index.
    pub fn reassemble(self) -> (res: Vec<u8>)
        ensures
            res@ == concat_chunks(self@.received, index_order(self@.received)),
    {
        let ghost m = self.received@;
        let ghost mv = self@.received;
        let mut ks: Vec<u32> = Vec::new();
        for k in it: self.received.keys()
            invariant
                m == self.received@,
                it.seq().unref().to_set() == m.dom(),
                it.seq().unref().no_duplicates(),
                it.seq().len() == m.dom().len(),
                ascending(ks@),
                forall|y: u32| ks@.contains(y) <==> it.seq().unref().take(it.index()).contains(y),
                forall|y: u32| ks@.contains(y) ==> m.dom().contains(y),
                ks@.len() == it.index(),
        {
            let x = *k;
            let ghost s = it.seq().unref();
            let ghost idx = it.index();
            let ghost pre = ks@;
            assert(s[idx] == x);
            let mut p: usize = 0;
            while p < ks.len() && ks[p] < x
                invariant
                    p <= ks@.len(),
                    forall|i: int| 0 <= i < p ==> ks@[i] < x,
                decreases ks@.len() - p,
            {
                p = p + 1;
            }
            proof {
                assert(!pre.contains(x)) by {
                    if pre.contains(x) {
                        assert(s.take(idx).contains(x));
                        let i = choose|i: int| 0 <= i < s.take(idx).len() && s.take(idx)[i] == x;
                        assert(s[i] == s[idx]);
                    }
                }
                if p < pre.len() {
                    assert(pre[p as int] != x) by {
                        assert(pre.contains(pre[p as int]));
                    }
                }
            }
            ks.insert(p, x);
            proof {
                assert(ks@ == pre.insert(p as int, x));
                assert forall|i: int, j: int| 0 <= i < j < ks@.len() implies ks@[i] < ks@[j] by {
                    if j < p {
                    } else if j == p {
                    } else if i < p {
                        assert(ks@[j] == pre[j - 1]);
                    } else if i == p {
                        assert(ks@[j] == pre[j - 1]);
                        assert(pre[p as int] >= x);
                        if j - 1 > p {
                            assert(pre[p as int] < pre[j - 1]);
                        }
                    } else {
                        assert(ks@[i] == pre[i - 1] && ks@[j] == pre[j - 1]);
                    }
                }
                assert(s.take(idx + 1) =~= s.take(idx).push(x));
                assert forall|y: u32| ks@.contains(y) <==> s.take(idx + 1).contains(y) by {
                    lemma_push_has(s.take(idx), x, y);
                    if ks@.contains(y) {
                        let i = choose|i: int| 0 <= i < ks@.len() && ks@[i] == y;
                        if i < p {
                            assert(pre[i] == y);
                        } else if i > p {
                            assert(pre[i - 1] == y);
                        }
                    }
                    if pre.contains(y) {
                        let i = choose|i: int| 0 <= i < pre.len() && pre[i] == y;
                        if i < p {
                            assert(ks@[i] == y);
                        } else {
                            assert(ks@[i + 1] == y);
                        }
                    }
                    if y == x {
                        assert(ks@[p as int] == y);
                    }
                }
            }
        }
        proof {
            assert(ks@.len() == m.dom().len());
            lemma_fill(ks@, m.dom());
            assert(mv.dom() =~= m.dom());
            assert(ks@.to_set() =~= mv.dom());
            assert(ascending(ks@) && ks@.to_set() == mv.dom());
            let c = index_order(mv);
            assert(ascending(c) && c.to_set() == mv.dom());
            lemma_ascending_unique(ks@, c);
        }
        let mut out: Vec<u8> = Vec::new();
        let mut i: usize = 0;
        assert(ks@.take(0) =~= Seq::<u32>::empty());
        while i < ks.len()
            invariant
                m == self.received@,
                mv == self@.received,
                i <= ks@.len(),
                forall|y: u32| ks@.contains(y) ==> m.contains_key(y),
                out@ == concat_chunks(mv, ks@.take(i as int)),
            decreases ks@.len() - i,
        {
            let key = ks[i];
            assert(ks@.contains(key));
            match self.received.get(&key) {
                Some(chunk) => {
                    append_bytes(&mut out, chunk.as_slice());
                },
                None => {},
            }
            assert(ks@.take(i + 1).drop_last() =~= ks@.take(i as int));
            i = i + 1;
        }
        assert(ks@.take(ks@.len() as int) =~= ks@);
        out
    }
}

/// The chunks of `cs` one after another.
pub open spec fn joined(cs: Seq<Seq<u8>>) -> Seq<u8>
    decreases cs.len(),
{
    if cs.len() == 0 {
        Seq::empty()
    } else {
        joined(cs.drop_last()) + cs.last()
    }
}

/// `m` after storing each `(index, chunk)` of `ps` in turn.
pub open spec fn inserted(m: Map<u32, Seq<u8>>, ps: Seq<(u32, Seq<u8>)>) -> Map<u32, Seq<u8>>
    decreases ps.len(),
{
    if ps.len() == 0 {
        m
    } else {
        inserted(m, ps.drop_last()).insert(ps.last().0, ps.last().1)
    }
}

/// Some pair of `ps` has index `i`.
pub open spec fn has_index(ps: Seq<(u32, Seq<u8>)>, i: u32) -> bool {
    exists|k: int| 0 <= k < ps.len() && (#[trigger] ps[k]).0 == i
}

/// The indices `0..n` in increasing order.
pub open spec fn first_indices(n: nat) -> Seq<u32> {
    Seq::new(n, |i: int| i as u32)
}

proof fn lemma_first_indices(n: nat)
    requires
        n <= u32::MAX + 1,
    ensures
        ascending(first_indices(n)),
        first_indices(n).no_duplicates(),
        forall|y: u32| first_indices(n).contains(y) <==> y < n,
        first_indices(n).to_set().len() == n,
{
    let a = first_indices(n);
    assert forall|y: u32| a.contains(y) <==> y < n by {
        if y < n {
            assert(a[y as int] == y);
        }
    }
    a.unique_seq_to_set();
}

/// With every index stored below `n`, holding `n` indices is holding each
/// index below `n`.
proof fn lemma_count_is_all(d: Set<u32>, n: nat)
    requires
        n <= u32::MAX + 1,
        d.finite(),
        forall|k: u32| d.contains(k) ==> k < n,
    ensures
        d.len() == n <==> forall|k: u32| k < n ==> d.contains(k),
{
    let a = first_indices(n);
    lemma_first_indices(n);
    let r = a.to_set();
    assert(d.subset_of(r));
    if d.len() == n {
        assert forall|k: u32| k < n implies d.contains(k) by {
            if !d.contains(k) {
                assert(d.subset_of(r.remove(k)));
                vstd::set_lib::lemma_len_subset(d, r.remove(k));
            }
        }
    }
    if forall|k: u32| k < n ==> d.contains(k) {
        assert(d =~= r);
    }
}

/// A buffer is complete exactly when every index below the expected count
/// is stored, as long as no chunk was stored at an index beyond it.
pub proof fn lemma_complete_iff_all_present(b: &ChunkBuffer)
    requires
        forall|k: u32| b@.received.dom().contains(k) ==> k < b@.total_chunks,
    ensures
        b@.received.dom().len() == b@.total_chunks <==> forall|k: u32|
            k < b@.total_chunks ==> b@.received.dom().contains(k),
{
    vstd::std_specs::hash::axiom_hashmap_view_finite_dom(b.received);
    assert(b@.received.dom() =~= b.received@.dom());
    lemma_count_is_all(b@.received.dom(), b@.total_chunks as nat);
}

/// The chunk stored last at index `i` by the inserts `ps`.
pub open spec fn last_at(ps: Seq<(u32, Seq<u8>)>, i: u32) -> Seq<u8>
    decreases ps.len(),
{
    if ps.len() == 0 {
        Seq::empty()
    } else if ps.last().0 == i {
        ps.last().1
    } else {
        last_at(ps.drop_last(), i)
    }
}

/// For each index below `n`, the chunk stored last there.
pub open spec fn last_chunks(ps: Seq<(u32, Seq<u8>)>, n: nat) -> Seq<Seq<u8>> {
    Seq::new(n, |i: int| last_at(ps, i as u32))
}

proof fn lemma_concat_first(m: Map<u32, Seq<u8>>, cs: Seq<Seq<u8>>, n: nat)
    requires
        n <= cs.len(),
        cs.len() <= u32::MAX + 1,
        forall|i: u32| i < cs.len() ==> m[i] == cs[i as int],
    ensures
        concat_chunks(m, first_indices(n)) == joined(cs.take(n as int)),
    decreases n,
{
    if n > 0 {
        lemma_concat_first(m, cs, (n - 1) as nat);
        assert(first_indices(n).drop_last() =~= first_indices((n - 1) as nat));
        assert(cs.take(n as int).drop_last() =~= cs.take(n - 1));
        let last = (n - 1) as u32;
        assert(first_indices(n).last() == last);
        assert(m[last] == cs[n - 1]);
    }
}

/// Inserting chunks by index into a buffer, in any order and any number of
/// times each, every index below `n` at least once and none beyond it,
/// gives a complete buffer that reassembles to the chunk stored last at
/// each index, in increasing order of index.
pub proof fn lemma_reassembles_last_stored(n: nat, ps: Seq<(u32, Seq<u8>)>)
    requires
        n <= u32::MAX + 1,
        forall|k: int| 0 <= k < ps.len() ==> (#[trigger] ps[k]).0 < n,
        forall|i: u32| i < n ==> #[trigger] has_index(ps, i),
    ensures
        inserted(Map::empty(), ps).dom().len() == n,
        concat_chunks(inserted(Map::empty(), ps), index_order(inserted(Map::empty(), ps))) == joined(
            last_chunks(ps, n),
        ),
{
    let m = inserted(Map::empty(), ps);
    let cs = last_chunks(ps, n);
    lemma_inserted(ps);
    let a = first_indices(n);
    lemma_first_indices(n);
    assert forall|y: u32| m.dom().contains(y) <==> a.to_set().contains(y) by {
        assert(m.dom().contains(y) <==> has_index(ps, y));
        assert(a.to_set().contains(y) <==> a.contains(y));
        if has_index(ps, y) {
            let k = choose|k: int| 0 <= k < ps.len() && (#[trigger] ps[k]).0 == y;
        }
    }
    assert(m.dom() =~= a.to_set());
    assert(ascending(a) && a.to_set() == m.dom());
    let ko = index_order(m);
    lemma_ascending_unique(ko, a);
    assert forall|i: u32| i < cs.len() implies m[i] == cs[i as int] by {
        assert(has_index(ps, i));
    }
    lemma_concat_first(m, cs, n);
    assert(cs.take(n as int) =~= cs);
}

/// Storing the chunks of `cs` by their index, in any order and any number
/// of times each, gives a complete buffer that reassembles to `cs` joined.
pub proof fn lemma_any_order_reassembles(cs: Seq<Seq<u8>>, ps: Seq<(u32, Seq<u8>)>)
    requires
        cs.len() <= u32::MAX + 1,
        forall|k: int| 0 <= k < ps.len() ==> (#[trigger] ps[k]).0 < cs.len() && ps[k].1 == cs[ps[k].0 as int],
        forall|i: u32| i < cs.len() ==> #[trigger] has_index(ps, i),
    ensures
        inserted(Map::empty(), ps).dom().len() == cs.len(),
        concat_chunks(inserted(Map::empty(), ps), index_order(inserted(Map::empty(), ps))) == joined(cs),
{
    lemma_reassembles_last_stored(cs.len(), ps);
    assert forall|i: int| 0 <= i < cs.len() implies last_chunks(ps, cs.len())[i] == cs[i] by {
        lemma_last_at(ps, i as u32);
        assert(has_index(ps, i as u32));
        let k = choose|k: int| 0 <= k < ps.len() && ps[k] == (i as u32, last_at(ps, i as u32));
        assert(ps[k].0 == i as u32);
    }
    assert(last_chunks(ps, cs.len()) =~= cs);
}

/// The chunk stored last at an index inserted at is one of the inserts.
proof fn lemma_last_at(ps: Seq<(u32, Seq<u8>)>, i: u32)
    ensures
        has_index(ps, i) ==> exists|k: int| 0 <= k < ps.len() && ps[k] == (i, last_at(ps, i)),
    decreases ps.len(),
{
    if ps.len() > 0 {
        let r = ps.drop_last();
        lemma_last_at(r, i);
        if ps.last().0 == i {
            assert(ps[ps.len() - 1] == (i, last_at(ps, i)));
        } else if has_index(ps, i) {
            let k = choose|k: int| 0 <= k < ps.len() && (#[trigger] ps[k]).0 == i;
            assert(k < r.len());
            assert(r[k] == ps[k]);
            assert(has_index(r, i));
            let j = choose|j: int| 0 <= j < r.len() && r[j] == (i, last_at(r, i));
            assert(ps[j] == r[j]);
        }
    }
}

proof fn lemma_inserted(ps: Seq<(u32, Seq<u8>)>)
    ensures
        forall|i: u32| inserted(Map::empty(), ps).dom().contains(i) <==> #[trigger] has_index(ps, i),
        forall|i: u32| inserted(Map::empty(), ps).dom().contains(i) ==> inserted(Map::empty(), ps)[i] == last_at(ps, i),
        inserted(Map::empty(), ps).dom().finite(),
    decreases ps.len(),
{
    if ps.len() > 0 {
        let r = ps.drop_last();
        lemma_inserted(r);
        let l = ps.last();
        assert(ps[ps.len() - 1] == l);
        assert(inserted(Map::empty(), ps) == inserted(Map::empty(), r).insert(l.0, l.1));
        assert forall|i: u32| inserted(Map::empty(), ps).dom().contains(i) <==> #[trigger] has_index(ps, i) by {
            if has_index(r, i) {
                let k = choose|k: int| 0 <= k < r.len() && (#[trigger] r[k]).0 == i;
                assert(ps[k] == r[k]);
            }
            if i == l.0 {
                assert(ps[ps.len() - 1].0 == i);
            }
            if has_index(ps, i) {
                let k = choose|k: int| 0 <= k < ps.len() && (#[trigger] ps[k]).0 == i;
                if k < r.len() {
                    assert(r[k] == ps[k]);
                    assert(has_index(r, i));
                }
            }
        }
        assert forall|i: u32| inserted(Map::empty(), ps).dom().contains(i) implies inserted(Map::empty(), ps)[i]
            == last_at(ps, i) by {
            assert(ps.drop_last() == r);
            assert(last_at(ps, i) == if l.0 == i { l.1 } else { last_at(r, i) });
            if i != l.0 {
                assert(inserted(Map::empty(), r).dom().contains(i));
                assert(inserted(Map::empty(), ps)[i] == inserted(Map::empty(), r)[i]);
            } else {
                assert(inserted(Map::empty(), ps)[i] == l.1);
            }
        }
    }
}

/// Chunks stored at different indices give the same buffer whichever is
/// stored first, so the order chunks arrive in does not matter.
pub proof fn lemma_chunk_inserts_commute(m: Map<u32, Seq<u8>>, i: u32, a: Seq<u8>, j: u32, b: Seq<u8>)
    requires
        i != j,
    ensures
        m.insert(i, a).insert(j, b) == m.insert(j, b).insert(i, a),
{
    assert(m.insert(i, a).insert(j, b) =~= m.insert(j, b).insert(i, a));
}

} // verus!
