//! DAG entries: the hashed, signed unit of the append-only log.

use vstd::prelude::*;
use vstd::string::StringExecFns;
use crate::codec::{
    prefix_of, spec_varint, append_bytes, encode_varint, decode_fixed32, decode_varint,
    lemma_prefix_concat, lemma_varint_unique, lemma_fixed32_unique, lemma_skip_add,
};
use crate::primitives::{
    ed25519_public, blake3_hash, blake3_digest, ed25519_signature, ed25519_valid, ed25519_sign, ed25519_verify,
};
use crate::types::{
    DeviceId, Action, ActionV, enc_action, encode_action, decode_action, lemma_action_unique,
};

verus! {

/// Errors of DAG operations.
#[derive(Debug)]
pub enum DagError {
    /// The entry's hash does not match its content.
    InvalidHash,
    /// The entry's Ed25519 signature is invalid.
    InvalidSignature,
    /// The entry references parent hashes that are not in the local store.
    MissingParents(Vec<[u8; 32]>),
    /// Deserialization failed.
    Deserialization(String),
}

/// A single entry of the DAG: an action, its hybrid-logical-clock time, its
/// author, the hashes of its parents, the blake3 hash of those fields and
/// the author's Ed25519 signature of that hash.
#[derive(Clone, Debug, PartialEq, Eq)]
pub struct DagEntry {
    pub hash: [u8; 32],
    pub hlc: u64,
    pub device_id: DeviceId,
    pub action: Action,
    pub parents: Vec<[u8; 32]>,
    pub signature_r: [u8; 32],
    pub signature_s: [u8; 32],
}

/// The mathematical value of a [`DagEntry`].
pub struct DagEntryV {
    pub hash: [u8; 32],
    pub hlc: u64,
    pub device_id: DeviceId,
    pub action: ActionV,
    pub parents: Seq<[u8; 32]>,
    pub signature_r: [u8; 32],
    pub signature_s: [u8; 32],
}

impl View for DagEntry {
    type V = DagEntryV;

    open spec fn view(&self) -> DagEntryV {
        DagEntryV {
            hash: self.hash,
            hlc: self.hlc,
            device_id: self.device_id,
            action: self.action@,
            parents: self.parents@,
            signature_r: self.signature_r,
            signature_s: self.signature_s,
        }
    }
}

/// The 32-byte hashes of `p`, back to back.
pub open spec fn concat32(p: Seq<[u8; 32]>) -> Seq<u8>
    decreases p.len(),
{
    if p.len() == 0 {
        Seq::empty()
    } else {
        concat32(p.drop_last()) + p.last()@
    }
}

/// Eight little-endian bytes of `x`.
pub open spec fn le64(x: u64) -> Seq<u8> {
    Seq::new(8, |i: int| (x >> (8 * i) as u64) as u8)
}

/// The bytes that an entry's hash is the blake3 digest of: the clock value
/// (little endian), the author, the encoded action and the parent hashes.
pub open spec fn hash_input(hlc: u64, device_id: DeviceId, action: ActionV, parents: Seq<[u8; 32]>) -> Seq<
    u8,
> {
    le64(hlc) + device_id.0@ + enc_action(action) + concat32(parents)
}

/// The hash an entry with these fields must carry.
pub open spec fn content_hash(hlc: u64, device_id: DeviceId, action: ActionV, parents: Seq<[u8; 32]>) -> Seq<
    u8,
> {
    blake3_hash(hash_input(hlc, device_id, action, parents))
}

/// The 64-byte signature an entry carries.
pub open spec fn entry_signature(e: DagEntryV) -> Seq<u8> {
    e.signature_r@ + e.signature_s@
}

/// Whether the stored hash matches the content.
pub open spec fn hash_ok(e: DagEntryV) -> bool {
    e.hash@ == content_hash(e.hlc, e.device_id, e.action, e.parents)
}

/// Whether the signature verifies under the author's key.
pub open spec fn signature_ok(e: DagEntryV) -> bool {
    ed25519_valid(e.device_id.0@, e.hash@, entry_signature(e))
}

/// Encoding of a list of hashes: varint count, then the hashes.
pub open spec fn enc_hashes(p: Seq<[u8; 32]>) -> Seq<u8> {
    spec_varint(p.len() as u64) + concat32(p)
}

/// Encoding of an entry: its fields in declaration order.
pub open spec fn enc_entry(e: DagEntryV) -> Seq<u8> {
    e.hash@ + (spec_varint(e.hlc) + (e.device_id.0@ + (enc_action(e.action) + (enc_hashes(e.parents)
        + (e.signature_r@ + e.signature_s@)))))
}

pub proof fn lemma_concat32_len(p: Seq<[u8; 32]>)
    ensures
        concat32(p).len() == 32 * p.len(),
    decreases p.len(),
{
    if p.len() > 0 {
        lemma_concat32_len(p.drop_last());
    }
}

pub proof fn lemma_concat32_push(p: Seq<[u8; 32]>, x: [u8; 32])
    ensures
        concat32(p.push(x)) == concat32(p) + x@,
{
    assert(p.push(x).drop_last() =~= p);
}

pub proof fn lemma_concat32_index(p: Seq<[u8; 32]>, i: int, j: int)
    requires
        0 <= i < p.len(),
        0 <= j < 32,
    ensures
        concat32(p)[32 * i + j] == p[i]@[j],
    decreases p.len(),
{
    lemma_concat32_len(p.drop_last());
    if i < p.len() - 1 {
        lemma_concat32_index(p.drop_last(), i, j);
    }
}

/// The bytes an entry's hash digests, by position: eight bytes of its clock
/// value, least significant first; the 32 bytes of its author; its encoded
/// action; then its parent hashes back to back, in order, to the end.
pub proof fn lemma_hash_input_layout(hlc: u64, device_id: DeviceId, action: ActionV, parents: Seq<[u8; 32]>)
    ensures
        hash_input(hlc, device_id, action, parents).len() == 40 + enc_action(action).len() + 32 * parents.len(),
        forall|j: int|
            0 <= j < 8 ==> #[trigger] hash_input(hlc, device_id, action, parents)[j] == (hlc >> (8 * j) as u64) as u8,
        forall|j: int| 0 <= j < 32 ==> #[trigger] hash_input(hlc, device_id, action, parents)[8 + j] == device_id.0[j],
        hash_input(hlc, device_id, action, parents).subrange(40, 40 + enc_action(action).len() as int) == enc_action(action),
        forall|k: int, j: int|
            0 <= k < parents.len() && 0 <= j < 32 ==> #[trigger] hash_input(hlc, device_id, action, parents)[40
                + enc_action(action).len() + 32 * k + j] == parents[k][j],
{
    let h = hash_input(hlc, device_id, action, parents);
    let n = 40 + enc_action(action).len();
    lemma_concat32_len(parents);
    assert(h.subrange(40, n as int) =~= enc_action(action));
    assert forall|k: int, j: int| 0 <= k < parents.len() && 0 <= j < 32 implies #[trigger] h[n + 32 * k + j]
        == parents[k][j] by {
        lemma_concat32_index(parents, k, j);
        assert(h[n + 32 * k + j] == concat32(parents)[32 * k + j]);
    }
}

/// Entries that differ only in their parent lists hash different inputs,
/// so changing an entry's parents after it was made changes what its hash
/// must be.
pub proof fn lemma_parents_hashed(
    hlc: u64,
    device_id: DeviceId,
    action: ActionV,
    p1: Seq<[u8; 32]>,
    p2: Seq<[u8; 32]>,
)
    requires
        p1 != p2,
    ensures
        hash_input(hlc, device_id, action, p1) != hash_input(hlc, device_id, action, p2),
{
    lemma_hash_input_layout(hlc, device_id, action, p1);
    lemma_hash_input_layout(hlc, device_id, action, p2);
    let h1 = hash_input(hlc, device_id, action, p1);
    let h2 = hash_input(hlc, device_id, action, p2);
    let n = 40 + enc_action(action).len();
    if h1 == h2 {
        assert(p1.len() == p2.len());
        assert forall|k: int| 0 <= k < p1.len() implies p1[k] == p2[k] by {
            assert forall|j: int| 0 <= j < 32 implies p1[k][j] == p2[k][j] by {
                assert(h1[n + 32 * k + j] == p1[k][j]);
                assert(h2[n + 32 * k + j] == p2[k][j]);
            }
            assert(p1[k]@ =~= p2[k]@);
        }
        assert(p1 =~= p2);
    }
}

/// Entries that differ in clock value, author, action or parents hash
/// different inputs.
pub proof fn lemma_hash_input_injective(
    h1: u64,
    d1: DeviceId,
    a1: ActionV,
    p1: Seq<[u8; 32]>,
    h2: u64,
    d2: DeviceId,
    a2: ActionV,
    p2: Seq<[u8; 32]>,
)
    requires
        hash_input(h1, d1, a1, p1) == hash_input(h2, d2, a2, p2),
        hash_input(h1, d1, a1, p1).len() <= u64::MAX,
    ensures
        h1 == h2,
        d1 == d2,
        a1 == a2,
        p1 == p2,
{
    let s = hash_input(h1, d1, a1, p1);
    lemma_hash_input_layout(h1, d1, a1, p1);
    lemma_hash_input_layout(h2, d2, a2, p2);
    let b0 = s[0];
    let b1 = s[1];
    let b2 = s[2];
    let b3 = s[3];
    let b4 = s[4];
    let b5 = s[5];
    let b6 = s[6];
    let b7 = s[7];
    assert(h1 == h2) by (bit_vector)
        requires
            (h1 >> 0u64) as u8 == (h2 >> 0u64) as u8,
            (h1 >> 8u64) as u8 == (h2 >> 8u64) as u8,
            (h1 >> 16u64) as u8 == (h2 >> 16u64) as u8,
            (h1 >> 24u64) as u8 == (h2 >> 24u64) as u8,
            (h1 >> 32u64) as u8 == (h2 >> 32u64) as u8,
            (h1 >> 40u64) as u8 == (h2 >> 40u64) as u8,
            (h1 >> 48u64) as u8 == (h2 >> 48u64) as u8,
            (h1 >> 56u64) as u8 == (h2 >> 56u64) as u8,
    ;
    assert forall|j: int| 0 <= j < 32 implies d1.0[j] == d2.0[j] by {
        assert(s[8 + j] == d1.0[j]);
    }
    assert(d1.0@ =~= d2.0@);
    assert(d1.0 =~= d2.0);
    let t = s.skip(40);
    assert(prefix_of(enc_action(a1), t)) by {
        assert(t.subrange(0, enc_action(a1).len() as int) =~= s.subrange(40, 40 + enc_action(a1).len() as int));
    }
    assert(prefix_of(enc_action(a2), t)) by {
        assert(t.subrange(0, enc_action(a2).len() as int) =~= s.subrange(40, 40 + enc_action(a2).len() as int));
    }
    lemma_action_unique(a1, a2, t);
    if p1 != p2 {
        lemma_parents_hashed(h1, d1, a1, p1, p2);
    }
}

/// Two hash lists whose encodings are prefixes of one sequence are equal.
pub proof fn lemma_hashes_unique(a: Seq<[u8; 32]>, b: Seq<[u8; 32]>, s: Seq<u8>)
    requires
        prefix_of(enc_hashes(a), s),
        prefix_of(enc_hashes(b), s),
        s.len() <= u64::MAX,
    ensures
        a == b,
{
    lemma_prefix_concat(spec_varint(a.len() as u64), concat32(a), s);
    lemma_prefix_concat(spec_varint(b.len() as u64), concat32(b), s);
    lemma_concat32_len(a);
    lemma_concat32_len(b);
    lemma_varint_unique(a.len() as u64, b.len() as u64, s);
    let t = s.skip(spec_varint(a.len() as u64).len() as int);
    assert forall|i: int| 0 <= i < a.len() implies a[i] == b[i] by {
        assert forall|j: int| 0 <= j < 32 implies a[i]@[j] == b[i]@[j] by {
            lemma_concat32_index(a, i, j);
            lemma_concat32_index(b, i, j);
            assert(t.subrange(0, concat32(a).len() as int)[32 * i + j] == t[32 * i + j]);
            assert(t.subrange(0, concat32(b).len() as int)[32 * i + j] == t[32 * i + j]);
        }
        assert(a[i]@ =~= b[i]@);
        assert(a[i] =~= b[i]);
    }
    assert(a =~= b);
}

/// Appends the hashes of `p`, back to back.
pub fn append_hashes(p: &Vec<[u8; 32]>, out: &mut Vec<u8>)
    ensures
        final(out)@ == old(out)@ + concat32(p@),
{
    let mut i: usize = 0;
    while i < p.len()
        invariant
            i <= p@.len(),
            out@ == old(out)@ + concat32(p@.subrange(0, i as int)),
        decreases p@.len() - i,
    {
        append_bytes(out, &p[i]);
        proof {
            lemma_concat32_push(p@.subrange(0, i as int), p@[i as int]);
            assert(p@.subrange(0, i as int).push(p@[i as int]) =~= p@.subrange(0, i + 1));
        }
        i = i + 1;
    }
    assert(p@.subrange(0, p@.len() as int) =~= p@);
}

pub fn encode_hashes(p: &Vec<[u8; 32]>, out: &mut Vec<u8>)
    ensures
        final(out)@ == old(out)@ + enc_hashes(p@),
{
    encode_varint(p.len() as u64, out);
    append_hashes(p, out);
    assert(final(out)@ =~= old(out)@ + enc_hashes(p@));
}

/// Reads a list of hashes at `pos`.
pub fn decode_hashes(buf: &[u8], pos: usize) -> (res: Option<(Vec<[u8; 32]>, usize)>)
    requires
        pos <= buf@.len(),
    ensures
        match res {
            Some((v, p)) => p == pos + enc_hashes(v@).len() && prefix_of(enc_hashes(v@), buf@.skip(pos as int)),
            None => forall|v: Seq<[u8; 32]>| !prefix_of(#[trigger] enc_hashes(v), buf@.skip(pos as int)),
        },
{
    let ghost s = buf@.skip(pos as int);
    assert(buf@.len() == buf.len());
    let (n, p1) = match decode_varint(buf, pos) {
        Some(x) => x,
        None => {
            assert forall|v: Seq<[u8; 32]>| !prefix_of(#[trigger] enc_hashes(v), s) by {
                lemma_prefix_concat(spec_varint(v.len() as u64), concat32(v), s);
            }
            return None;
        }
    };
    let ghost l1: int = p1 - pos;
    let ghost t = buf@.skip(p1 as int);
    proof { lemma_skip_add(buf@, pos as int, l1); }
    let mut out: Vec<[u8; 32]> = Vec::new();
    assert(t.subrange(0, 0) =~= Seq::<u8>::empty());
    assert(concat32(out@) =~= Seq::<u8>::empty());
    let mut p = p1;
    let mut k: u64 = 0;
    while k < n
        invariant
            k <= n,
            p1 <= p <= buf@.len(),
            buf@.len() == buf.len(),
            out@.len() == k,
            p == p1 + 32 * k,
            prefix_of(concat32(out@), t),
            t == buf@.skip(p1 as int),
            s == buf@.skip(pos as int),
            pos <= p1,
            l1 == p1 - pos,
            l1 == spec_varint(n).len(),
            prefix_of(spec_varint(n), s),
            s.skip(l1) == t,
        decreases n - k,
    {
        proof { lemma_concat32_len(out@); }
        match decode_fixed32(buf, p) {
            Some((h, p2)) => {
                proof {
                    lemma_concat32_push(out@, h);
                    lemma_skip_add(buf@, p1 as int, p - p1);
                    lemma_prefix_concat(concat32(out@), h@, t);
                }
                out.push(h);
                p = p2;
                k = k + 1;
            },
            None => {
                assert forall|v: Seq<[u8; 32]>| !prefix_of(#[trigger] enc_hashes(v), s) by {
                    lemma_prefix_concat(spec_varint(v.len() as u64), concat32(v), s);
                    if prefix_of(enc_hashes(v), s) {
                        lemma_varint_unique(v.len() as u64, n, s);
                        lemma_concat32_len(v);
                        assert(v.len() == n);
                        assert(t.len() == buf@.len() - p1);
                        assert(32 * k + 32 <= 32 * n) by (nonlinear_arith)
                            requires
                                k < n,
                        ;
                    }
                }
                return None;
            },
        }
    }
    proof {
        lemma_concat32_len(out@);
        lemma_prefix_concat(spec_varint(n), concat32(out@), s);
        assert(out@.len() as u64 == n);
    }
    Some((out, p))
}

/// Offsets of the fields of an encoded entry.
pub open spec fn entry_offsets(e: DagEntryV) -> (int, int, int, int, int) {
    let o1 = 32int;
    let o2 = o1 + spec_varint(e.hlc).len();
    let o3 = o2 + 32;
    let o4 = o3 + enc_action(e.action).len();
    let o5 = o4 + enc_hashes(e.parents).len();
    (o1, o2, o3, o4, o5)
}

pub open spec fn entry_fields_at(e: DagEntryV, s: Seq<u8>) -> bool {
    let (o1, o2, o3, o4, o5) = entry_offsets(e);
    &&& o5 + 64 <= s.len()
    &&& prefix_of(e.hash@, s)
    &&& prefix_of(spec_varint(e.hlc), s.skip(o1))
    &&& prefix_of(e.device_id.0@, s.skip(o2))
    &&& prefix_of(enc_action(e.action), s.skip(o3))
    &&& prefix_of(enc_hashes(e.parents), s.skip(o4))
    &&& prefix_of(e.signature_r@, s.skip(o5))
    &&& prefix_of(e.signature_s@, s.skip(o5 + 32))
}

pub proof fn lemma_entry_fields(e: DagEntryV, s: Seq<u8>)
    ensures
        prefix_of(enc_entry(e), s) <==> entry_fields_at(e, s),
        enc_entry(e).len() == entry_offsets(e).4 + 64,
{
    let (o1, o2, o3, o4, o5) = entry_offsets(e);
    let e6 = e.signature_s@;
    let e5 = e.signature_r@ + e6;
    let e4 = enc_hashes(e.parents) + e5;
    let e3 = enc_action(e.action) + e4;
    let e2 = e.device_id.0@ + e3;
    let e1 = spec_varint(e.hlc) + e2;
    if o5 + 64 <= s.len() {
        lemma_skip_add(s, o1, o2 - o1);
        lemma_skip_add(s, o2, o3 - o2);
        lemma_skip_add(s, o3, o4 - o3);
        lemma_skip_add(s, o4, o5 - o4);
        lemma_skip_add(s, o5, 32);
    }
    lemma_prefix_concat(e.hash@, e1, s);
    if o1 <= s.len() {
        lemma_prefix_concat(spec_varint(e.hlc), e2, s.skip(o1));
    }
    if o2 <= s.len() {
        lemma_prefix_concat(e.device_id.0@, e3, s.skip(o2));
    }
    if o3 <= s.len() {
        lemma_prefix_concat(enc_action(e.action), e4, s.skip(o3));
    }
    if o4 <= s.len() {
        lemma_prefix_concat(enc_hashes(e.parents), e5, s.skip(o4));
    }
    if o5 <= s.len() {
        lemma_prefix_concat(e.signature_r@, e6, s.skip(o5));
    }
}

/// Two entries whose encodings are prefixes of one sequence are equal.
pub proof fn lemma_entry_unique(a: DagEntryV, b: DagEntryV, s: Seq<u8>)
    requires
        prefix_of(enc_entry(a), s),
        prefix_of(enc_entry(b), s),
        s.len() <= u64::MAX,
    ensures
        a == b,
{
    lemma_entry_fields(a, s);
    lemma_entry_fields(b, s);
    let (o1, o2, o3, o4, o5) = entry_offsets(a);
    lemma_fixed32_unique(a.hash, b.hash, s);
    lemma_varint_unique(a.hlc, b.hlc, s.skip(o1));
    lemma_fixed32_unique(a.device_id.0, b.device_id.0, s.skip(o2));
    lemma_action_unique(a.action, b.action, s.skip(o3));
    lemma_hashes_unique(a.parents, b.parents, s.skip(o4));
    lemma_fixed32_unique(a.signature_r, b.signature_r, s.skip(o5));
    lemma_fixed32_unique(a.signature_s, b.signature_s, s.skip(o5 + 32));
}

/// Reads an entry at `pos`.
pub fn decode_entry(buf: &[u8], pos: usize) -> (res: Option<(DagEntry, usize)>)
    requires
        pos <= buf@.len(),
    ensures
        match res {
            Some((e, p)) => p == pos + enc_entry(e@).len() && prefix_of(enc_entry(e@), buf@.skip(pos as int)),
            None => forall|e: DagEntryV| !prefix_of(#[trigger] enc_entry(e), buf@.skip(pos as int)),
        },
{
    let ghost s = buf@.skip(pos as int);
    assert(buf@.len() == buf.len());
    let (hash, p1) = match decode_fixed32(buf, pos) {
        Some(x) => x,
        None => {
            assert forall|e: DagEntryV| !prefix_of(#[trigger] enc_entry(e), s) by {
                lemma_entry_fields(e, s);
            }
            return None;
        }
    };
    proof { lemma_skip_add(buf@, pos as int, 32); }
    let (hlc, p2) = match decode_varint(buf, p1) {
        Some(x) => x,
        None => {
            assert forall|e: DagEntryV| !prefix_of(#[trigger] enc_entry(e), s) by {
                lemma_entry_fields(e, s);
            }
            return None;
        }
    };
    let ghost o2: int = p2 - pos;
    proof { lemma_skip_add(buf@, pos as int, o2); }
    let (device, p3) = match decode_fixed32(buf, p2) {
        Some(x) => x,
        None => {
            assert forall|e: DagEntryV| !prefix_of(#[trigger] enc_entry(e), s) by {
                lemma_entry_fields(e, s);
                if prefix_of(enc_entry(e), s) {
                    lemma_varint_unique(e.hlc, hlc, s.skip(32));
                }
            }
            return None;
        }
    };
    let ghost o3: int = p3 - pos;
    proof { lemma_skip_add(buf@, pos as int, o3); }
    let (action, p4) = match decode_action(buf, p3) {
        Some(x) => x,
        None => {
            assert forall|e: DagEntryV| !prefix_of(#[trigger] enc_entry(e), s) by {
                lemma_entry_fields(e, s);
                if prefix_of(enc_entry(e), s) {
                    lemma_varint_unique(e.hlc, hlc, s.skip(32));
                }
            }
            return None;
        }
    };
    let ghost o4: int = p4 - pos;
    proof { lemma_skip_add(buf@, pos as int, o4); }
    let (parents, p5) = match decode_hashes(buf, p4) {
        Some(x) => x,
        None => {
            assert forall|e: DagEntryV| !prefix_of(#[trigger] enc_entry(e), s) by {
                lemma_entry_fields(e, s);
                if prefix_of(enc_entry(e), s) {
                    lemma_varint_unique(e.hlc, hlc, s.skip(32));
                    lemma_action_unique(e.action, action@, s.skip(o3));
                }
            }
            return None;
        }
    };
    let ghost o5: int = p5 - pos;
    proof { lemma_skip_add(buf@, pos as int, o5); }
    let (sig_r, p6) = match decode_fixed32(buf, p5) {
        Some(x) => x,
        None => {
            assert forall|e: DagEntryV| !prefix_of(#[trigger] enc_entry(e), s) by {
                lemma_entry_fields(e, s);
                if prefix_of(enc_entry(e), s) {
                    lemma_varint_unique(e.hlc, hlc, s.skip(32));
                    lemma_action_unique(e.action, action@, s.skip(o3));
                    lemma_hashes_unique(e.parents, parents@, s.skip(o4));
                }
            }
            return None;
        }
    };
    proof { lemma_skip_add(buf@, pos as int, o5 + 32); }
    let (sig_s, p7) = match decode_fixed32(buf, p6) {
        Some(x) => x,
        None => {
            assert forall|e: DagEntryV| !prefix_of(#[trigger] enc_entry(e), s) by {
                lemma_entry_fields(e, s);
                if prefix_of(enc_entry(e), s) {
                    lemma_varint_unique(e.hlc, hlc, s.skip(32));
                    lemma_action_unique(e.action, action@, s.skip(o3));
                    lemma_hashes_unique(e.parents, parents@, s.skip(o4));
                }
            }
            return None;
        }
    };
    let e = DagEntry {
        hash,
        hlc,
        device_id: DeviceId(device),
        action,
        parents,
        signature_r: sig_r,
        signature_s: sig_s,
    };
    proof {
        lemma_entry_fields(e@, s);
    }
    Some((e, p7))
}


/// Appends eight little-endian bytes of `x`.
pub fn append_le64(x: u64, out: &mut Vec<u8>)
    ensures
        final(out)@ == old(out)@ + le64(x),
{
    let mut i: u64 = 0;
    while i < 8
        invariant
            i <= 8,
            out@ == old(out)@ + le64(x).subrange(0, i as int),
        decreases 8 - i,
    {
        out.push((x >> (8 * i)) as u8);
        i = i + 1;
        assert(out@ =~= old(out)@ + le64(x).subrange(0, i as int));
    }
    assert(le64(x).subrange(0, 8) =~= le64(x));
}

/// Copies 32 bytes of `b` starting at `from` into an array.
fn array32_from(b: &[u8; 64], from: usize) -> (res: [u8; 32])
    requires
        from == 0 || from == 32,
    ensures
        res@ == b@.subrange(from as int, from + 32),
{
    let mut a: [u8; 32] = [0u8; 32];
    let mut i: usize = 0;
    while i < 32
        invariant
            i <= 32,
            from == 0 || from == 32,
            forall|j: int| 0 <= j < i ==> a@[j] == b@[from + j],
        decreases 32 - i,
    {
        a[i] = b[from + i];
        i = i + 1;
    }
    assert(a@ =~= b@.subrange(from as int, from + 32));
    a
}

/// Joins two 32-byte halves into 64 bytes.
fn array64_join(r: &[u8; 32], s: &[u8; 32]) -> (res: [u8; 64])
    ensures
        res@ == r@ + s@,
{
    let mut a: [u8; 64] = [0u8; 64];
    let mut i: usize = 0;
    while i < 64
        invariant
            i <= 64,
            forall|j: int| 0 <= j < i ==> a@[j] == (r@ + s@)[j],
        decreases 64 - i,
    {
        if i < 32 {
            a[i] = r[i];
        } else {
            a[i] = s[i - 32];
        }
        i = i + 1;
    }
    assert(a@ =~= r@ + s@);
    a
}

/// A copy of a list of hashes.
pub fn copy_hashes(p: &Vec<[u8; 32]>) -> (res: Vec<[u8; 32]>)
    ensures
        res@ == p@,
{
    let mut out: Vec<[u8; 32]> = Vec::new();
    let mut i: usize = 0;
    while i < p.len()
        invariant
            i <= p@.len(),
            out@ == p@.subrange(0, i as int),
        decreases p@.len() - i,
    {
        out.push(p[i]);
        i = i + 1;
        assert(out@ =~= p@.subrange(0, i as int));
    }
    assert(p@.subrange(0, p@.len() as int) =~= p@);
    out
}

impl DagEntry {
    /// A copy of this entry.
    pub fn duplicate(&self) -> (res: DagEntry)
        ensures
            res@ == self@,
    {
        DagEntry {
            hash: self.hash,
            hlc: self.hlc,
            device_id: self.device_id,
            action: self.action.duplicate(),
            parents: copy_hashes(&self.parents),
            signature_r: self.signature_r,
            signature_s: self.signature_s,
        }
    }

    /// Creates an entry, computes its hash and signs the hash with
    /// `signing_key`. When `device_id` is that key's public key, the entry
    /// passes both of its checks.
    pub fn new_signed(
        hlc: u64,
        device_id: DeviceId,
        action: Action,
        parents: Vec<[u8; 32]>,
        signing_key: &[u8; 32],
    ) -> (res: DagEntry)
        ensures
            res.hlc == hlc,
            res.device_id == device_id,
            res.action@ == action@,
            res.parents@ == parents@,
            res.hash@ == content_hash(hlc, device_id, action@, parents@),
            entry_signature(res@) == ed25519_signature(signing_key@, res.hash@),
            hash_ok(res@),
            device_id.0@ == ed25519_public(signing_key@) ==> signature_ok(res@),
    {
        let hash = Self::compute_hash(hlc, device_id, &action, &parents);
        let sig = ed25519_sign(signing_key, &hash);
        let r = array32_from(&sig, 0);
        let s = array32_from(&sig, 32);
        assert(r@ + s@ =~= sig@);
        DagEntry { hash, hlc, device_id, action, parents, signature_r: r, signature_s: s }
    }

    /// The blake3 hash of the content fields: the clock value (little
    /// endian), the author, the encoded action and each parent hash.
    pub fn compute_hash(hlc: u64, device_id: DeviceId, action: &Action, parents: &Vec<[u8; 32]>) -> (res:
        [u8; 32])
        ensures
            res@ == content_hash(hlc, device_id, action@, parents@),
    {
        let mut input: Vec<u8> = Vec::new();
        append_le64(hlc, &mut input);
        append_bytes(&mut input, &device_id.0);
        encode_action(action, &mut input);
        append_hashes(parents, &mut input);
        assert(input@ =~= hash_input(hlc, device_id, action@, parents@));
        blake3_digest(input.as_slice())
    }

    /// Checks that the stored hash matches the content.
    pub fn verify_hash(&self) -> (res: Result<(), DagError>)
        ensures
            res is Ok <==> hash_ok(self@),
            res matches Err(e) ==> e is InvalidHash,
    {
        let expected = Self::compute_hash(self.hlc, self.device_id, &self.action, &self.parents);
        if !crate::types::bytes32_eq(&self.hash, &expected) {
            proof {
                if self.hash@ == expected@ {
                    assert(self.hash =~= expected);
                }
            }
            return Err(DagError::InvalidHash);
        }
        Ok(())
    }

    /// Checks the Ed25519 signature of the hash against the author's key.
    pub fn verify_signature(&self) -> (res: Result<(), DagError>)
        ensures
            res is Ok <==> signature_ok(self@),
            res matches Err(e) ==> e is InvalidSignature,
    {
        let sig = array64_join(&self.signature_r, &self.signature_s);
        if ed25519_verify(&self.device_id.0, &self.hash, &sig) {
            Ok(())
        } else {
            Err(DagError::InvalidSignature)
        }
    }

    /// Serializes the entry.
    pub fn to_bytes(&self) -> (res: Vec<u8>)
        ensures
            res@ == enc_entry(self@),
    {
        let mut out: Vec<u8> = Vec::new();
        append_bytes(&mut out, &self.hash);
        encode_varint(self.hlc, &mut out);
        append_bytes(&mut out, &self.device_id.0);
        encode_action(&self.action, &mut out);
        encode_hashes(&self.parents, &mut out);
        append_bytes(&mut out, &self.signature_r);
        append_bytes(&mut out, &self.signature_s);
        assert(out@ =~= enc_entry(self@));
        out
    }

    /// Deserializes an entry from the start of `bytes` (trailing bytes are
    /// ignored). Fails exactly when no entry's encoding starts `bytes`.
    pub fn from_bytes(bytes: &[u8]) -> (res: Result<DagEntry, DagError>)
        ensures
            match res {
                Ok(e) => prefix_of(enc_entry(e@), bytes@),
                Err(err) => err is Deserialization && forall|d: DagEntryV|
                    !prefix_of(#[trigger] enc_entry(d), bytes@),
            },
    {
        assert(bytes@.skip(0) =~= bytes@);
        match decode_entry(bytes, 0) {
            Some((e, _)) => Ok(e),
            None => Err(DagError::Deserialization(String::from_str("malformed or truncated entry"))),
        }
    }
}

/// Decoding inverts encoding: the only entry whose encoding begins the
/// encoding of `e` (followed by anything) is `e` itself.
pub proof fn lemma_entry_decode_encode(e: DagEntryV, d: DagEntryV, rest: Seq<u8>)
    requires
        prefix_of(enc_entry(d), enc_entry(e) + rest),
        enc_entry(e).len() + rest.len() <= u64::MAX,
    ensures
        d == e,
        prefix_of(enc_entry(e), enc_entry(e) + rest),
{
    let s = enc_entry(e) + rest;
    assert(s.subrange(0, enc_entry(e).len() as int) =~= enc_entry(e));
    lemma_entry_unique(d, e, s);
}

} // verus!
