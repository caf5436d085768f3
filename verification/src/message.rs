//! Messages exchanged between peers, their byte encoding, length-prefixed
//! framing, and the handling of a gossip payload.

use vstd::prelude::*;
use vstd::string::StringExecFns;
use crate::codec::{
    prefix_of, spec_varint, spec_bytes, append_bytes, encode_varint, encode_bytes, decode_fixed32,
    decode_varint, decode_bytes, decode_byte, lemma_prefix_concat, lemma_varint_unique,
    lemma_fixed32_unique, lemma_bytes_unique, lemma_skip_add,
};
use crate::entry::{enc_hashes, encode_hashes, decode_hashes, lemma_hashes_unique, copy_hashes};
use crate::dag::{Dag, DagV, missing_from};
use crate::entry::{DagEntry, DagEntryV, enc_entry, hash_ok, signature_ok, lemma_entry_unique};
use crate::wire::NetError;
use crate::types::{
    AccessGrant, AccessScope, BlobHash, DeviceId, enc_scope, enc_grant, encode_scope, encode_grant,
    decode_scope, decode_grant, lemma_scope_unique, lemma_grant_unique,
};

verus! {

/// Messages exchanged between peers.
pub enum MurmurMessage {
    /// Gossip of a new DAG entry, in its byte encoding.
    DagEntryBroadcast { entry_bytes: Vec<u8> },
    /// Request for the DAG entries a peer lacks, with the requester's tips.
    DagSyncRequest { tips: Vec<[u8; 32]> },
    /// The DAG entries asked for, each in its byte encoding.
    DagSyncResponse { entries: Vec<Vec<u8>> },
    /// File data pushed to a backup device.
    BlobPush { blob_hash: BlobHash, data: Vec<u8> },
    /// Acknowledgement of a pushed blob.
    BlobPushAck { blob_hash: BlobHash, ok: bool },
    /// Request for a blob.
    BlobRequest { blob_hash: BlobHash },
    /// A blob asked for, or `None` when the peer lacks it.
    BlobResponse { blob_hash: BlobHash, data: Option<Vec<u8>> },
    /// Request for temporary access to files.
    AccessRequest { from: DeviceId, scope: AccessScope },
    /// The grant asked for, or `None` when refused.
    AccessResponse { grant: Option<AccessGrant> },
    /// Liveness check.
    Ping { timestamp: u64 },
    /// Answer to a liveness check, echoing its timestamp.
    Pong { timestamp: u64 },
}

/// The value of a [`MurmurMessage`].
pub enum MessageV {
    DagEntryBroadcast { entry_bytes: Seq<u8> },
    DagSyncRequest { tips: Seq<[u8; 32]> },
    DagSyncResponse { entries: Seq<Seq<u8>> },
    BlobPush { blob_hash: BlobHash, data: Seq<u8> },
    BlobPushAck { blob_hash: BlobHash, ok: bool },
    BlobRequest { blob_hash: BlobHash },
    BlobResponse { blob_hash: BlobHash, data: Option<Seq<u8>> },
    AccessRequest { from: DeviceId, scope: AccessScope },
    AccessResponse { grant: Option<AccessGrant> },
    Ping { timestamp: u64 },
    Pong { timestamp: u64 },
}

/// The values of a list of byte vectors.
pub open spec fn byte_lists(l: Seq<Vec<u8>>) -> Seq<Seq<u8>> {
    l.map_values(|v: Vec<u8>| v@)
}

impl View for MurmurMessage {
    type V = MessageV;

    open spec fn view(&self) -> MessageV {
        match self {
            MurmurMessage::DagEntryBroadcast { entry_bytes } => MessageV::DagEntryBroadcast {
                entry_bytes: entry_bytes@,
            },
            MurmurMessage::DagSyncRequest { tips } => MessageV::DagSyncRequest { tips: tips@ },
            MurmurMessage::DagSyncResponse { entries } => MessageV::DagSyncResponse {
                entries: byte_lists(entries@),
            },
            MurmurMessage::BlobPush { blob_hash, data } => MessageV::BlobPush {
                blob_hash: *blob_hash,
                data: data@,
            },
            MurmurMessage::BlobPushAck { blob_hash, ok } => MessageV::BlobPushAck {
                blob_hash: *blob_hash,
                ok: *ok,
            },
            MurmurMessage::BlobRequest { blob_hash } => MessageV::BlobRequest { blob_hash: *blob_hash },
            MurmurMessage::BlobResponse { blob_hash, data } => MessageV::BlobResponse {
                blob_hash: *blob_hash,
                data: match data {
                    Some(d) => Some(d@),
                    None => None,
                },
            },
            MurmurMessage::AccessRequest { from, scope } => MessageV::AccessRequest {
                from: *from,
                scope: *scope,
            },
            MurmurMessage::AccessResponse { grant } => MessageV::AccessResponse { grant: *grant },
            MurmurMessage::Ping { timestamp } => MessageV::Ping { timestamp: *timestamp },
            MurmurMessage::Pong { timestamp } => MessageV::Pong { timestamp: *timestamp },
        }
    }
}

/// The byte strings of `l` one after another, each with its length.
pub open spec fn list_body(l: Seq<Seq<u8>>) -> Seq<u8>
    decreases l.len(),
{
    if l.len() == 0 {
        Seq::empty()
    } else {
        spec_bytes(l[0]) + list_body(l.drop_first())
    }
}

/// A list of byte strings: the count, then each with its length.
pub open spec fn enc_byte_list(l: Seq<Seq<u8>>) -> Seq<u8> {
    spec_varint(l.len() as u64) + list_body(l)
}

pub open spec fn enc_bool(b: bool) -> Seq<u8> {
    if b {
        seq![1u8]
    } else {
        seq![0u8]
    }
}

pub open spec fn enc_opt_bytes(o: Option<Seq<u8>>) -> Seq<u8> {
    match o {
        None => seq![0u8],
        Some(d) => seq![1u8] + spec_bytes(d),
    }
}

pub open spec fn enc_opt_grant(o: Option<AccessGrant>) -> Seq<u8> {
    match o {
        None => seq![0u8],
        Some(g) => seq![1u8] + enc_grant(g),
    }
}

/// The variant index of a message.
pub open spec fn message_tag(m: MessageV) -> u8 {
    match m {
        MessageV::DagEntryBroadcast { .. } => 0,
        MessageV::DagSyncRequest { .. } => 1,
        MessageV::DagSyncResponse { .. } => 2,
        MessageV::BlobPush { .. } => 3,
        MessageV::BlobPushAck { .. } => 4,
        MessageV::BlobRequest { .. } => 5,
        MessageV::BlobResponse { .. } => 6,
        MessageV::AccessRequest { .. } => 7,
        MessageV::AccessResponse { .. } => 8,
        MessageV::Ping { .. } => 9,
        MessageV::Pong { .. } => 10,
    }
}

/// The bytes of a message after its variant index.
pub open spec fn message_body(m: MessageV) -> Seq<u8> {
    match m {
        MessageV::DagEntryBroadcast { entry_bytes } => spec_bytes(entry_bytes),
        MessageV::DagSyncRequest { tips } => enc_hashes(tips),
        MessageV::DagSyncResponse { entries } => enc_byte_list(entries),
        MessageV::BlobPush { blob_hash, data } => blob_hash.0@ + spec_bytes(data),
        MessageV::BlobPushAck { blob_hash, ok } => blob_hash.0@ + enc_bool(ok),
        MessageV::BlobRequest { blob_hash } => blob_hash.0@,
        MessageV::BlobResponse { blob_hash, data } => blob_hash.0@ + enc_opt_bytes(data),
        MessageV::AccessRequest { from, scope } => from.0@ + enc_scope(scope),
        MessageV::AccessResponse { grant } => enc_opt_grant(grant),
        MessageV::Ping { timestamp } => spec_varint(timestamp),
        MessageV::Pong { timestamp } => spec_varint(timestamp),
    }
}

/// The byte encoding of a message: its variant index, then its fields in
/// declaration order.
pub open spec fn enc_message(m: MessageV) -> Seq<u8> {
    seq![message_tag(m)] + message_body(m)
}

pub proof fn lemma_message_split(m: MessageV, s: Seq<u8>)
    ensures
        prefix_of(enc_message(m), s) <==> (s.len() >= 1 && s[0] == message_tag(m) && prefix_of(
            message_body(m),
            s.skip(1),
        )),
{
    lemma_prefix_concat(seq![message_tag(m)], message_body(m), s);
    if s.len() >= 1 {
        assert(s.subrange(0, 1)[0] == s[0]);
        if s[0] == message_tag(m) {
            assert(s.subrange(0, 1) =~= seq![message_tag(m)]);
        }
    }
}

proof fn lemma_list_body_push(l: Seq<Seq<u8>>, x: Seq<u8>)
    ensures
        list_body(l.push(x)) == list_body(l) + spec_bytes(x),
    decreases l.len(),
{
    if l.len() == 0 {
        assert(l.push(x).drop_first() =~= Seq::<Seq<u8>>::empty());
        assert(l.push(x)[0] == x);
        assert(list_body(l.push(x).drop_first()) == Seq::<u8>::empty());
        assert(list_body(l.push(x)) =~= spec_bytes(x) + Seq::<u8>::empty());
        assert(list_body(l) + spec_bytes(x) =~= spec_bytes(x));
    } else {
        assert(l.push(x).drop_first() =~= l.drop_first().push(x));
        lemma_list_body_push(l.drop_first(), x);
        assert(l.push(x)[0] == l[0]);
        assert(list_body(l.push(x)) =~= spec_bytes(l[0]) + (list_body(l.drop_first()) + spec_bytes(x)));
    }
}

/// Splits a list's body after its first `k` strings.
proof fn lemma_list_body_split(l: Seq<Seq<u8>>, k: int)
    requires
        0 <= k <= l.len(),
    ensures
        list_body(l) == list_body(l.take(k)) + list_body(l.skip(k)),
    decreases k,
{
    if k == 0 {
        assert(l.take(0) =~= Seq::<Seq<u8>>::empty());
        assert(l.skip(0) =~= l);
        assert(list_body(l.take(0)) + list_body(l) =~= list_body(l));
    } else {
        let r = l.drop_first();
        lemma_list_body_split(r, k - 1);
        assert(l.take(k).drop_first() =~= r.take(k - 1));
        assert(l.take(k)[0] == l[0]);
        assert(r.skip(k - 1) =~= l.skip(k));
        assert(list_body(l) =~= spec_bytes(l[0]) + (list_body(r.take(k - 1)) + list_body(r.skip(k - 1))));
    }
}

/// Two lists of the same length whose bodies both begin `s` are equal.
proof fn lemma_list_body_unique(a: Seq<Seq<u8>>, b: Seq<Seq<u8>>, s: Seq<u8>)
    requires
        a.len() == b.len(),
        prefix_of(list_body(a), s),
        prefix_of(list_body(b), s),
        s.len() <= u64::MAX,
    ensures
        a == b,
    decreases a.len(),
{
    if a.len() > 0 {
        lemma_prefix_concat(spec_bytes(a[0]), list_body(a.drop_first()), s);
        lemma_prefix_concat(spec_bytes(b[0]), list_body(b.drop_first()), s);
        lemma_bytes_unique(a[0], b[0], s);
        lemma_list_body_unique(a.drop_first(), b.drop_first(), s.skip(spec_bytes(a[0]).len() as int));
        assert(a =~= seq![a[0]] + a.drop_first());
        assert(b =~= seq![b[0]] + b.drop_first());
    } else {
        assert(a =~= b);
    }
}

proof fn lemma_list_body_len(l: Seq<Seq<u8>>)
    ensures
        list_body(l).len() >= l.len(),
    decreases l.len(),
{
    if l.len() > 0 {
        lemma_list_body_len(l.drop_first());
        crate::codec::lemma_varint_len(l[0].len() as u64);
    }
}

pub proof fn lemma_byte_list_unique(a: Seq<Seq<u8>>, b: Seq<Seq<u8>>, s: Seq<u8>)
    requires
        prefix_of(enc_byte_list(a), s),
        prefix_of(enc_byte_list(b), s),
        s.len() <= u64::MAX,
    ensures
        a == b,
{
    lemma_list_body_len(a);
    lemma_list_body_len(b);
    lemma_prefix_concat(spec_varint(a.len() as u64), list_body(a), s);
    lemma_prefix_concat(spec_varint(b.len() as u64), list_body(b), s);
    lemma_varint_unique(a.len() as u64, b.len() as u64, s);
    lemma_list_body_unique(a, b, s.skip(spec_varint(a.len() as u64).len() as int));
}

fn encode_byte_list(l: &Vec<Vec<u8>>, out: &mut Vec<u8>)
    ensures
        final(out)@ == old(out)@ + enc_byte_list(byte_lists(l@)),
{
    encode_varint(l.len() as u64, out);
    let ghost start = out@;
    let mut i: usize = 0;
    assert(byte_lists(l@).take(0) =~= Seq::<Seq<u8>>::empty());
    assert(out@ =~= start + list_body(byte_lists(l@).take(0)));
    while i < l.len()
        invariant
            i <= l@.len(),
            out@ == start + list_body(byte_lists(l@).take(i as int)),
        decreases l@.len() - i,
    {
        encode_bytes(l[i].as_slice(), out);
        proof {
            let bl = byte_lists(l@);
            assert(bl.take(i + 1) =~= bl.take(i as int).push(l@[i as int]@));
            lemma_list_body_push(bl.take(i as int), l@[i as int]@);
        }
        i = i + 1;
    }
    assert(byte_lists(l@).take(l@.len() as int) =~= byte_lists(l@));
    assert(byte_lists(l@).len() == l@.len());
    assert(final(out)@ =~= old(out)@ + enc_byte_list(byte_lists(l@)));
}

fn decode_byte_list(buf: &[u8], pos: usize) -> (res: Option<(Vec<Vec<u8>>, usize)>)
    requires
        pos <= buf@.len(),
    ensures
        match res {
            Some((l, p)) => p == pos + enc_byte_list(byte_lists(l@)).len() && prefix_of(
                enc_byte_list(byte_lists(l@)),
                buf@.skip(pos as int),
            ),
            None => forall|l: Seq<Seq<u8>>| !prefix_of(#[trigger] enc_byte_list(l), buf@.skip(pos as int)),
        },
{
    let ghost s = buf@.skip(pos as int);
    assert(buf@.len() == buf.len());
    let (n, p1) = match decode_varint(buf, pos) {
        Some(x) => x,
        None => {
            assert forall|l: Seq<Seq<u8>>| !prefix_of(#[trigger] enc_byte_list(l), s) by {
                lemma_prefix_concat(spec_varint(l.len() as u64), list_body(l), s);
            }
            return None;
        },
    };
    let ghost o1: int = p1 - pos;
    proof { lemma_skip_add(buf@, pos as int, o1); }
    let mut items: Vec<Vec<u8>> = Vec::new();
    let mut p: usize = p1;
    let mut k: u64 = 0;
    assert(byte_lists(items@) =~= Seq::<Seq<u8>>::empty());
    assert(list_body(byte_lists(items@)) =~= Seq::<u8>::empty());
    assert(buf@.skip(p1 as int).subrange(0, 0) =~= Seq::<u8>::empty());
    assert(prefix_of(list_body(byte_lists(items@)), buf@.skip(p1 as int)));
    while k < n
        invariant
            pos <= p1 <= p <= buf@.len(),
            buf@.len() == buf.len(),
            s == buf@.skip(pos as int),
            o1 == p1 - pos,
            prefix_of(spec_varint(n), s),
            o1 == spec_varint(n).len(),
            buf@.skip(p1 as int) == s.skip(o1),
            k <= n,
            items@.len() == k,
            p == p1 + list_body(byte_lists(items@)).len(),
            prefix_of(list_body(byte_lists(items@)), buf@.skip(p1 as int)),
        decreases n - k,
    {
        let ghost got = byte_lists(items@);
        proof { lemma_skip_add(buf@, p1 as int, p - p1); }
        match decode_bytes(buf, p) {
            Some((b, q)) => {
                proof {
                    lemma_list_body_push(got, b@);
                    lemma_prefix_concat(list_body(got), spec_bytes(b@), buf@.skip(p1 as int));
                }
                items.push(b);
                assert(byte_lists(items@) =~= got.push(b@));
                p = q;
                k = k + 1;
            },
            None => {
                assert forall|l: Seq<Seq<u8>>| !prefix_of(#[trigger] enc_byte_list(l), s) by {
                    if prefix_of(enc_byte_list(l), s) {
                        lemma_list_body_len(l);
                        lemma_prefix_concat(spec_varint(l.len() as u64), list_body(l), s);
                        lemma_varint_unique(l.len() as u64, n, s);
                        let t = s.skip(o1);
                        lemma_list_body_split(l, k as int);
                        lemma_prefix_concat(list_body(l.take(k as int)), list_body(l.skip(k as int)), t);
                        lemma_list_body_unique(l.take(k as int), got, t);
                        assert(l.skip(k as int).len() > 0);
                        lemma_prefix_concat(
                            spec_bytes(l.skip(k as int)[0]),
                            list_body(l.skip(k as int).drop_first()),
                            t.skip(list_body(got).len() as int),
                        );
                        lemma_skip_add(buf@, p1 as int, p - p1);
                    }
                }
                return None;
            },
        }
    }
    proof {
        lemma_prefix_concat(spec_varint(n), list_body(byte_lists(items@)), s);
    }
    Some((items, p))
}

proof fn lemma_tagged(t: u8, body: Seq<u8>, s: Seq<u8>)
    ensures
        prefix_of(seq![t] + body, s) <==> (s.len() >= 1 && s[0] == t && prefix_of(body, s.skip(1))),
{
    lemma_prefix_concat(seq![t], body, s);
    if s.len() >= 1 {
        assert(s.subrange(0, 1)[0] == s[0]);
        if s[0] == t {
            assert(s.subrange(0, 1) =~= seq![t]);
        }
    }
}

proof fn lemma_bool_unique(a: bool, b: bool, s: Seq<u8>)
    requires
        prefix_of(enc_bool(a), s),
        prefix_of(enc_bool(b), s),
    ensures
        a == b,
{
    assert(s.subrange(0, 1)[0] == s[0]);
}

proof fn lemma_opt_bytes_unique(a: Option<Seq<u8>>, b: Option<Seq<u8>>, s: Seq<u8>)
    requires
        prefix_of(enc_opt_bytes(a), s),
        prefix_of(enc_opt_bytes(b), s),
        s.len() <= u64::MAX,
    ensures
        a == b,
{
    match a {
        None => lemma_tagged(0, Seq::empty(), s),
        Some(d) => lemma_tagged(1, spec_bytes(d), s),
    }
    match b {
        None => lemma_tagged(0, Seq::empty(), s),
        Some(d) => lemma_tagged(1, spec_bytes(d), s),
    }
    assert(seq![0u8] + Seq::<u8>::empty() =~= seq![0u8]);
    if let (Some(x), Some(y)) = (a, b) {
        lemma_bytes_unique(x, y, s.skip(1));
    }
}

proof fn lemma_opt_grant_unique(a: Option<AccessGrant>, b: Option<AccessGrant>, s: Seq<u8>)
    requires
        prefix_of(enc_opt_grant(a), s),
        prefix_of(enc_opt_grant(b), s),
        s.len() <= u64::MAX,
    ensures
        a == b,
{
    match a {
        None => lemma_tagged(0, Seq::empty(), s),
        Some(g) => lemma_tagged(1, enc_grant(g), s),
    }
    match b {
        None => lemma_tagged(0, Seq::empty(), s),
        Some(g) => lemma_tagged(1, enc_grant(g), s),
    }
    assert(seq![0u8] + Seq::<u8>::empty() =~= seq![0u8]);
    if let (Some(x), Some(y)) = (a, b) {
        lemma_grant_unique(x, y, s.skip(1));
    }
}

/// Two messages whose encodings both begin `s` are equal: a message reads
/// back as the message that was written.
pub proof fn lemma_message_unique(a: MessageV, b: MessageV, s: Seq<u8>)
    requires
        prefix_of(enc_message(a), s),
        prefix_of(enc_message(b), s),
        s.len() <= u64::MAX,
    ensures
        a == b,
{
    lemma_message_split(a, s);
    lemma_message_split(b, s);
    let t = s.skip(1);
    match (a, b) {
        (MessageV::DagEntryBroadcast { entry_bytes: x }, MessageV::DagEntryBroadcast { entry_bytes: y }) => {
            lemma_bytes_unique(x, y, t);
        },
        (MessageV::DagSyncRequest { tips: x }, MessageV::DagSyncRequest { tips: y }) => {
            lemma_hashes_unique(x, y, t);
        },
        (MessageV::DagSyncResponse { entries: x }, MessageV::DagSyncResponse { entries: y }) => {
            lemma_byte_list_unique(x, y, t);
        },
        (MessageV::BlobPush { blob_hash: h1, data: d1 }, MessageV::BlobPush { blob_hash: h2, data: d2 }) => {
            lemma_prefix_concat(h1.0@, spec_bytes(d1), t);
            lemma_prefix_concat(h2.0@, spec_bytes(d2), t);
            lemma_fixed32_unique(h1.0, h2.0, t);
            lemma_bytes_unique(d1, d2, t.skip(32));
        },
        (MessageV::BlobPushAck { blob_hash: h1, ok: o1 }, MessageV::BlobPushAck { blob_hash: h2, ok: o2 }) => {
            lemma_prefix_concat(h1.0@, enc_bool(o1), t);
            lemma_prefix_concat(h2.0@, enc_bool(o2), t);
            lemma_fixed32_unique(h1.0, h2.0, t);
            lemma_bool_unique(o1, o2, t.skip(32));
        },
        (MessageV::BlobRequest { blob_hash: h1 }, MessageV::BlobRequest { blob_hash: h2 }) => {
            lemma_fixed32_unique(h1.0, h2.0, t);
        },
        (MessageV::BlobResponse { blob_hash: h1, data: d1 }, MessageV::BlobResponse { blob_hash: h2, data: d2 }) => {
            lemma_prefix_concat(h1.0@, enc_opt_bytes(d1), t);
            lemma_prefix_concat(h2.0@, enc_opt_bytes(d2), t);
            lemma_fixed32_unique(h1.0, h2.0, t);
            lemma_opt_bytes_unique(d1, d2, t.skip(32));
        },
        (MessageV::AccessRequest { from: f1, scope: c1 }, MessageV::AccessRequest { from: f2, scope: c2 }) => {
            lemma_prefix_concat(f1.0@, enc_scope(c1), t);
            lemma_prefix_concat(f2.0@, enc_scope(c2), t);
            lemma_fixed32_unique(f1.0, f2.0, t);
            lemma_scope_unique(c1, c2, t.skip(32));
        },
        (MessageV::AccessResponse { grant: g1 }, MessageV::AccessResponse { grant: g2 }) => {
            lemma_opt_grant_unique(g1, g2, t);
        },
        (MessageV::Ping { timestamp: x }, MessageV::Ping { timestamp: y }) => {
            lemma_varint_unique(x, y, t);
        },
        (MessageV::Pong { timestamp: x }, MessageV::Pong { timestamp: y }) => {
            lemma_varint_unique(x, y, t);
        },
        _ => {},
    }
}

fn encode_message(m: &MurmurMessage, out: &mut Vec<u8>)
    ensures
        final(out)@ == old(out)@ + enc_message(m@),
{
    match m {
        MurmurMessage::DagEntryBroadcast { entry_bytes } => {
            out.push(0);
            encode_bytes(entry_bytes.as_slice(), out);
        },
        MurmurMessage::DagSyncRequest { tips } => {
            out.push(1);
            encode_hashes(tips, out);
        },
        MurmurMessage::DagSyncResponse { entries } => {
            out.push(2);
            encode_byte_list(entries, out);
        },
        MurmurMessage::BlobPush { blob_hash, data } => {
            out.push(3);
            append_bytes(out, &blob_hash.0);
            encode_bytes(data.as_slice(), out);
        },
        MurmurMessage::BlobPushAck { blob_hash, ok } => {
            out.push(4);
            append_bytes(out, &blob_hash.0);
            out.push(if *ok {
                1
            } else {
                0
            });
        },
        MurmurMessage::BlobRequest { blob_hash } => {
            out.push(5);
            append_bytes(out, &blob_hash.0);
        },
        MurmurMessage::BlobResponse { blob_hash, data } => {
            out.push(6);
            append_bytes(out, &blob_hash.0);
            match data {
                None => out.push(0),
                Some(d) => {
                    out.push(1);
                    encode_bytes(d.as_slice(), out);
                },
            }
        },
        MurmurMessage::AccessRequest { from, scope } => {
            out.push(7);
            append_bytes(out, &from.0);
            encode_scope(scope, out);
        },
        MurmurMessage::AccessResponse { grant } => {
            out.push(8);
            match grant {
                None => out.push(0),
                Some(g) => {
                    out.push(1);
                    encode_grant(g, out);
                },
            }
        },
        MurmurMessage::Ping { timestamp } => {
            out.push(9);
            encode_varint(*timestamp, out);
        },
        MurmurMessage::Pong { timestamp } => {
            out.push(10);
            encode_varint(*timestamp, out);
        },
    }
    assert(final(out)@ =~= old(out)@ + enc_message(m@));
}

fn decode_bool(buf: &[u8], pos: usize) -> (res: Option<(bool, usize)>)
    requires
        pos <= buf@.len(),
    ensures
        match res {
            Some((b, p)) => p == pos + 1 && prefix_of(enc_bool(b), buf@.skip(pos as int)),
            None => forall|b: bool| !prefix_of(#[trigger] enc_bool(b), buf@.skip(pos as int)),
        },
{
    let ghost s = buf@.skip(pos as int);
    match decode_byte(buf, pos) {
        None => None,
        Some((x, p)) => {
            if x == 0 {
                assert(enc_bool(false) =~= seq![x]);
                Some((false, p))
            } else if x == 1 {
                assert(enc_bool(true) =~= seq![x]);
                Some((true, p))
            } else {
                assert forall|b: bool| !prefix_of(#[trigger] enc_bool(b), s) by {
                    assert(s.subrange(0, 1)[0] == s[0]);
                    assert(seq![x].subrange(0, 1)[0] == x);
                }
                None
            }
        },
    }
}

fn decode_opt_bytes(buf: &[u8], pos: usize) -> (res: Option<(Option<Vec<u8>>, usize)>)
    requires
        pos <= buf@.len(),
    ensures
        match res {
            Some((o, p)) => {
                let ov = match o {
                    Some(d) => Some(d@),
                    None => None,
                };
                p == pos + enc_opt_bytes(ov).len() && prefix_of(enc_opt_bytes(ov), buf@.skip(pos as int))
            },
            None => forall|o: Option<Seq<u8>>| !prefix_of(#[trigger] enc_opt_bytes(o), buf@.skip(pos as int)),
        },
{
    let ghost s = buf@.skip(pos as int);
    let (tag, p1) = match decode_byte(buf, pos) {
        Some(x) => x,
        None => {
            assert forall|o: Option<Seq<u8>>| !prefix_of(#[trigger] enc_opt_bytes(o), s) by {
                match o {
                    None => lemma_tagged(0, Seq::empty(), s),
                    Some(d) => lemma_tagged(1, spec_bytes(d), s),
                }
            }
            return None;
        },
    };
    assert(s.subrange(0, 1)[0] == s[0]);
    proof { lemma_skip_add(buf@, pos as int, 1); }
    if tag == 0 {
        assert(enc_opt_bytes(None) =~= seq![tag]);
        Some((None, p1))
    } else if tag == 1 {
        match decode_bytes(buf, p1) {
            Some((d, p2)) => {
                proof {
                    lemma_tagged(1, spec_bytes(d@), s);
                }
                Some((Some(d), p2))
            },
            None => {
                assert forall|o: Option<Seq<u8>>| !prefix_of(#[trigger] enc_opt_bytes(o), s) by {
                    match o {
                        None => {
                            lemma_tagged(0, Seq::empty(), s);
                            assert(seq![0u8] + Seq::<u8>::empty() =~= seq![0u8]);
                        },
                        Some(d) => lemma_tagged(1, spec_bytes(d), s),
                    }
                }
                None
            },
        }
    } else {
        assert forall|o: Option<Seq<u8>>| !prefix_of(#[trigger] enc_opt_bytes(o), s) by {
            match o {
                None => {
                    lemma_tagged(0, Seq::empty(), s);
                    assert(seq![0u8] + Seq::<u8>::empty() =~= seq![0u8]);
                },
                Some(d) => lemma_tagged(1, spec_bytes(d), s),
            }
        }
        None
    }
}

fn decode_opt_grant(buf: &[u8], pos: usize) -> (res: Option<(Option<AccessGrant>, usize)>)
    requires
        pos <= buf@.len(),
    ensures
        match res {
            Some((o, p)) => p == pos + enc_opt_grant(o).len() && prefix_of(enc_opt_grant(o), buf@.skip(pos as int)),
            None => forall|o: Option<AccessGrant>| !prefix_of(#[trigger] enc_opt_grant(o), buf@.skip(pos as int)),
        },
{
    let ghost s = buf@.skip(pos as int);
    let (tag, p1) = match decode_byte(buf, pos) {
        Some(x) => x,
        None => {
            assert forall|o: Option<AccessGrant>| !prefix_of(#[trigger] enc_opt_grant(o), s) by {
                match o {
                    None => lemma_tagged(0, Seq::empty(), s),
                    Some(g) => lemma_tagged(1, enc_grant(g), s),
                }
            }
            return None;
        },
    };
    assert(s.subrange(0, 1)[0] == s[0]);
    proof { lemma_skip_add(buf@, pos as int, 1); }
    if tag == 0 {
        assert(enc_opt_grant(None) =~= seq![tag]);
        Some((None, p1))
    } else if tag == 1 {
        match decode_grant(buf, p1) {
            Some((g, p2)) => {
                proof {
                    lemma_tagged(1, enc_grant(g), s);
                }
                Some((Some(g), p2))
            },
            None => {
                assert forall|o: Option<AccessGrant>| !prefix_of(#[trigger] enc_opt_grant(o), s) by {
                    match o {
                        None => {
                            lemma_tagged(0, Seq::empty(), s);
                            assert(seq![0u8] + Seq::<u8>::empty() =~= seq![0u8]);
                        },
                        Some(g) => lemma_tagged(1, enc_grant(g), s),
                    }
                }
                None
            },
        }
    } else {
        assert forall|o: Option<AccessGrant>| !prefix_of(#[trigger] enc_opt_grant(o), s) by {
            match o {
                None => {
                    lemma_tagged(0, Seq::empty(), s);
                    assert(seq![0u8] + Seq::<u8>::empty() =~= seq![0u8]);
                },
                Some(g) => lemma_tagged(1, enc_grant(g), s),
            }
        }
        None
    }
}

/// The pair of fields `a` then `b` begins `t` exactly when `a` does and
/// `b` follows it.
proof fn lemma_pair(a: Seq<u8>, b: Seq<u8>, t: Seq<u8>)
    ensures
        prefix_of(a + b, t) <==> (prefix_of(a, t) && prefix_of(b, t.skip(a.len() as int))),
{
    lemma_prefix_concat(a, b, t);
}

fn decode_message(buf: &[u8]) -> (res: Option<MurmurMessage>)
    ensures
        match res {
            Some(m) => prefix_of(enc_message(m@), buf@),
            None => forall|m: MessageV| !prefix_of(#[trigger] enc_message(m), buf@),
        },
{
    let ghost s = buf@;
    assert(buf@.skip(0) =~= s);
    let (tag, p1) = match decode_byte(buf, 0) {
        Some(x) => x,
        None => {
            assert forall|m: MessageV| !prefix_of(#[trigger] enc_message(m), s) by {
                lemma_message_split(m, s);
            }
            return None;
        },
    };
    let ghost t = s.skip(1);
    assert(s.subrange(0, 1)[0] == s[0]);
    assert(s[0] == tag);
    if tag == 0 {
        match decode_bytes(buf, 1) {
            Some((b, _)) => {
                let m = MurmurMessage::DagEntryBroadcast { entry_bytes: b };
                proof { lemma_message_split(m@, s); }
                Some(m)
            },
            None => {
                assert forall|m: MessageV| !prefix_of(#[trigger] enc_message(m), s) by {
                    lemma_message_split(m, s);
                }
                None
            },
        }
    } else if tag == 1 {
        match decode_hashes(buf, 1) {
            Some((h, _)) => {
                let m = MurmurMessage::DagSyncRequest { tips: h };
                proof { lemma_message_split(m@, s); }
                Some(m)
            },
            None => {
                assert forall|m: MessageV| !prefix_of(#[trigger] enc_message(m), s) by {
                    lemma_message_split(m, s);
                }
                None
            },
        }
    } else if tag == 2 {
        match decode_byte_list(buf, 1) {
            Some((l, _)) => {
                let m = MurmurMessage::DagSyncResponse { entries: l };
                proof { lemma_message_split(m@, s); }
                Some(m)
            },
            None => {
                assert forall|m: MessageV| !prefix_of(#[trigger] enc_message(m), s) by {
                    lemma_message_split(m, s);
                }
                None
            },
        }
    } else if tag == 3 || tag == 4 || tag == 5 || tag == 6 || tag == 7 {
        let (h, p2) = match decode_fixed32(buf, 1) {
            Some(x) => x,
            None => {
                assert forall|m: MessageV| !prefix_of(#[trigger] enc_message(m), s) by {
                    lemma_message_split(m, s);
                    match m {
                        MessageV::BlobPush { blob_hash, data } => lemma_pair(blob_hash.0@, spec_bytes(data), t),
                        MessageV::BlobPushAck { blob_hash, ok } => lemma_pair(blob_hash.0@, enc_bool(ok), t),
                        MessageV::BlobResponse { blob_hash, data } => lemma_pair(blob_hash.0@, enc_opt_bytes(data), t),
                        MessageV::AccessRequest { from, scope } => lemma_pair(from.0@, enc_scope(scope), t),
                        _ => {},
                    }
                }
                return None;
            },
        };
        proof { lemma_skip_add(s, 1, 32); }
        if tag == 5 {
            let m = MurmurMessage::BlobRequest { blob_hash: BlobHash(h) };
            proof { lemma_message_split(m@, s); }
            return Some(m);
        }
        if tag == 3 {
            match decode_bytes(buf, p2) {
                Some((d, _)) => {
                    let m = MurmurMessage::BlobPush { blob_hash: BlobHash(h), data: d };
                    proof {
                        lemma_message_split(m@, s);
                        lemma_pair(h@, spec_bytes(d@), t);
                    }
                    Some(m)
                },
                None => {
                    assert forall|m: MessageV| !prefix_of(#[trigger] enc_message(m), s) by {
                        lemma_message_split(m, s);
                        match m {
                            MessageV::BlobPush { blob_hash, data } => lemma_pair(blob_hash.0@, spec_bytes(data), t),
                            _ => {},
                        }
                    }
                    None
                },
            }
        } else if tag == 4 {
            match decode_bool(buf, p2) {
                Some((ok, _)) => {
                    let m = MurmurMessage::BlobPushAck { blob_hash: BlobHash(h), ok };
                    proof {
                        lemma_message_split(m@, s);
                        lemma_pair(h@, enc_bool(ok), t);
                    }
                    Some(m)
                },
                None => {
                    assert forall|m: MessageV| !prefix_of(#[trigger] enc_message(m), s) by {
                        lemma_message_split(m, s);
                        match m {
                            MessageV::BlobPushAck { blob_hash, ok } => lemma_pair(blob_hash.0@, enc_bool(ok), t),
                            _ => {},
                        }
                    }
                    None
                },
            }
        } else if tag == 6 {
            match decode_opt_bytes(buf, p2) {
                Some((d, _)) => {
                    let m = MurmurMessage::BlobResponse { blob_hash: BlobHash(h), data: d };
                    proof {
                        lemma_message_split(m@, s);
                        if let MessageV::BlobResponse { blob_hash, data } = m@ {
                            lemma_pair(h@, enc_opt_bytes(data), t);
                        }
                    }
                    Some(m)
                },
                None => {
                    assert forall|m: MessageV| !prefix_of(#[trigger] enc_message(m), s) by {
                        lemma_message_split(m, s);
                        match m {
                            MessageV::BlobResponse { blob_hash, data } => lemma_pair(blob_hash.0@, enc_opt_bytes(data), t),
                            _ => {},
                        }
                    }
                    None
                },
            }
        } else {
            match decode_scope(buf, p2) {
                Some((c, _)) => {
                    let m = MurmurMessage::AccessRequest { from: DeviceId(h), scope: c };
                    proof {
                        lemma_message_split(m@, s);
                        lemma_pair(h@, enc_scope(c), t);
                    }
                    Some(m)
                },
                None => {
                    assert forall|m: MessageV| !prefix_of(#[trigger] enc_message(m), s) by {
                        lemma_message_split(m, s);
                        match m {
                            MessageV::AccessRequest { from, scope } => lemma_pair(from.0@, enc_scope(scope), t),
                            _ => {},
                        }
                    }
                    None
                },
            }
        }
    } else if tag == 8 {
        match decode_opt_grant(buf, 1) {
            Some((g, _)) => {
                let m = MurmurMessage::AccessResponse { grant: g };
                proof { lemma_message_split(m@, s); }
                Some(m)
            },
            None => {
                assert forall|m: MessageV| !prefix_of(#[trigger] enc_message(m), s) by {
                    lemma_message_split(m, s);
                }
                None
            },
        }
    } else if tag == 9 || tag == 10 {
        match decode_varint(buf, 1) {
            Some((x, _)) => {
                let m = if tag == 9 {
                    MurmurMessage::Ping { timestamp: x }
                } else {
                    MurmurMessage::Pong { timestamp: x }
                };
                proof { lemma_message_split(m@, s); }
                Some(m)
            },
            None => {
                assert forall|m: MessageV| !prefix_of(#[trigger] enc_message(m), s) by {
                    lemma_message_split(m, s);
                }
                None
            },
        }
    } else {
        assert forall|m: MessageV| !prefix_of(#[trigger] enc_message(m), s) by {
            lemma_message_split(m, s);
        }
        None
    }
}

impl MurmurMessage {
    /// The byte encoding of the message.
    pub fn to_bytes(&self) -> (res: Vec<u8>)
        ensures
            res@ == enc_message(self@),
    {
        let mut out: Vec<u8> = Vec::new();
        encode_message(self, &mut out);
        assert(out@ =~= enc_message(self@));
        out
    }

    /// Reads a message from the start of `bytes` (trailing bytes are
    /// ignored). Fails exactly when no message's encoding begins `bytes`.
    pub fn from_bytes(bytes: &[u8]) -> (res: Result<MurmurMessage, NetError>)
        ensures
            match res {
                Ok(m) => prefix_of(enc_message(m@), bytes@),
                Err(e) => e is Deserialization && forall|m: MessageV| !prefix_of(#[trigger] enc_message(m), bytes@),
            },
    {
        match decode_message(bytes) {
            Some(m) => Ok(m),
            None => Err(NetError::Deserialization(String::from_str("malformed or truncated message"))),
        }
    }
}

/// The big-endian bytes of `x`.
pub open spec fn be32(x: u32) -> Seq<u8> {
    seq![(x / 0x100_0000) as u8, ((x / 0x1_0000) % 256) as u8, ((x / 0x100) % 256) as u8, (x % 256) as u8]
}

/// The number whose big-endian bytes are `b`.
pub open spec fn be32_value(b: Seq<u8>) -> nat {
    (0x100_0000 * b[0] + 0x1_0000 * b[1] + 0x100 * b[2] + b[3]) as nat
}

/// A message framed for a stream: its length as four big-endian bytes,
/// then its encoding. A message longer than `max` bytes is refused.
pub fn frame_message(message: &MurmurMessage, max: usize) -> (res: Result<Vec<u8>, NetError>)
    ensures
        enc_message(message@).len() > max ==> (res matches Err(NetError::MessageTooLarge { size, max: m })
            && size == enc_message(message@).len() && m == max),
        enc_message(message@).len() <= max ==> (res matches Ok(f) && f@ == be32(
            enc_message(message@).len() as u32,
        ) + enc_message(message@)),
{
    let bytes = message.to_bytes();
    if bytes.len() > max {
        return Err(NetError::MessageTooLarge { size: bytes.len(), max });
    }
    let n = bytes.len() as u32;
    let mut out: Vec<u8> = Vec::new();
    out.push((n / 0x100_0000) as u8);
    out.push(((n / 0x1_0000) % 256) as u8);
    out.push(((n / 0x100) % 256) as u8);
    out.push((n % 256) as u8);
    append_bytes(&mut out, bytes.as_slice());
    assert(out@ =~= be32(n) + enc_message(message@));
    Ok(out)
}

/// Reading back the length in front of a frame gives the length written.
pub proof fn lemma_frame_length_roundtrip(x: u32)
    ensures
        be32_value(be32(x)) == x,
{
    let b = be32(x);
    let a0: u32 = x / 0x100_0000;
    let a1: u32 = (x / 0x1_0000) % 256;
    let a2: u32 = (x / 0x100) % 256;
    let a3: u32 = x % 256;
    assert(0x100_0000 * a0 + 0x1_0000 * a1 + 0x100 * a2 + a3 == x) by (nonlinear_arith)
        requires
            a0 == x / 0x100_0000,
            a1 == (x / 0x1_0000) % 256,
            a2 == (x / 0x100) % 256,
            a3 == x % 256,
    ;
    assert(b[0] == a0 && b[1] == a1 && b[2] == a2 && b[3] == a3);
}

/// The bytes a reader takes as the message of `frame`: as many as the
/// first four bytes give, after them.
pub open spec fn frame_body(frame: Seq<u8>) -> Seq<u8> {
    frame.skip(4).take(be32_value(frame.take(4)) as int)
}

/// Reading a framed message back: the first four bytes give its length,
/// and the bytes after them decode to that message and no other.
pub proof fn lemma_frame_roundtrip(m: MessageV, d: MessageV)
    requires
        enc_message(m).len() <= u32::MAX,
    ensures
        be32_value((be32(enc_message(m).len() as u32) + enc_message(m)).take(4)) == enc_message(m).len(),
        frame_body(be32(enc_message(m).len() as u32) + enc_message(m)) == enc_message(m),
        prefix_of(enc_message(d), frame_body(be32(enc_message(m).len() as u32) + enc_message(m))) ==> d == m,
{
    let e = enc_message(m);
    let f = be32(e.len() as u32) + e;
    assert(f.take(4) =~= be32(e.len() as u32));
    lemma_frame_length_roundtrip(e.len() as u32);
    assert(f.skip(4) =~= e);
    assert(e.take(e.len() as int) =~= e);
    assert(prefix_of(e, e)) by {
        assert(e.subrange(0, e.len() as int) =~= e);
    }
    if prefix_of(enc_message(d), frame_body(f)) {
        lemma_message_unique(d, m, e);
    }
}

/// The length announced by the four bytes in front of a framed message,
/// refused when above `max`.
pub fn frame_length(len_buf: &[u8; 4], max: usize) -> (res: Result<usize, NetError>)
    ensures
        be32_value(len_buf@) > max ==> (res matches Err(NetError::MessageTooLarge { size, max: m })
            && size == be32_value(len_buf@) && m == max),
        be32_value(len_buf@) <= max ==> res == Ok::<usize, NetError>(be32_value(len_buf@) as usize),
{
    let n: u64 = 0x100_0000 * (len_buf[0] as u64) + 0x1_0000 * (len_buf[1] as u64) + 0x100 * (
    len_buf[2] as u64) + len_buf[3] as u64;
    if n > max as u64 {
        assert(n <= u32::MAX);
        return Err(NetError::MessageTooLarge { size: n as usize, max });
    }
    Ok(n as usize)
}

/// Whether an entry can be received by a DAG holding `v`: its hash and
/// signature check out and every parent is stored.
pub open spec fn receivable(v: DagV, e: DagEntryV) -> bool {
    hash_ok(e) && signature_ok(e) && missing_from(v.entries, e.parents).len() == 0
}

/// `content` is a gossip broadcast carrying the encoding of `e`.
pub open spec fn gossip_entry(content: Seq<u8>, e: DagEntryV) -> bool {
    exists|b: Seq<u8>|
        prefix_of(#[trigger] enc_message(MessageV::DagEntryBroadcast { entry_bytes: b }), content)
            && prefix_of(enc_entry(e), b)
}

/// Handles one gossip payload: a broadcast DAG entry is received into the
/// DAG; a payload that does not decode, any other message, and an entry
/// refused leave it unchanged.
pub fn handle_gossip_message(content: &[u8], dag: &mut Dag)
    requires
        old(dag)@.wf(),
    ensures
        final(dag)@.wf(),
        (forall|e: DagEntryV| !gossip_entry(content@, e)) ==> final(dag)@ == old(dag)@,
        forall|e: DagEntryV|
            gossip_entry(content@, e) ==> final(dag)@ == if receivable(old(dag)@, e) {
                old(dag)@.received_if_new(e)
            } else {
                old(dag)@
            },
{
    let msg = match MurmurMessage::from_bytes(content) {
        Ok(m) => m,
        Err(_) => {
            assert forall|e: DagEntryV| !gossip_entry(content@, e) by {
                if gossip_entry(content@, e) {
                    let b = choose|b: Seq<u8>|
                        prefix_of(#[trigger] enc_message(MessageV::DagEntryBroadcast { entry_bytes: b }), content@)
                            && prefix_of(enc_entry(e), b);
                }
            }
            return;
        },
    };
    assert(content@.len() == content.len());
    match msg {
        MurmurMessage::DagEntryBroadcast { entry_bytes } => {
            let ghost mb = entry_bytes@;
            proof {
                assert forall|e: DagEntryV| gossip_entry(content@, e) implies prefix_of(enc_entry(e), mb) by {
                    let b = choose|b: Seq<u8>|
                        prefix_of(#[trigger] enc_message(MessageV::DagEntryBroadcast { entry_bytes: b }), content@)
                            && prefix_of(enc_entry(e), b);
                    lemma_message_unique(
                        MessageV::DagEntryBroadcast { entry_bytes: b },
                        MessageV::DagEntryBroadcast { entry_bytes: mb },
                        content@,
                    );
                }
            }
            match DagEntry::from_bytes(entry_bytes.as_slice()) {
                Ok(entry) => {
                    proof {
                        assert(gossip_entry(content@, entry@));
                        assert forall|e: DagEntryV| gossip_entry(content@, e) implies e == entry@ by {
                            assert(mb.len() <= u64::MAX);
                            lemma_entry_unique(e, entry@, mb);
                        }
                    }
                    let _ = dag.receive_entry(entry);
                },
                Err(_) => {},
            }
        },
        _ => {
            assert forall|e: DagEntryV| !gossip_entry(content@, e) by {
                if gossip_entry(content@, e) {
                    let b = choose|b: Seq<u8>|
                        prefix_of(#[trigger] enc_message(MessageV::DagEntryBroadcast { entry_bytes: b }), content@)
                            && prefix_of(enc_entry(e), b);
                    lemma_message_unique(MessageV::DagEntryBroadcast { entry_bytes: b }, msg@, content@);
                }
            }
        },
    }
}

/// The gossip payloads announcing every stored entry, in store order, as
/// sent to a peer that has just joined.
pub fn broadcast_payloads(dag: &Dag) -> (res: Vec<Vec<u8>>)
    ensures
        res@.len() == dag@.entries.len(),
        forall|i: int|
            0 <= i < res@.len() ==> #[trigger] res@[i]@ == enc_message(
                MessageV::DagEntryBroadcast { entry_bytes: enc_entry(dag@.entries[i]) },
            ),
{
    let all = dag.all_entries();
    let mut out: Vec<Vec<u8>> = Vec::new();
    let mut i: usize = 0;
    while i < all.len()
        invariant
            i <= all@.len(),
            all@.map_values(|e: DagEntry| e@) == dag@.entries,
            out@.len() == i,
            forall|j: int|
                0 <= j < i ==> #[trigger] out@[j]@ == enc_message(
                    MessageV::DagEntryBroadcast { entry_bytes: enc_entry(dag@.entries[j]) },
                ),
        decreases all@.len() - i,
    {
        let b = all[i].to_bytes();
        assert(all@[i as int]@ == dag@.entries[i as int]);
        let m = MurmurMessage::DagEntryBroadcast { entry_bytes: b };
        out.push(m.to_bytes());
        i = i + 1;
    }
    out
}

/// What the daemon's gossip loop is told of: a payload from a peer, a
/// peer connecting or leaving, or a new local entry (its bytes) to announce.
pub enum GossipEvent {
    Received(Vec<u8>),
    NeighborUp,
    NeighborDown,
    Announce(Vec<u8>),
}

/// One step of the daemon's gossip loop, given the connected-peer count:
/// a received payload is handled into the DAG; a peer that connects is
/// sent every stored entry; an entry to announce is wrapped in a
/// broadcast message. Returns the new peer count (kept modulo 2^64, as an
/// atomic counter is) and the payloads to broadcast, in order.
pub fn gossip_step(dag: &mut Dag, peers: u64, event: GossipEvent) -> (res: (u64, Vec<Vec<u8>>))
    requires
        old(dag)@.wf(),
    ensures
        final(dag)@.wf(),
        match event {
            GossipEvent::Received(c) => {
                &&& res.0 == peers
                &&& res.1@.len() == 0
                &&& (forall|e: DagEntryV| !gossip_entry(c@, e)) ==> final(dag)@ == old(dag)@
                &&& forall|e: DagEntryV|
                    gossip_entry(c@, e) ==> final(dag)@ == if receivable(old(dag)@, e) {
                        old(dag)@.received_if_new(e)
                    } else {
                        old(dag)@
                    }
            },
            GossipEvent::NeighborUp => {
                &&& res.0 == (if peers == u64::MAX {
                    0
                } else {
                    peers + 1
                })
                &&& final(dag)@ == old(dag)@
                &&& res.1@.len() == old(dag)@.entries.len()
                &&& forall|i: int|
                    0 <= i < res.1@.len() ==> #[trigger] res.1@[i]@ == enc_message(
                        MessageV::DagEntryBroadcast { entry_bytes: enc_entry(old(dag)@.entries[i]) },
                    )
            },
            GossipEvent::NeighborDown => {
                &&& res.0 == (if peers == 0 {
                    u64::MAX
                } else {
                    (peers - 1) as u64
                })
                &&& final(dag)@ == old(dag)@
                &&& res.1@.len() == 0
            },
            GossipEvent::Announce(b) => {
                &&& res.0 == peers
                &&& final(dag)@ == old(dag)@
                &&& res.1@.len() == 1
                &&& res.1@[0]@ == enc_message(MessageV::DagEntryBroadcast { entry_bytes: b@ })
            },
        },
{
    match event {
        GossipEvent::Received(content) => {
            handle_gossip_message(content.as_slice(), dag);
            (peers, Vec::new())
        },
        GossipEvent::NeighborUp => {
            let n = if peers == u64::MAX {
                0
            } else {
                peers + 1
            };
            (n, broadcast_payloads(dag))
        },
        GossipEvent::NeighborDown => {
            let n = if peers == 0 {
                u64::MAX
            } else {
                peers - 1
            };
            (n, Vec::new())
        },
        GossipEvent::Announce(entry_bytes) => {
            let m = MurmurMessage::DagEntryBroadcast { entry_bytes };
            let mut out: Vec<Vec<u8>> = Vec::new();
            out.push(m.to_bytes());
            (peers, out)
        },
    }
}

} // verus!
