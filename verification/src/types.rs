//! Identifiers, roles, file metadata, access grants and the actions that
//! DAG entries record, with their byte encodings.

use vstd::prelude::*;
use vstd::string::StringExecFns;
use crate::primitives::{ed25519_public, ed25519_public_key};
use crate::codec::{prefix_of, spec_varint, spec_text, append_bytes, encode_varint, encode_text, lemma_prefix_concat, lemma_varint_unique, lemma_text_unique, lemma_fixed32_unique, decode_fixed32, decode_varint, decode_text, decode_byte, lemma_skip_add};

verus! {

/// A device identity: the device's Ed25519 public key.
#[derive(Clone, Copy, Debug, PartialEq, Eq, Hash, PartialOrd, Ord)]
pub struct DeviceId(pub [u8; 32]);

/// A content hash of a file (blake3).
#[derive(Clone, Copy, Debug, PartialEq, Eq, Hash, PartialOrd, Ord)]
pub struct BlobHash(pub [u8; 32]);

/// The role a device plays in the network.
#[derive(Clone, Copy, Debug, PartialEq, Eq, Hash)]
pub enum DeviceRole {
    /// Produces files.
    Source,
    /// Stores copies of files.
    Backup,
    /// Both produces and stores.
    Full,
}

/// What an access grant covers.
#[derive(Clone, Copy, Debug, PartialEq, Eq, Hash)]
pub enum AccessScope {
    /// Every file.
    AllFiles,
    /// One file.
    SingleFile(BlobHash),
}

/// A signed, time-limited grant of access from one device to another.
#[derive(Clone, Copy, Debug, PartialEq, Eq, Hash)]
pub struct AccessGrant {
    pub to: DeviceId,
    pub from: DeviceId,
    pub scope: AccessScope,
    pub expires_at: u64,
    pub signature_r: [u8; 32],
    pub signature_s: [u8; 32],
}

/// Metadata of a file added to the network.
#[derive(Clone, Debug, PartialEq, Eq, Hash)]
pub struct FileMetadata {
    pub blob_hash: BlobHash,
    pub filename: String,
    pub size: u64,
    pub mime_type: Option<String>,
    pub created_at: u64,
    pub device_origin: DeviceId,
}

/// The mathematical value of a [`FileMetadata`].
pub struct FileMetadataV {
    pub blob_hash: BlobHash,
    pub filename: Seq<char>,
    pub size: u64,
    pub mime_type: Option<Seq<char>>,
    pub created_at: u64,
    pub device_origin: DeviceId,
}

pub open spec fn opt_text_view(o: Option<String>) -> Option<Seq<char>> {
    match o {
        Some(t) => Some(t@),
        None => None,
    }
}

impl View for FileMetadata {
    type V = FileMetadataV;

    open spec fn view(&self) -> FileMetadataV {
        FileMetadataV {
            blob_hash: self.blob_hash,
            filename: self.filename@,
            size: self.size,
            mime_type: opt_text_view(self.mime_type),
            created_at: self.created_at,
            device_origin: self.device_origin,
        }
    }
}

/// A mutation recorded by a DAG entry.
#[derive(Clone, Debug, PartialEq, Eq, Hash)]
pub enum Action {
    /// A device asks to join under a display name.
    DeviceJoinRequest { device_id: DeviceId, name: String },
    /// A device is approved with a role.
    DeviceApproved { device_id: DeviceId, role: DeviceRole },
    /// A device's approval is withdrawn.
    DeviceRevoked { device_id: DeviceId },
    /// A device's display name changes.
    DeviceNameChanged { device_id: DeviceId, name: String },
    /// A file is added.
    FileAdded { metadata: FileMetadata },
    /// A file is deleted.
    FileDeleted { blob_hash: BlobHash },
    /// Access is granted.
    AccessGranted { grant: AccessGrant },
    /// All access granted to a device is revoked.
    AccessRevoked { to: DeviceId },
    /// Joins concurrent branches of the DAG.
    Merge,
    /// Records a hash of the materialized state.
    Snapshot { state_hash: [u8; 32] },
}

/// The mathematical value of an [`Action`].
pub enum ActionV {
    DeviceJoinRequest { device_id: DeviceId, name: Seq<char> },
    DeviceApproved { device_id: DeviceId, role: DeviceRole },
    DeviceRevoked { device_id: DeviceId },
    DeviceNameChanged { device_id: DeviceId, name: Seq<char> },
    FileAdded { metadata: FileMetadataV },
    FileDeleted { blob_hash: BlobHash },
    AccessGranted { grant: AccessGrant },
    AccessRevoked { to: DeviceId },
    Merge,
    Snapshot { state_hash: [u8; 32] },
}

impl View for Action {
    type V = ActionV;

    open spec fn view(&self) -> ActionV {
        match self {
            Action::DeviceJoinRequest { device_id, name } => ActionV::DeviceJoinRequest {
                device_id: *device_id,
                name: name@,
            },
            Action::DeviceApproved { device_id, role } => ActionV::DeviceApproved {
                device_id: *device_id,
                role: *role,
            },
            Action::DeviceRevoked { device_id } => ActionV::DeviceRevoked { device_id: *device_id },
            Action::DeviceNameChanged { device_id, name } => ActionV::DeviceNameChanged {
                device_id: *device_id,
                name: name@,
            },
            Action::FileAdded { metadata } => ActionV::FileAdded { metadata: metadata@ },
            Action::FileDeleted { blob_hash } => ActionV::FileDeleted { blob_hash: *blob_hash },
            Action::AccessGranted { grant } => ActionV::AccessGranted { grant: *grant },
            Action::AccessRevoked { to } => ActionV::AccessRevoked { to: *to },
            Action::Merge => ActionV::Merge,
            Action::Snapshot { state_hash } => ActionV::Snapshot { state_hash: *state_hash },
        }
    }
}

// ---------------------------------------------------------------------------
// Comparing identifiers
// ---------------------------------------------------------------------------

/// Whether two 32-byte arrays are equal.
pub fn bytes32_eq(a: &[u8; 32], b: &[u8; 32]) -> (res: bool)
    ensures
        res == (*a == *b),
{
    let mut i: usize = 0;
    while i < 32
        invariant
            i <= 32,
            forall|j: int| 0 <= j < i ==> a@[j] == b@[j],
        decreases 32 - i,
    {
        if a[i] != b[i] {
            assert(a@[i as int] != b@[i as int]);
            return false;
        }
        i = i + 1;
    }
    assert(a@ =~= b@);
    assert(*a =~= *b);
    true
}

/// Lexicographic order on byte sequences of equal length: `a` comes first.
pub open spec fn bytes_lt(a: Seq<u8>, b: Seq<u8>) -> bool {
    exists|k: int|
        0 <= k < a.len() && k < b.len() && a[k] < b[k] && forall|j: int| 0 <= j < k ==> a[j] == b[j]
}

/// Whether `a` orders strictly before `b`, byte by byte.
pub fn bytes32_lt(a: &[u8; 32], b: &[u8; 32]) -> (res: bool)
    ensures
        res == bytes_lt(a@, b@),
{
    let mut i: usize = 0;
    while i < 32
        invariant
            i <= 32,
            forall|j: int| 0 <= j < i ==> a@[j] == b@[j],
        decreases 32 - i,
    {
        if a[i] != b[i] {
            if a[i] < b[i] {
                assert(bytes_lt(a@, b@)) by {
                    assert(a@[i as int] < b@[i as int]);
                }
                return true;
            } else {
                assert(!bytes_lt(a@, b@)) by {
                    if bytes_lt(a@, b@) {
                        let k = choose|k: int|
                            0 <= k < a@.len() && k < b@.len() && a@[k] < b@[k] && forall|j: int|
                                0 <= j < k ==> a@[j] == b@[j];
                        if k < i {
                        } else if k == i {
                        } else {
                            assert(a@[i as int] == b@[i as int]);
                        }
                    }
                }
                return false;
            }
        }
        i = i + 1;
    }
    assert(!bytes_lt(a@, b@));
    false
}

impl DeviceId {
    /// Wraps 32 public-key bytes.
    pub fn from_bytes(bytes: [u8; 32]) -> (res: DeviceId)
        ensures
            res.0 == bytes,
    {
        DeviceId(bytes)
    }

    /// The public-key bytes.
    pub fn as_bytes(&self) -> (res: &[u8; 32])
        ensures
            *res == self.0,
    {
        &self.0
    }
}

impl DeviceId {
    /// The id of the device whose Ed25519 secret key is `secret`: its
    /// public key.
    pub fn from_secret_key(secret: &[u8; 32]) -> (res: DeviceId)
        ensures
            res.0@ == ed25519_public(secret@),
    {
        DeviceId(ed25519_public_key(secret))
    }
}

/// A copy of `s`.
pub fn copy_string(s: &String) -> (res: String)
    ensures
        res@ == s@,
{
    String::from_str(s.as_str())
}

/// A copy of `m`.
pub fn copy_meta(m: &FileMetadata) -> (res: FileMetadata)
    ensures
        res@ == m@,
{
    let mime = match &m.mime_type {
        Some(t) => Some(copy_string(t)),
        None => None,
    };
    FileMetadata {
        blob_hash: m.blob_hash,
        filename: copy_string(&m.filename),
        size: m.size,
        mime_type: mime,
        created_at: m.created_at,
        device_origin: m.device_origin,
    }
}

impl Action {
    /// A copy of this action.
    pub fn duplicate(&self) -> (res: Action)
        ensures
            res@ == self@,
    {
        match self {
            Action::DeviceJoinRequest { device_id, name } => Action::DeviceJoinRequest {
                device_id: *device_id,
                name: copy_string(name),
            },
            Action::DeviceApproved { device_id, role } => Action::DeviceApproved {
                device_id: *device_id,
                role: *role,
            },
            Action::DeviceRevoked { device_id } => Action::DeviceRevoked { device_id: *device_id },
            Action::DeviceNameChanged { device_id, name } => Action::DeviceNameChanged {
                device_id: *device_id,
                name: copy_string(name),
            },
            Action::FileAdded { metadata } => Action::FileAdded { metadata: copy_meta(metadata) },
            Action::FileDeleted { blob_hash } => Action::FileDeleted { blob_hash: *blob_hash },
            Action::AccessGranted { grant } => Action::AccessGranted { grant: *grant },
            Action::AccessRevoked { to } => Action::AccessRevoked { to: *to },
            Action::Merge => Action::Merge,
            Action::Snapshot { state_hash } => Action::Snapshot { state_hash: *state_hash },
        }
    }
}

impl BlobHash {
    /// The blake3 hash of `data`.
    pub fn from_data(data: &[u8]) -> (res: BlobHash)
        ensures
            res.0@ == crate::primitives::blake3_hash(data@),
    {
        BlobHash(crate::primitives::blake3_digest(data))
    }

    /// Wraps 32 hash bytes.
    pub fn from_bytes(bytes: [u8; 32]) -> (res: BlobHash)
        ensures
            res.0 == bytes,
    {
        BlobHash(bytes)
    }

    /// The hash bytes.
    pub fn as_bytes(&self) -> (res: &[u8; 32])
        ensures
            *res == self.0,
    {
        &self.0
    }
}

// ---------------------------------------------------------------------------
// Encodings
// ---------------------------------------------------------------------------

pub open spec fn role_index(r: DeviceRole) -> u8 {
    match r {
        DeviceRole::Source => 0,
        DeviceRole::Backup => 1,
        DeviceRole::Full => 2,
    }
}

pub open spec fn enc_role(r: DeviceRole) -> Seq<u8> {
    seq![role_index(r)]
}

pub open spec fn enc_scope(s: AccessScope) -> Seq<u8> {
    match s {
        AccessScope::AllFiles => seq![0u8],
        AccessScope::SingleFile(h) => seq![1u8] + h.0@,
    }
}

pub open spec fn enc_grant(g: AccessGrant) -> Seq<u8> {
    g.to.0@ + (g.from.0@ + (enc_scope(g.scope) + (spec_varint(g.expires_at) + (g.signature_r@
        + g.signature_s@))))
}

pub open spec fn enc_opt_text(o: Option<Seq<char>>) -> Seq<u8> {
    match o {
        None => seq![0u8],
        Some(t) => seq![1u8] + spec_text(t),
    }
}

pub open spec fn enc_meta(m: FileMetadataV) -> Seq<u8> {
    m.blob_hash.0@ + (spec_text(m.filename) + (spec_varint(m.size) + (enc_opt_text(m.mime_type) + (
    spec_varint(m.created_at) + m.device_origin.0@))))
}

pub open spec fn enc_action(a: ActionV) -> Seq<u8> {
    match a {
        ActionV::DeviceJoinRequest { device_id, name } => seq![0u8] + (device_id.0@ + spec_text(
            name,
        )),
        ActionV::DeviceApproved { device_id, role } => seq![1u8] + (device_id.0@ + enc_role(role)),
        ActionV::DeviceRevoked { device_id } => seq![2u8] + device_id.0@,
        ActionV::DeviceNameChanged { device_id, name } => seq![3u8] + (device_id.0@ + spec_text(
            name,
        )),
        ActionV::FileAdded { metadata } => seq![4u8] + enc_meta(metadata),
        ActionV::FileDeleted { blob_hash } => seq![5u8] + blob_hash.0@,
        ActionV::AccessGranted { grant } => seq![6u8] + enc_grant(grant),
        ActionV::AccessRevoked { to } => seq![7u8] + to.0@,
        ActionV::Merge => seq![8u8],
        ActionV::Snapshot { state_hash } => seq![9u8] + state_hash@,
    }
}

pub fn encode_role(r: DeviceRole, out: &mut Vec<u8>)
    ensures
        final(out)@ == old(out)@ + enc_role(r),
{
    let b: u8 = match r {
        DeviceRole::Source => 0,
        DeviceRole::Backup => 1,
        DeviceRole::Full => 2,
    };
    out.push(b);
    assert(final(out)@ =~= old(out)@ + enc_role(r));
}

pub fn encode_scope(s: &AccessScope, out: &mut Vec<u8>)
    ensures
        final(out)@ == old(out)@ + enc_scope(*s),
{
    match s {
        AccessScope::AllFiles => {
            out.push(0u8);
            assert(final(out)@ =~= old(out)@ + enc_scope(*s));
        },
        AccessScope::SingleFile(h) => {
            out.push(1u8);
            append_bytes(out, &h.0);
            assert(final(out)@ =~= old(out)@ + enc_scope(*s));
        },
    }
}

pub fn encode_grant(g: &AccessGrant, out: &mut Vec<u8>)
    ensures
        final(out)@ == old(out)@ + enc_grant(*g),
{
    append_bytes(out, &g.to.0);
    append_bytes(out, &g.from.0);
    encode_scope(&g.scope, out);
    encode_varint(g.expires_at, out);
    append_bytes(out, &g.signature_r);
    append_bytes(out, &g.signature_s);
    assert(final(out)@ =~= old(out)@ + enc_grant(*g));
}

pub fn encode_opt_text(o: &Option<String>, out: &mut Vec<u8>)
    ensures
        final(out)@ == old(out)@ + enc_opt_text(opt_text_view(*o)),
{
    match o {
        None => {
            out.push(0u8);
            assert(final(out)@ =~= old(out)@ + enc_opt_text(opt_text_view(*o)));
        },
        Some(t) => {
            out.push(1u8);
            encode_text(t.as_str(), out);
            assert(final(out)@ =~= old(out)@ + enc_opt_text(opt_text_view(*o)));
        },
    }
}

pub fn encode_meta(m: &FileMetadata, out: &mut Vec<u8>)
    ensures
        final(out)@ == old(out)@ + enc_meta(m@),
{
    append_bytes(out, &m.blob_hash.0);
    encode_text(m.filename.as_str(), out);
    encode_varint(m.size, out);
    encode_opt_text(&m.mime_type, out);
    encode_varint(m.created_at, out);
    append_bytes(out, &m.device_origin.0);
    assert(final(out)@ =~= old(out)@ + enc_meta(m@));
}

pub fn encode_action(a: &Action, out: &mut Vec<u8>)
    ensures
        final(out)@ == old(out)@ + enc_action(a@),
{
    match a {
        Action::DeviceJoinRequest { device_id, name } => {
            out.push(0u8);
            append_bytes(out, &device_id.0);
            encode_text(name.as_str(), out);
        },
        Action::DeviceApproved { device_id, role } => {
            out.push(1u8);
            append_bytes(out, &device_id.0);
            encode_role(*role, out);
        },
        Action::DeviceRevoked { device_id } => {
            out.push(2u8);
            append_bytes(out, &device_id.0);
        },
        Action::DeviceNameChanged { device_id, name } => {
            out.push(3u8);
            append_bytes(out, &device_id.0);
            encode_text(name.as_str(), out);
        },
        Action::FileAdded { metadata } => {
            out.push(4u8);
            encode_meta(metadata, out);
        },
        Action::FileDeleted { blob_hash } => {
            out.push(5u8);
            append_bytes(out, &blob_hash.0);
        },
        Action::AccessGranted { grant } => {
            out.push(6u8);
            encode_grant(grant, out);
        },
        Action::AccessRevoked { to } => {
            out.push(7u8);
            append_bytes(out, &to.0);
        },
        Action::Merge => {
            out.push(8u8);
        },
        Action::Snapshot { state_hash } => {
            out.push(9u8);
            append_bytes(out, state_hash);
        },
    }
    assert(final(out)@ =~= old(out)@ + enc_action(a@));
}


// ---------------------------------------------------------------------------
// Decoding
// ---------------------------------------------------------------------------

pub proof fn lemma_role_unique(a: DeviceRole, b: DeviceRole, s: Seq<u8>)
    requires
        prefix_of(enc_role(a), s),
        prefix_of(enc_role(b), s),
    ensures
        a == b,
{
    assert(enc_role(a)[0] == s[0]);
    assert(enc_role(b)[0] == s[0]);
}

pub fn decode_role(buf: &[u8], pos: usize) -> (res: Option<(DeviceRole, usize)>)
    requires
        pos <= buf@.len(),
    ensures
        match res {
            Some((r, p)) => p == pos + enc_role(r).len() && prefix_of(enc_role(r), buf@.skip(pos as int)),
            None => forall|r: DeviceRole| !prefix_of(#[trigger] enc_role(r), buf@.skip(pos as int)),
        },
{
    let ghost s = buf@.skip(pos as int);
    match decode_byte(buf, pos) {
        None => {
            assert forall|r: DeviceRole| !prefix_of(#[trigger] enc_role(r), s) by {
                if prefix_of(enc_role(r), s) {
                    assert(prefix_of(seq![role_index(r)], s));
                }
            }
            None
        },
        Some((b, p)) => {
            let r = if b == 0 {
                DeviceRole::Source
            } else if b == 1 {
                DeviceRole::Backup
            } else if b == 2 {
                DeviceRole::Full
            } else {
                assert forall|r: DeviceRole| !prefix_of(#[trigger] enc_role(r), s) by {
                    if prefix_of(enc_role(r), s) {
                        assert(enc_role(r)[0] == s[0]);
                        assert(seq![b][0] == s[0]);
                    }
                }
                return None;
            };
            assert(enc_role(r) =~= seq![b]);
            Some((r, p))
        },
    }
}

pub proof fn lemma_scope_unique(a: AccessScope, b: AccessScope, s: Seq<u8>)
    requires
        prefix_of(enc_scope(a), s),
        prefix_of(enc_scope(b), s),
    ensures
        a == b,
{
    assert(enc_scope(a)[0] == s[0]);
    assert(enc_scope(b)[0] == s[0]);
    match (a, b) {
        (AccessScope::SingleFile(x), AccessScope::SingleFile(y)) => {
            lemma_prefix_concat(seq![1u8], x.0@, s);
            lemma_prefix_concat(seq![1u8], y.0@, s);
            lemma_fixed32_unique(x.0, y.0, s.skip(1));
        },
        _ => {},
    }
}

pub fn decode_scope(buf: &[u8], pos: usize) -> (res: Option<(AccessScope, usize)>)
    requires
        pos <= buf@.len(),
    ensures
        match res {
            Some((r, p)) => p == pos + enc_scope(r).len() && prefix_of(enc_scope(r), buf@.skip(pos as int)),
            None => forall|r: AccessScope| !prefix_of(#[trigger] enc_scope(r), buf@.skip(pos as int)),
        },
{
    let ghost s = buf@.skip(pos as int);
    match decode_byte(buf, pos) {
        None => {
            assert forall|r: AccessScope| !prefix_of(#[trigger] enc_scope(r), s) by {
                if prefix_of(enc_scope(r), s) {
                    assert(enc_scope(r).len() >= 1);
                }
            }
            None
        },
        Some((b, p)) => {
            if b == 0 {
                assert(enc_scope(AccessScope::AllFiles) =~= seq![b]);
                Some((AccessScope::AllFiles, p))
            } else if b == 1 {
                proof {
                    lemma_skip_add(buf@, pos as int, 1);
                }
                match decode_fixed32(buf, p) {
                    None => {
                        assert forall|r: AccessScope| !prefix_of(#[trigger] enc_scope(r), s) by {
                            if prefix_of(enc_scope(r), s) {
                                assert(enc_scope(r)[0] == s[0]);
                                match r {
                                    AccessScope::SingleFile(h) => {
                                        lemma_prefix_concat(seq![1u8], h.0@, s);
                                    },
                                    _ => {},
                                }
                            }
                        }
                        None
                    },
                    Some((h, p2)) => {
                        let r = AccessScope::SingleFile(BlobHash(h));
                        proof {
                            lemma_prefix_concat(seq![1u8], h@, s);
                        }
                        Some((r, p2))
                    },
                }
            } else {
                assert forall|r: AccessScope| !prefix_of(#[trigger] enc_scope(r), s) by {
                    if prefix_of(enc_scope(r), s) {
                        assert(enc_scope(r)[0] == s[0]);
                        assert(seq![b][0] == s[0]);
                    }
                }
                None
            }
        },
    }
}

pub proof fn lemma_grant_unique(a: AccessGrant, b: AccessGrant, s: Seq<u8>)
    requires
        prefix_of(enc_grant(a), s),
        prefix_of(enc_grant(b), s),
    ensures
        a == b,
{
    let ra1 = a.from.0@ + (enc_scope(a.scope) + (spec_varint(a.expires_at) + (a.signature_r@
        + a.signature_s@)));
    let rb1 = b.from.0@ + (enc_scope(b.scope) + (spec_varint(b.expires_at) + (b.signature_r@
        + b.signature_s@)));
    lemma_prefix_concat(a.to.0@, ra1, s);
    lemma_prefix_concat(b.to.0@, rb1, s);
    lemma_fixed32_unique(a.to.0, b.to.0, s);
    let s1 = s.skip(32);
    let ra2 = enc_scope(a.scope) + (spec_varint(a.expires_at) + (a.signature_r@ + a.signature_s@));
    let rb2 = enc_scope(b.scope) + (spec_varint(b.expires_at) + (b.signature_r@ + b.signature_s@));
    lemma_prefix_concat(a.from.0@, ra2, s1);
    lemma_prefix_concat(b.from.0@, rb2, s1);
    lemma_fixed32_unique(a.from.0, b.from.0, s1);
    let s2 = s1.skip(32);
    let ra3 = spec_varint(a.expires_at) + (a.signature_r@ + a.signature_s@);
    let rb3 = spec_varint(b.expires_at) + (b.signature_r@ + b.signature_s@);
    lemma_prefix_concat(enc_scope(a.scope), ra3, s2);
    lemma_prefix_concat(enc_scope(b.scope), rb3, s2);
    lemma_scope_unique(a.scope, b.scope, s2);
    let s3 = s2.skip(enc_scope(a.scope).len() as int);
    let ra4 = a.signature_r@ + a.signature_s@;
    let rb4 = b.signature_r@ + b.signature_s@;
    lemma_prefix_concat(spec_varint(a.expires_at), ra4, s3);
    lemma_prefix_concat(spec_varint(b.expires_at), rb4, s3);
    lemma_varint_unique(a.expires_at, b.expires_at, s3);
    let s4 = s3.skip(spec_varint(a.expires_at).len() as int);
    lemma_prefix_concat(a.signature_r@, a.signature_s@, s4);
    lemma_prefix_concat(b.signature_r@, b.signature_s@, s4);
    lemma_fixed32_unique(a.signature_r, b.signature_r, s4);
    lemma_fixed32_unique(a.signature_s, b.signature_s, s4.skip(32));
}

pub fn decode_grant(buf: &[u8], pos: usize) -> (res: Option<(AccessGrant, usize)>)
    requires
        pos <= buf@.len(),
    ensures
        match res {
            Some((g, p)) => p == pos + enc_grant(g).len() && prefix_of(enc_grant(g), buf@.skip(pos as int)),
            None => forall|g: AccessGrant| !prefix_of(#[trigger] enc_grant(g), buf@.skip(pos as int)),
        },
{
    let ghost s = buf@.skip(pos as int);
    let (to, p1) = match decode_fixed32(buf, pos) {
        Some(x) => x,
        None => {
            assert forall|g: AccessGrant| !prefix_of(#[trigger] enc_grant(g), s) by {
                if prefix_of(enc_grant(g), s) {
                    assert(enc_grant(g).len() >= 32);
                }
            }
            return None;
        }
    };
    proof { lemma_skip_add(buf@, pos as int, 32); }
    let (from, p2) = match decode_fixed32(buf, p1) {
        Some(x) => x,
        None => {
            assert forall|g: AccessGrant| !prefix_of(#[trigger] enc_grant(g), s) by {
                if prefix_of(enc_grant(g), s) {
                    assert(enc_grant(g).len() >= 64);
                }
            }
            return None;
        }
    };
    proof { lemma_skip_add(buf@, pos as int, 64); }
    let (scope, p3) = match decode_scope(buf, p2) {
        Some(x) => x,
        None => {
            assert forall|g: AccessGrant| !prefix_of(#[trigger] enc_grant(g), s) by {
                if prefix_of(enc_grant(g), s) {
                    let r1 = g.from.0@ + (enc_scope(g.scope) + (spec_varint(g.expires_at) + (
                    g.signature_r@ + g.signature_s@)));
                    let r2 = enc_scope(g.scope) + (spec_varint(g.expires_at) + (g.signature_r@
                        + g.signature_s@));
                    lemma_prefix_concat(g.to.0@, r1, s);
                    lemma_prefix_concat(g.from.0@, r2, s.skip(32));
                    lemma_skip_add(s, 32, 32);
                    lemma_prefix_concat(enc_scope(g.scope), spec_varint(g.expires_at) + (
                    g.signature_r@ + g.signature_s@), s.skip(64));
                }
            }
            return None;
        }
    };
    let ghost l3: int = enc_scope(scope).len() as int;
    proof { lemma_skip_add(buf@, pos as int, 64 + l3); }
    let (expires_at, p4) = match decode_varint(buf, p3) {
        Some(x) => x,
        None => {
            assert forall|g: AccessGrant| !prefix_of(#[trigger] enc_grant(g), s) by {
                if prefix_of(enc_grant(g), s) {
                    let r1 = g.from.0@ + (enc_scope(g.scope) + (spec_varint(g.expires_at) + (
                    g.signature_r@ + g.signature_s@)));
                    let r2 = enc_scope(g.scope) + (spec_varint(g.expires_at) + (g.signature_r@
                        + g.signature_s@));
                    let r3 = spec_varint(g.expires_at) + (g.signature_r@ + g.signature_s@);
                    lemma_prefix_concat(g.to.0@, r1, s);
                    lemma_prefix_concat(g.from.0@, r2, s.skip(32));
                    lemma_skip_add(s, 32, 32);
                    lemma_prefix_concat(enc_scope(g.scope), r3, s.skip(64));
                    lemma_scope_unique(g.scope, scope, s.skip(64));
                    lemma_skip_add(s, 64, l3 as int);
                    lemma_prefix_concat(spec_varint(g.expires_at), g.signature_r@ + g.signature_s@,
                        s.skip(64 + l3));
                }
            }
            return None;
        }
    };
    let ghost l4: int = spec_varint(expires_at).len() as int;
    proof { lemma_skip_add(buf@, pos as int, 64 + l3 + l4); }
    let (sig_r, p5) = match decode_fixed32(buf, p4) {
        Some(x) => x,
        None => {
            assert forall|g: AccessGrant| !prefix_of(#[trigger] enc_grant(g), s) by {
                if prefix_of(enc_grant(g), s) {
                    let r1 = g.from.0@ + (enc_scope(g.scope) + (spec_varint(g.expires_at) + (
                    g.signature_r@ + g.signature_s@)));
                    let r2 = enc_scope(g.scope) + (spec_varint(g.expires_at) + (g.signature_r@
                        + g.signature_s@));
                    let r3 = spec_varint(g.expires_at) + (g.signature_r@ + g.signature_s@);
                    lemma_prefix_concat(g.to.0@, r1, s);
                    lemma_prefix_concat(g.from.0@, r2, s.skip(32));
                    lemma_skip_add(s, 32, 32);
                    lemma_prefix_concat(enc_scope(g.scope), r3, s.skip(64));
                    lemma_scope_unique(g.scope, scope, s.skip(64));
                    lemma_skip_add(s, 64, l3 as int);
                    lemma_prefix_concat(spec_varint(g.expires_at), g.signature_r@ + g.signature_s@,
                        s.skip(64 + l3));
                    lemma_varint_unique(g.expires_at, expires_at, s.skip(64 + l3));
                    lemma_skip_add(s, 64 + l3, l4 as int);
                    lemma_prefix_concat(g.signature_r@, g.signature_s@, s.skip(64 + l3 + l4));
                }
            }
            return None;
        }
    };
    proof { lemma_skip_add(buf@, pos as int, 96 + l3 + l4); }
    let (sig_s, p6) = match decode_fixed32(buf, p5) {
        Some(x) => x,
        None => {
            assert forall|g: AccessGrant| !prefix_of(#[trigger] enc_grant(g), s) by {
                if prefix_of(enc_grant(g), s) {
                    let r1 = g.from.0@ + (enc_scope(g.scope) + (spec_varint(g.expires_at) + (
                    g.signature_r@ + g.signature_s@)));
                    let r2 = enc_scope(g.scope) + (spec_varint(g.expires_at) + (g.signature_r@
                        + g.signature_s@));
                    let r3 = spec_varint(g.expires_at) + (g.signature_r@ + g.signature_s@);
                    lemma_prefix_concat(g.to.0@, r1, s);
                    lemma_prefix_concat(g.from.0@, r2, s.skip(32));
                    lemma_skip_add(s, 32, 32);
                    lemma_prefix_concat(enc_scope(g.scope), r3, s.skip(64));
                    lemma_scope_unique(g.scope, scope, s.skip(64));
                    lemma_skip_add(s, 64, l3 as int);
                    lemma_prefix_concat(spec_varint(g.expires_at), g.signature_r@ + g.signature_s@,
                        s.skip(64 + l3));
                    lemma_varint_unique(g.expires_at, expires_at, s.skip(64 + l3));
                    lemma_skip_add(s, 64 + l3, l4 as int);
                    lemma_prefix_concat(g.signature_r@, g.signature_s@, s.skip(64 + l3 + l4));
                    lemma_skip_add(s, 64 + l3 + l4, 32);
                }
            }
            return None;
        }
    };
    let g = AccessGrant {
        to: DeviceId(to),
        from: DeviceId(from),
        scope,
        expires_at,
        signature_r: sig_r,
        signature_s: sig_s,
    };
    proof {
        let s4 = s.skip(64 + l3 + l4);
        lemma_skip_add(s, 64 + l3 + l4, 32);
        lemma_prefix_concat(sig_r@, sig_s@, s4);
        let s3 = s.skip(64 + l3);
        lemma_skip_add(s, 64 + l3, l4 as int);
        lemma_prefix_concat(spec_varint(expires_at), sig_r@ + sig_s@, s3);
        let s2 = s.skip(64);
        lemma_skip_add(s, 64, l3 as int);
        lemma_prefix_concat(enc_scope(scope), spec_varint(expires_at) + (sig_r@ + sig_s@), s2);
        lemma_skip_add(s, 32, 32);
        lemma_prefix_concat(from@, enc_scope(scope) + (spec_varint(expires_at) + (sig_r@ + sig_s@)), s.skip(32));
        lemma_prefix_concat(to@, from@ + (enc_scope(scope) + (spec_varint(expires_at) + (sig_r@ + sig_s@))), s);
    }
    Some((g, p6))
}


pub proof fn lemma_opt_text_unique(a: Option<Seq<char>>, b: Option<Seq<char>>, s: Seq<u8>)
    requires
        prefix_of(enc_opt_text(a), s),
        prefix_of(enc_opt_text(b), s),
        s.len() <= u64::MAX,
    ensures
        a == b,
{
    assert(enc_opt_text(a)[0] == s[0]);
    assert(enc_opt_text(b)[0] == s[0]);
    match (a, b) {
        (Some(x), Some(y)) => {
            lemma_prefix_concat(seq![1u8], spec_text(x), s);
            lemma_prefix_concat(seq![1u8], spec_text(y), s);
            lemma_text_unique(x, y, s.skip(1));
        },
        _ => {},
    }
}

pub fn decode_opt_text(buf: &[u8], pos: usize) -> (res: Option<(Option<String>, usize)>)
    requires
        pos <= buf@.len(),
    ensures
        match res {
            Some((o, p)) => p == pos + enc_opt_text(opt_text_view(o)).len() && prefix_of(
                enc_opt_text(opt_text_view(o)),
                buf@.skip(pos as int),
            ),
            None => forall|o: Option<Seq<char>>| !prefix_of(#[trigger] enc_opt_text(o), buf@.skip(pos as int)),
        },
{
    let ghost s = buf@.skip(pos as int);
    match decode_byte(buf, pos) {
        None => {
            assert forall|o: Option<Seq<char>>| !prefix_of(#[trigger] enc_opt_text(o), s) by {
                if prefix_of(enc_opt_text(o), s) {
                    assert(enc_opt_text(o).len() >= 1);
                }
            }
            None
        },
        Some((b, p)) => {
            if b == 0 {
                assert(enc_opt_text(None) =~= seq![b]);
                Some((None, p))
            } else if b == 1 {
                proof {
                    lemma_skip_add(buf@, pos as int, 1);
                }
                match decode_text(buf, p) {
                    None => {
                        assert forall|o: Option<Seq<char>>| !prefix_of(#[trigger] enc_opt_text(o), s) by {
                            if prefix_of(enc_opt_text(o), s) {
                                assert(enc_opt_text(o)[0] == s[0]);
                                match o {
                                    Some(t) => {
                                        lemma_prefix_concat(seq![1u8], spec_text(t), s);
                                    },
                                    _ => {},
                                }
                            }
                        }
                        None
                    },
                    Some((t, p2)) => {
                        proof {
                            lemma_prefix_concat(seq![1u8], spec_text(t@), s);
                        }
                        Some((Some(t), p2))
                    },
                }
            } else {
                assert forall|o: Option<Seq<char>>| !prefix_of(#[trigger] enc_opt_text(o), s) by {
                    if prefix_of(enc_opt_text(o), s) {
                        assert(enc_opt_text(o)[0] == s[0]);
                        assert(seq![b][0] == s[0]);
                    }
                }
                None
            }
        },
    }
}

/// Offsets of the fields of an encoded file metadata record.
pub open spec fn meta_offsets(m: FileMetadataV) -> (int, int, int, int, int) {
    let o1 = 32int;
    let o2 = o1 + spec_text(m.filename).len();
    let o3 = o2 + spec_varint(m.size).len();
    let o4 = o3 + enc_opt_text(m.mime_type).len();
    let o5 = o4 + spec_varint(m.created_at).len();
    (o1, o2, o3, o4, o5)
}

pub open spec fn meta_fields_at(m: FileMetadataV, s: Seq<u8>) -> bool {
    let (o1, o2, o3, o4, o5) = meta_offsets(m);
    &&& o5 + 32 <= s.len()
    &&& prefix_of(m.blob_hash.0@, s)
    &&& prefix_of(spec_text(m.filename), s.skip(o1))
    &&& prefix_of(spec_varint(m.size), s.skip(o2))
    &&& prefix_of(enc_opt_text(m.mime_type), s.skip(o3))
    &&& prefix_of(spec_varint(m.created_at), s.skip(o4))
    &&& prefix_of(m.device_origin.0@, s.skip(o5))
}

/// An encoded record is a prefix exactly when each field is, in order.
pub proof fn lemma_meta_fields(m: FileMetadataV, s: Seq<u8>)
    ensures
        prefix_of(enc_meta(m), s) <==> meta_fields_at(m, s),
        enc_meta(m).len() == meta_offsets(m).4 + 32,
{
    let (o1, o2, o3, o4, o5) = meta_offsets(m);
    let e5 = m.device_origin.0@;
    let e4 = spec_varint(m.created_at) + e5;
    let e3 = enc_opt_text(m.mime_type) + e4;
    let e2 = spec_varint(m.size) + e3;
    let e1 = spec_text(m.filename) + e2;
    if o5 + 32 <= s.len() {
        lemma_skip_add(s, o1, o2 - o1);
        lemma_skip_add(s, o2, o3 - o2);
        lemma_skip_add(s, o3, o4 - o3);
        lemma_skip_add(s, o4, o5 - o4);
    }
    lemma_prefix_concat(m.blob_hash.0@, e1, s);
    if o1 <= s.len() {
        lemma_prefix_concat(spec_text(m.filename), e2, s.skip(o1));
    }
    if o2 <= s.len() {
        lemma_prefix_concat(spec_varint(m.size), e3, s.skip(o2));
    }
    if o3 <= s.len() {
        lemma_prefix_concat(enc_opt_text(m.mime_type), e4, s.skip(o3));
    }
    if o4 <= s.len() {
        lemma_prefix_concat(spec_varint(m.created_at), e5, s.skip(o4));
    }
}

pub proof fn lemma_meta_unique(a: FileMetadataV, b: FileMetadataV, s: Seq<u8>)
    requires
        prefix_of(enc_meta(a), s),
        prefix_of(enc_meta(b), s),
        s.len() <= u64::MAX,
    ensures
        a == b,
{
    lemma_meta_fields(a, s);
    lemma_meta_fields(b, s);
    let (o1, o2, o3, o4, o5) = meta_offsets(a);
    lemma_fixed32_unique(a.blob_hash.0, b.blob_hash.0, s);
    lemma_text_unique(a.filename, b.filename, s.skip(o1));
    lemma_varint_unique(a.size, b.size, s.skip(o2));
    lemma_opt_text_unique(a.mime_type, b.mime_type, s.skip(o3));
    lemma_varint_unique(a.created_at, b.created_at, s.skip(o4));
    lemma_fixed32_unique(a.device_origin.0, b.device_origin.0, s.skip(o5));
}

pub fn decode_meta(buf: &[u8], pos: usize) -> (res: Option<(FileMetadata, usize)>)
    requires
        pos <= buf@.len(),
    ensures
        match res {
            Some((m, p)) => p == pos + enc_meta(m@).len() && prefix_of(enc_meta(m@), buf@.skip(pos as int)),
            None => forall|m: FileMetadataV| !prefix_of(#[trigger] enc_meta(m), buf@.skip(pos as int)),
        },
{
    let ghost s = buf@.skip(pos as int);
    assert(buf@.len() == buf.len());
    let (blob, p1) = match decode_fixed32(buf, pos) {
        Some(x) => x,
        None => {
            assert forall|m: FileMetadataV| !prefix_of(#[trigger] enc_meta(m), s) by {
                lemma_meta_fields(m, s);
            }
            return None;
        }
    };
    proof { lemma_skip_add(buf@, pos as int, 32); }
    let (filename, p2) = match decode_text(buf, p1) {
        Some(x) => x,
        None => {
            assert forall|m: FileMetadataV| !prefix_of(#[trigger] enc_meta(m), s) by {
                lemma_meta_fields(m, s);
            }
            return None;
        }
    };
    let ghost o2: int = p2 - pos;
    proof { lemma_skip_add(buf@, pos as int, o2); }
    let (size, p3) = match decode_varint(buf, p2) {
        Some(x) => x,
        None => {
            assert forall|m: FileMetadataV| !prefix_of(#[trigger] enc_meta(m), s) by {
                lemma_meta_fields(m, s);
                if prefix_of(enc_meta(m), s) {
                    lemma_text_unique(m.filename, filename@, s.skip(32));
                }
            }
            return None;
        }
    };
    let ghost o3: int = p3 - pos;
    proof { lemma_skip_add(buf@, pos as int, o3); }
    let (mime, p4) = match decode_opt_text(buf, p3) {
        Some(x) => x,
        None => {
            assert forall|m: FileMetadataV| !prefix_of(#[trigger] enc_meta(m), s) by {
                lemma_meta_fields(m, s);
                if prefix_of(enc_meta(m), s) {
                    lemma_text_unique(m.filename, filename@, s.skip(32));
                    lemma_varint_unique(m.size, size, s.skip(o2));
                }
            }
            return None;
        }
    };
    let ghost o4: int = p4 - pos;
    proof { lemma_skip_add(buf@, pos as int, o4); }
    let (created, p5) = match decode_varint(buf, p4) {
        Some(x) => x,
        None => {
            assert forall|m: FileMetadataV| !prefix_of(#[trigger] enc_meta(m), s) by {
                lemma_meta_fields(m, s);
                if prefix_of(enc_meta(m), s) {
                    lemma_text_unique(m.filename, filename@, s.skip(32));
                    lemma_varint_unique(m.size, size, s.skip(o2));
                    lemma_opt_text_unique(m.mime_type, opt_text_view(mime), s.skip(o3));
                }
            }
            return None;
        }
    };
    let ghost o5: int = p5 - pos;
    proof { lemma_skip_add(buf@, pos as int, o5); }
    let (origin, p6) = match decode_fixed32(buf, p5) {
        Some(x) => x,
        None => {
            assert forall|m: FileMetadataV| !prefix_of(#[trigger] enc_meta(m), s) by {
                lemma_meta_fields(m, s);
                if prefix_of(enc_meta(m), s) {
                    lemma_text_unique(m.filename, filename@, s.skip(32));
                    lemma_varint_unique(m.size, size, s.skip(o2));
                    lemma_opt_text_unique(m.mime_type, opt_text_view(mime), s.skip(o3));
                    lemma_varint_unique(m.created_at, created, s.skip(o4));
                }
            }
            return None;
        }
    };
    let m = FileMetadata {
        blob_hash: BlobHash(blob),
        filename,
        size,
        mime_type: mime,
        created_at: created,
        device_origin: DeviceId(origin),
    };
    proof {
        lemma_meta_fields(m@, s);
    }
    Some((m, p6))
}


pub open spec fn action_tag(a: ActionV) -> u8 {
    match a {
        ActionV::DeviceJoinRequest { .. } => 0,
        ActionV::DeviceApproved { .. } => 1,
        ActionV::DeviceRevoked { .. } => 2,
        ActionV::DeviceNameChanged { .. } => 3,
        ActionV::FileAdded { .. } => 4,
        ActionV::FileDeleted { .. } => 5,
        ActionV::AccessGranted { .. } => 6,
        ActionV::AccessRevoked { .. } => 7,
        ActionV::Merge => 8,
        ActionV::Snapshot { .. } => 9,
    }
}

/// The bytes of an action after its tag.
pub open spec fn action_body(a: ActionV) -> Seq<u8> {
    match a {
        ActionV::DeviceJoinRequest { device_id, name } => device_id.0@ + spec_text(name),
        ActionV::DeviceApproved { device_id, role } => device_id.0@ + enc_role(role),
        ActionV::DeviceRevoked { device_id } => device_id.0@,
        ActionV::DeviceNameChanged { device_id, name } => device_id.0@ + spec_text(name),
        ActionV::FileAdded { metadata } => enc_meta(metadata),
        ActionV::FileDeleted { blob_hash } => blob_hash.0@,
        ActionV::AccessGranted { grant } => enc_grant(grant),
        ActionV::AccessRevoked { to } => to.0@,
        ActionV::Merge => Seq::empty(),
        ActionV::Snapshot { state_hash } => state_hash@,
    }
}

pub proof fn lemma_action_split(a: ActionV, s: Seq<u8>)
    ensures
        enc_action(a) == seq![action_tag(a)] + action_body(a),
        prefix_of(enc_action(a), s) <==> (s.len() >= 1 && s[0] == action_tag(a) && prefix_of(
            action_body(a),
            s.skip(1),
        )),
{
    assert(enc_action(a) =~= seq![action_tag(a)] + action_body(a));
    lemma_prefix_concat(seq![action_tag(a)], action_body(a), s);
    if s.len() >= 1 {
        assert(s.subrange(0, 1)[0] == s[0]);
        if s[0] == action_tag(a) {
            assert(s.subrange(0, 1) =~= seq![action_tag(a)]);
        }
    }
}

pub proof fn lemma_action_unique(a: ActionV, b: ActionV, s: Seq<u8>)
    requires
        prefix_of(enc_action(a), s),
        prefix_of(enc_action(b), s),
        s.len() <= u64::MAX,
    ensures
        a == b,
{
    lemma_action_split(a, s);
    lemma_action_split(b, s);
    let t = s.skip(1);
    match (a, b) {
        (
            ActionV::DeviceJoinRequest { device_id: d1, name: n1 },
            ActionV::DeviceJoinRequest { device_id: d2, name: n2 },
        ) => {
            lemma_prefix_concat(d1.0@, spec_text(n1), t);
            lemma_prefix_concat(d2.0@, spec_text(n2), t);
            lemma_fixed32_unique(d1.0, d2.0, t);
            lemma_text_unique(n1, n2, t.skip(32));
        },
        (
            ActionV::DeviceApproved { device_id: d1, role: r1 },
            ActionV::DeviceApproved { device_id: d2, role: r2 },
        ) => {
            lemma_prefix_concat(d1.0@, enc_role(r1), t);
            lemma_prefix_concat(d2.0@, enc_role(r2), t);
            lemma_fixed32_unique(d1.0, d2.0, t);
            lemma_role_unique(r1, r2, t.skip(32));
        },
        (ActionV::DeviceRevoked { device_id: d1 }, ActionV::DeviceRevoked { device_id: d2 }) => {
            lemma_fixed32_unique(d1.0, d2.0, t);
        },
        (
            ActionV::DeviceNameChanged { device_id: d1, name: n1 },
            ActionV::DeviceNameChanged { device_id: d2, name: n2 },
        ) => {
            lemma_prefix_concat(d1.0@, spec_text(n1), t);
            lemma_prefix_concat(d2.0@, spec_text(n2), t);
            lemma_fixed32_unique(d1.0, d2.0, t);
            lemma_text_unique(n1, n2, t.skip(32));
        },
        (ActionV::FileAdded { metadata: m1 }, ActionV::FileAdded { metadata: m2 }) => {
            lemma_meta_unique(m1, m2, t);
        },
        (ActionV::FileDeleted { blob_hash: h1 }, ActionV::FileDeleted { blob_hash: h2 }) => {
            lemma_fixed32_unique(h1.0, h2.0, t);
        },
        (ActionV::AccessGranted { grant: g1 }, ActionV::AccessGranted { grant: g2 }) => {
            lemma_grant_unique(g1, g2, t);
        },
        (ActionV::AccessRevoked { to: d1 }, ActionV::AccessRevoked { to: d2 }) => {
            lemma_fixed32_unique(d1.0, d2.0, t);
        },
        (ActionV::Snapshot { state_hash: h1 }, ActionV::Snapshot { state_hash: h2 }) => {
            lemma_fixed32_unique(h1, h2, t);
        },
        _ => {},
    }
}

/// Reads an action at `pos`.
pub fn decode_action(buf: &[u8], pos: usize) -> (res: Option<(Action, usize)>)
    requires
        pos <= buf@.len(),
    ensures
        match res {
            Some((a, p)) => p == pos + enc_action(a@).len() && prefix_of(enc_action(a@), buf@.skip(pos as int)),
            None => forall|a: ActionV| !prefix_of(#[trigger] enc_action(a), buf@.skip(pos as int)),
        },
{
    let ghost s = buf@.skip(pos as int);
    assert(buf@.len() == buf.len());
    let (tag, p1) = match decode_byte(buf, pos) {
        Some(x) => x,
        None => {
            assert forall|a: ActionV| !prefix_of(#[trigger] enc_action(a), s) by {
                lemma_action_split(a, s);
            }
            return None;
        }
    };
    let ghost t = buf@.skip(p1 as int);
    proof { lemma_skip_add(buf@, pos as int, 1); }
    assert(s.subrange(0, 1)[0] == s[0]);
    assert(s[0] == tag);
    if tag == 0 || tag == 3 {
        let (d, p2) = match decode_fixed32(buf, p1) {
            Some(x) => x,
            None => {
                assert forall|a: ActionV| !prefix_of(#[trigger] enc_action(a), s) by {
                    lemma_action_split(a, s);
                    match a {
                        ActionV::DeviceJoinRequest { device_id, name } => {
                            lemma_prefix_concat(device_id.0@, spec_text(name), t);
                        },
                        ActionV::DeviceNameChanged { device_id, name } => {
                            lemma_prefix_concat(device_id.0@, spec_text(name), t);
                        },
                        _ => {},
                    }
                }
                return None;
            }
        };
        proof { lemma_skip_add(buf@, p1 as int, 32); }
        let (name, p3) = match decode_text(buf, p2) {
            Some(x) => x,
            None => {
                assert forall|a: ActionV| !prefix_of(#[trigger] enc_action(a), s) by {
                    lemma_action_split(a, s);
                    match a {
                        ActionV::DeviceJoinRequest { device_id, name } => {
                            lemma_prefix_concat(device_id.0@, spec_text(name), t);
                        },
                        ActionV::DeviceNameChanged { device_id, name } => {
                            lemma_prefix_concat(device_id.0@, spec_text(name), t);
                        },
                        _ => {},
                    }
                }
                return None;
            }
        };
        let a = if tag == 0 {
            Action::DeviceJoinRequest { device_id: DeviceId(d), name }
        } else {
            Action::DeviceNameChanged { device_id: DeviceId(d), name }
        };
        proof {
            lemma_action_split(a@, s);
            lemma_prefix_concat(d@, spec_text(name@), t);
        }
        Some((a, p3))
    } else if tag == 1 {
        let (d, p2) = match decode_fixed32(buf, p1) {
            Some(x) => x,
            None => {
                assert forall|a: ActionV| !prefix_of(#[trigger] enc_action(a), s) by {
                    lemma_action_split(a, s);
                    match a {
                        ActionV::DeviceApproved { device_id, role } => {
                            lemma_prefix_concat(device_id.0@, enc_role(role), t);
                        },
                        _ => {},
                    }
                }
                return None;
            }
        };
        proof { lemma_skip_add(buf@, p1 as int, 32); }
        let (role, p3) = match decode_role(buf, p2) {
            Some(x) => x,
            None => {
                assert forall|a: ActionV| !prefix_of(#[trigger] enc_action(a), s) by {
                    lemma_action_split(a, s);
                    match a {
                        ActionV::DeviceApproved { device_id, role } => {
                            lemma_prefix_concat(device_id.0@, enc_role(role), t);
                        },
                        _ => {},
                    }
                }
                return None;
            }
        };
        let a = Action::DeviceApproved { device_id: DeviceId(d), role };
        proof {
            lemma_action_split(a@, s);
            lemma_prefix_concat(d@, enc_role(role), t);
        }
        Some((a, p3))
    } else if tag == 2 || tag == 5 || tag == 7 || tag == 9 {
        let (d, p2) = match decode_fixed32(buf, p1) {
            Some(x) => x,
            None => {
                assert forall|a: ActionV| !prefix_of(#[trigger] enc_action(a), s) by {
                    lemma_action_split(a, s);
                }
                return None;
            }
        };
        let a = if tag == 2 {
            Action::DeviceRevoked { device_id: DeviceId(d) }
        } else if tag == 5 {
            Action::FileDeleted { blob_hash: BlobHash(d) }
        } else if tag == 7 {
            Action::AccessRevoked { to: DeviceId(d) }
        } else {
            Action::Snapshot { state_hash: d }
        };
        proof {
            lemma_action_split(a@, s);
        }
        Some((a, p2))
    } else if tag == 4 {
        let (m, p2) = match decode_meta(buf, p1) {
            Some(x) => x,
            None => {
                assert forall|a: ActionV| !prefix_of(#[trigger] enc_action(a), s) by {
                    lemma_action_split(a, s);
                }
                return None;
            }
        };
        let a = Action::FileAdded { metadata: m };
        proof {
            lemma_action_split(a@, s);
        }
        Some((a, p2))
    } else if tag == 6 {
        let (g, p2) = match decode_grant(buf, p1) {
            Some(x) => x,
            None => {
                assert forall|a: ActionV| !prefix_of(#[trigger] enc_action(a), s) by {
                    lemma_action_split(a, s);
                }
                return None;
            }
        };
        let a = Action::AccessGranted { grant: g };
        proof {
            lemma_action_split(a@, s);
        }
        Some((a, p2))
    } else if tag == 8 {
        let a = Action::Merge;
        proof {
            lemma_action_split(a@, s);
            assert(prefix_of(Seq::<u8>::empty(), t));
        }
        Some((a, p1))
    } else {
        assert forall|a: ActionV| !prefix_of(#[trigger] enc_action(a), s) by {
            lemma_action_split(a, s);
        }
        None
    }
}

} // verus!
