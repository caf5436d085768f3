//! Pairing invitations: a short-lived token, signed by a device of the
//! network, that carries the network mnemonic encrypted under a key
//! derived from a random per-invite nonce, and rides in a
//! `murmur://join?token=…` URL.

use vstd::prelude::*;
use vstd::utf8::*;
use vstd::string::StringExecFns;
use crate::codec::{
    prefix_of, spec_varint, spec_bytes, append_bytes, encode_varint, encode_bytes, decode_fixed32,
    decode_varint, decode_bytes, lemma_prefix_concat, lemma_varint_unique, lemma_fixed32_unique,
    lemma_bytes_unique, lemma_skip_add, lemma_varint_max,
};
use crate::primitives::{
    aes256gcm_decrypt, aes256gcm_encrypt, aes256gcm_open, aes256gcm_seal, aes_plaintext_max,
    base64url_decode, base64url_encode, ed25519_public, ed25519_sign, ed25519_signature,
    ed25519_valid, ed25519_verify, hkdf_sha256, hkdf_sha256_expand, random_bytes32, unix_time_secs,
    utf8_to_string,
};
use crate::base64url::{
    base64url_decoded, base64url_text, is_base64url_char, lemma_base64url_chars, lemma_base64url_roundtrip,
};
use crate::text::{concat, lemma_encode_concat};
use crate::types::DeviceId;

verus! {

/// URL scheme of pairing invites.
pub const MURMUR_URL_SCHEME: &'static str = "murmur";

/// URL host of join invites: `murmur://join?token=…`.
pub const JOIN_URL_HOST: &'static str = "join";

/// Default lifetime of a new invite (5 minutes).
pub const DEFAULT_EXPIRY_SECS: u64 = 5 * 60;

/// Errors of issuing or redeeming an invite.
#[derive(Debug)]
pub enum PairingError {
    /// The URL is not a `murmur://join?token=…` invite.
    InvalidUrl,
    /// The token bytes did not decode.
    Decode(String),
    /// The signature does not verify against the issuing device.
    BadSignature,
    /// The invite has expired.
    Expired,
    /// The mnemonic did not decrypt (corrupt or tampered), or is not text.
    BadMnemonic,
}

/// A short-lived, signed invite that delivers the network mnemonic to a
/// joining device.
#[derive(Clone, PartialEq, Eq)]
pub struct PairingToken {
    /// 32 random bytes naming this invite; the encryption key derives
    /// from them.
    pub nonce: [u8; 32],
    /// UNIX time (seconds) from which the invite is no longer valid.
    pub expires_at_unix: u64,
    /// The device that issued the invite; its key verifies the signature.
    pub issued_by: DeviceId,
    /// AES-256-GCM ciphertext of the mnemonic's UTF-8 bytes.
    pub mnemonic_ciphertext: Vec<u8>,
    /// Ed25519 signature (64 bytes) of the signing payload.
    pub signature: Vec<u8>,
}

/// The value of a [`PairingToken`].
pub struct PairingTokenV {
    pub nonce: [u8; 32],
    pub expires_at_unix: u64,
    pub issued_by: DeviceId,
    pub mnemonic_ciphertext: Seq<u8>,
    pub signature: Seq<u8>,
}

impl View for PairingToken {
    type V = PairingTokenV;

    open spec fn view(&self) -> PairingTokenV {
        PairingTokenV {
            nonce: self.nonce,
            expires_at_unix: self.expires_at_unix,
            issued_by: self.issued_by,
            mnemonic_ciphertext: self.mnemonic_ciphertext@,
            signature: self.signature@,
        }
    }
}

/// The big-endian bytes of `x`.
pub open spec fn be64(x: u64) -> Seq<u8> {
    seq![
        (x / 0x100_0000_0000_0000) as u8,
        ((x / 0x1_0000_0000_0000) % 256) as u8,
        ((x / 0x100_0000_0000) % 256) as u8,
        ((x / 0x1_0000_0000) % 256) as u8,
        ((x / 0x100_0000) % 256) as u8,
        ((x / 0x1_0000) % 256) as u8,
        ((x / 0x100) % 256) as u8,
        (x % 256) as u8,
    ]
}

/// The bytes that are signed: nonce, expiry (big-endian), issuer id and
/// mnemonic ciphertext.
pub open spec fn payload_bytes(nonce: Seq<u8>, expires_at_unix: u64, issuer: Seq<u8>, ciphertext: Seq<u8>) -> Seq<u8> {
    nonce + be64(expires_at_unix) + issuer + ciphertext
}

/// The signed payload of a token.
pub open spec fn token_payload(t: PairingTokenV) -> Seq<u8> {
    payload_bytes(t.nonce@, t.expires_at_unix, t.issued_by.0@, t.mnemonic_ciphertext)
}

/// The label under which the encryption key is derived.
pub open spec fn hkdf_info() -> Seq<u8> {
    encode_utf8("murmur/pair-invite/v1"@)
}

/// The AES-256-GCM key of an invite with nonce `nonce`.
pub open spec fn invite_key(nonce: Seq<u8>) -> Seq<u8> {
    hkdf_sha256(nonce, hkdf_info())
}

/// The fixed AES-GCM nonce (twelve zero bytes); each invite has a key of
/// its own.
pub open spec fn zero_iv() -> Seq<u8> {
    Seq::new(12, |i: int| 0u8)
}

/// The signature of `t` has 64 bytes and verifies under the issuer's key.
pub open spec fn signature_valid(t: PairingTokenV) -> bool {
    t.signature.len() == 64 && ed25519_valid(t.issued_by.0@, token_payload(t), t.signature)
}

/// What redeeming `t` at time `now` gives: the signature is checked first,
/// then the expiry, then the mnemonic is decrypted and read as UTF-8.
pub open spec fn redeem_result(t: PairingTokenV, now: u64) -> Result<Seq<char>, PairingError> {
    if !signature_valid(t) {
        Err(PairingError::BadSignature)
    } else if now >= t.expires_at_unix {
        Err(PairingError::Expired)
    } else {
        match aes256gcm_open(invite_key(t.nonce@), zero_iv(), t.mnemonic_ciphertext) {
            Some(p) => if valid_utf8(p) {
                Ok(decode_utf8(p))
            } else {
                Err(PairingError::BadMnemonic)
            },
            None => Err(PairingError::BadMnemonic),
        }
    }
}

/// `t` was issued by the holder of the secret key `secret` for the text
/// `mnemonic`: its ciphertext opens to the mnemonic under the invite key
/// and its signature is the one `secret` makes of the payload.
pub open spec fn issued_for(t: PairingTokenV, mnemonic: Seq<char>, secret: Seq<u8>) -> bool {
    &&& t.mnemonic_ciphertext == aes256gcm_seal(invite_key(t.nonce@), zero_iv(), encode_utf8(mnemonic))
    &&& aes256gcm_open(invite_key(t.nonce@), zero_iv(), t.mnemonic_ciphertext) == Some(encode_utf8(mnemonic))
    &&& t.signature == ed25519_signature(secret, token_payload(t))
    &&& t.signature.len() == 64
    &&& ed25519_valid(ed25519_public(secret), token_payload(t), t.signature)
}

/// An invite redeemed before it expires by anyone gives back the mnemonic
/// it was issued for, when its issuer id is the public key of the key that
/// signed it.
pub proof fn lemma_issue_redeem(t: PairingTokenV, mnemonic: Seq<char>, secret: Seq<u8>, now: u64)
    requires
        issued_for(t, mnemonic, secret),
        t.issued_by.0@ == ed25519_public(secret),
        now < t.expires_at_unix,
    ensures
        redeem_result(t, now) == Ok::<Seq<char>, PairingError>(mnemonic),
{
    encode_utf8_valid_utf8(mnemonic);
    encode_utf8_decode_utf8(mnemonic);
}

/// An invite redeemed at or after its expiry is refused, whoever signed it.
pub proof fn lemma_expired_refused(t: PairingTokenV, now: u64)
    requires
        now >= t.expires_at_unix,
    ensures
        redeem_result(t, now) is Err,
{
}

fn be64_bytes(x: u64, out: &mut Vec<u8>)
    ensures
        final(out)@ == old(out)@ + be64(x),
{
    out.push((x / 0x100_0000_0000_0000) as u8);
    out.push(((x / 0x1_0000_0000_0000) % 256) as u8);
    out.push(((x / 0x100_0000_0000) % 256) as u8);
    out.push(((x / 0x1_0000_0000) % 256) as u8);
    out.push(((x / 0x100_0000) % 256) as u8);
    out.push(((x / 0x1_0000) % 256) as u8);
    out.push(((x / 0x100) % 256) as u8);
    out.push((x % 256) as u8);
    assert(final(out)@ =~= old(out)@ + be64(x));
}

/// The bytes that are signed for an invite.
fn signing_payload(nonce: &[u8; 32], expires_at_unix: u64, issued_by: &DeviceId, mnemonic_ciphertext: &[u8]) -> (res: Vec<u8>)
    ensures
        res@ == payload_bytes(nonce@, expires_at_unix, issued_by.0@, mnemonic_ciphertext@),
{
    let mut out: Vec<u8> = Vec::new();
    append_bytes(&mut out, nonce);
    be64_bytes(expires_at_unix, &mut out);
    append_bytes(&mut out, &issued_by.0);
    append_bytes(&mut out, mnemonic_ciphertext);
    assert(out@ =~= payload_bytes(nonce@, expires_at_unix, issued_by.0@, mnemonic_ciphertext@));
    out
}

/// The encryption key of an invite with nonce `nonce`.
fn derive_key(nonce: &[u8; 32]) -> (res: [u8; 32])
    ensures
        res@ == invite_key(nonce@),
{
    hkdf_sha256_expand(nonce, "murmur/pair-invite/v1".as_bytes())
}

fn zero_nonce() -> (res: [u8; 12])
    ensures
        res@ == zero_iv(),
{
    let res: [u8; 12] = [0, 0, 0, 0, 0, 0, 0, 0, 0, 0, 0, 0];
    assert(res@ =~= zero_iv());
    res
}

fn vec_of64(a: &[u8; 64]) -> (res: Vec<u8>)
    ensures
        res@ == a@,
{
    let mut v: Vec<u8> = Vec::new();
    append_bytes(&mut v, a);
    assert(v@ =~= a@);
    v
}

fn array64_of(v: &Vec<u8>) -> (res: [u8; 64])
    requires
        v@.len() == 64,
    ensures
        res@ == v@,
{
    let mut a: [u8; 64] = [0u8; 64];
    let mut i: usize = 0;
    while i < 64
        invariant
            i <= 64,
            v@.len() == 64,
            forall|j: int| 0 <= j < i ==> a@[j] == v@[j],
        decreases 64 - i,
    {
        a[i] = v[i];
        i = i + 1;
    }
    assert(a@ =~= v@);
    a
}

/// The byte encoding of a token: the nonce, the expiry as a varint, the
/// issuer id, then the ciphertext and the signature, each with a varint
/// length.
pub open spec fn enc_token(t: PairingTokenV) -> Seq<u8> {
    t.nonce@ + (spec_varint(t.expires_at_unix) + (t.issued_by.0@ + (spec_bytes(t.mnemonic_ciphertext)
        + spec_bytes(t.signature))))
}

/// Offsets of the fields of an encoded token.
pub open spec fn token_offsets(t: PairingTokenV) -> (int, int, int, int) {
    let o1 = 32int;
    let o2 = o1 + spec_varint(t.expires_at_unix).len();
    let o3 = o2 + 32;
    let o4 = o3 + spec_bytes(t.mnemonic_ciphertext).len();
    (o1, o2, o3, o4)
}

pub open spec fn token_fields_at(t: PairingTokenV, s: Seq<u8>) -> bool {
    let (o1, o2, o3, o4) = token_offsets(t);
    &&& o4 <= s.len()
    &&& prefix_of(t.nonce@, s)
    &&& prefix_of(spec_varint(t.expires_at_unix), s.skip(o1))
    &&& prefix_of(t.issued_by.0@, s.skip(o2))
    &&& prefix_of(spec_bytes(t.mnemonic_ciphertext), s.skip(o3))
    &&& prefix_of(spec_bytes(t.signature), s.skip(o4))
}

pub proof fn lemma_token_fields(t: PairingTokenV, s: Seq<u8>)
    ensures
        prefix_of(enc_token(t), s) <==> token_fields_at(t, s),
        enc_token(t).len() == token_offsets(t).3 + spec_bytes(t.signature).len(),
{
    let (o1, o2, o3, o4) = token_offsets(t);
    let e4 = spec_bytes(t.signature);
    let e3 = spec_bytes(t.mnemonic_ciphertext) + e4;
    let e2 = t.issued_by.0@ + e3;
    let e1 = spec_varint(t.expires_at_unix) + e2;
    if o4 <= s.len() {
        lemma_skip_add(s, o1, o2 - o1);
        lemma_skip_add(s, o2, o3 - o2);
        lemma_skip_add(s, o3, o4 - o3);
    }
    lemma_prefix_concat(t.nonce@, e1, s);
    if o1 <= s.len() {
        lemma_prefix_concat(spec_varint(t.expires_at_unix), e2, s.skip(o1));
    }
    if o2 <= s.len() {
        lemma_prefix_concat(t.issued_by.0@, e3, s.skip(o2));
    }
    if o3 <= s.len() {
        lemma_prefix_concat(spec_bytes(t.mnemonic_ciphertext), e4, s.skip(o3));
    }
}

/// Two tokens whose encodings both begin `s` are equal.
pub proof fn lemma_token_unique(a: PairingTokenV, b: PairingTokenV, s: Seq<u8>)
    requires
        prefix_of(enc_token(a), s),
        prefix_of(enc_token(b), s),
        s.len() <= u64::MAX,
    ensures
        a == b,
{
    lemma_token_fields(a, s);
    lemma_token_fields(b, s);
    let (o1, o2, o3, o4) = token_offsets(a);
    lemma_fixed32_unique(a.nonce, b.nonce, s);
    lemma_varint_unique(a.expires_at_unix, b.expires_at_unix, s.skip(o1));
    lemma_fixed32_unique(a.issued_by.0, b.issued_by.0, s.skip(o2));
    lemma_bytes_unique(a.mnemonic_ciphertext, b.mnemonic_ciphertext, s.skip(o3));
    lemma_bytes_unique(a.signature, b.signature, s.skip(o4));
}

/// Reads a token at `pos`.
pub fn decode_token(buf: &[u8], pos: usize) -> (res: Option<(PairingToken, usize)>)
    requires
        pos <= buf@.len(),
    ensures
        match res {
            Some((t, p)) => p == pos + enc_token(t@).len() && prefix_of(enc_token(t@), buf@.skip(pos as int)),
            None => forall|t: PairingTokenV| !prefix_of(#[trigger] enc_token(t), buf@.skip(pos as int)),
        },
{
    let ghost s = buf@.skip(pos as int);
    assert(buf@.len() == buf.len());
    let (nonce, p1) = match decode_fixed32(buf, pos) {
        Some(x) => x,
        None => {
            assert forall|t: PairingTokenV| !prefix_of(#[trigger] enc_token(t), s) by {
                lemma_token_fields(t, s);
            }
            return None;
        },
    };
    proof { lemma_skip_add(buf@, pos as int, 32); }
    let (exp, p2) = match decode_varint(buf, p1) {
        Some(x) => x,
        None => {
            assert forall|t: PairingTokenV| !prefix_of(#[trigger] enc_token(t), s) by {
                lemma_token_fields(t, s);
            }
            return None;
        },
    };
    let ghost o2: int = p2 - pos;
    proof { lemma_skip_add(buf@, pos as int, o2); }
    let (issuer, p3) = match decode_fixed32(buf, p2) {
        Some(x) => x,
        None => {
            assert forall|t: PairingTokenV| !prefix_of(#[trigger] enc_token(t), s) by {
                lemma_token_fields(t, s);
                if prefix_of(enc_token(t), s) {
                    lemma_varint_unique(t.expires_at_unix, exp, s.skip(32));
                }
            }
            return None;
        },
    };
    let ghost o3: int = p3 - pos;
    proof { lemma_skip_add(buf@, pos as int, o3); }
    let (ct, p4) = match decode_bytes(buf, p3) {
        Some(x) => x,
        None => {
            assert forall|t: PairingTokenV| !prefix_of(#[trigger] enc_token(t), s) by {
                lemma_token_fields(t, s);
                if prefix_of(enc_token(t), s) {
                    lemma_varint_unique(t.expires_at_unix, exp, s.skip(32));
                }
            }
            return None;
        },
    };
    let ghost o4: int = p4 - pos;
    proof { lemma_skip_add(buf@, pos as int, o4); }
    let (sig, p5) = match decode_bytes(buf, p4) {
        Some(x) => x,
        None => {
            assert forall|t: PairingTokenV| !prefix_of(#[trigger] enc_token(t), s) by {
                lemma_token_fields(t, s);
                if prefix_of(enc_token(t), s) {
                    lemma_varint_unique(t.expires_at_unix, exp, s.skip(32));
                    lemma_bytes_unique(t.mnemonic_ciphertext, ct@, s.skip(o3));
                }
            }
            return None;
        },
    };
    let t = PairingToken {
        nonce,
        expires_at_unix: exp,
        issued_by: DeviceId(issuer),
        mnemonic_ciphertext: ct,
        signature: sig,
    };
    proof {
        lemma_skip_add(buf@, pos as int, p5 - pos);
        lemma_token_fields(t@, s);
    }
    Some((t, p5))
}

/// The prefix of every join URL.
pub open spec fn url_prefix() -> Seq<char> {
    MURMUR_URL_SCHEME@ + "://"@ + JOIN_URL_HOST@ + "?token="@
}

/// Number of bytes of `s` before the first `&` or `#`.
pub open spec fn field_len(s: Seq<u8>) -> nat
    decreases s.len(),
{
    if s.len() == 0 || s[0] == 38 || s[0] == 35 {
        0
    } else {
        1 + field_len(s.drop_first())
    }
}

/// What the token of a URL reads as bytes: the URL must start with
/// [`url_prefix`]; the token runs to the first `&` or `#` and is base64url.
pub open spec fn url_token(url: Seq<u8>) -> Option<Seq<u8>> {
    let p = encode_utf8(url_prefix());
    if prefix_of(p, url) {
        base64url_decoded(url.skip(p.len() as int).take(field_len(url.skip(p.len() as int)) as int))
    } else {
        None
    }
}

proof fn lemma_field_len_all(s: Seq<u8>)
    requires
        forall|i: int| 0 <= i < s.len() ==> s[i] != 38 && s[i] != 35,
    ensures
        field_len(s) == s.len(),
    decreases s.len(),
{
    if s.len() > 0 {
        lemma_field_len_all(s.drop_first());
    }
}

proof fn lemma_field_len_stop(a: Seq<u8>, x: Seq<u8>)
    requires
        x.len() > 0,
        x[0] == 38 || x[0] == 35,
    ensures
        field_len(a + x) == field_len(a),
        field_len(a) <= a.len(),
    decreases a.len(),
{
    if a.len() > 0 {
        assert((a + x)[0] == a[0]);
        assert((a + x).drop_first() =~= a.drop_first() + x);
        lemma_field_len_stop(a.drop_first(), x);
    } else {
        assert(a + x =~= x);
    }
}

/// A join URL reads the same token whatever follows it from an `&` or a
/// `#` on.
pub proof fn lemma_url_ignores_rest(u: Seq<u8>, x: Seq<u8>)
    requires
        prefix_of(encode_utf8(url_prefix()), u),
        x.len() > 0,
        x[0] == 38 || x[0] == 35,
    ensures
        url_token(u + x) == url_token(u),
{
    let p = encode_utf8(url_prefix());
    let a = u.skip(p.len() as int);
    assert((u + x).skip(p.len() as int) =~= a + x);
    assert(prefix_of(p, u + x)) by {
        assert((u + x).subrange(0, p.len() as int) =~= u.subrange(0, p.len() as int));
        assert((u + x).take(p.len() as int) =~= u.take(p.len() as int));
    }
    lemma_field_len_stop(a, x);
    assert((a + x).take(field_len(a) as int) =~= a.take(field_len(a) as int));
}

/// A token whose encoding begins the bytes a URL's token reads as is the
/// token the URL was made of: a URL carries its token exactly.
pub proof fn lemma_url_roundtrip(t: PairingTokenV, u: PairingTokenV, url: Seq<u8>)
    requires
        url_token(url) == Some(enc_token(t)),
        prefix_of(enc_token(u), enc_token(t)),
        t.mnemonic_ciphertext.len() + t.signature.len() <= 0x1000_0000_0000_0000,
    ensures
        u == t,
{
    lemma_token_fields(t, enc_token(t));
    lemma_varint_max(t.expires_at_unix);
    lemma_varint_max(t.mnemonic_ciphertext.len() as u64);
    lemma_varint_max(t.signature.len() as u64);
    assert(enc_token(t).subrange(0, enc_token(t).len() as int) =~= enc_token(t));
    lemma_token_unique(u, t, enc_token(t));
}

fn url_prefix_string() -> (res: String)
    ensures
        res@ == url_prefix(),
{
    let a = concat(MURMUR_URL_SCHEME, "://");
    let b = concat(a.as_str(), JOIN_URL_HOST);
    concat(b.as_str(), "?token=")
}

/// Whether `a` begins with `b`.
fn starts_with(a: &[u8], b: &[u8]) -> (res: bool)
    ensures
        res == prefix_of(b@, a@),
{
    if b.len() > a.len() {
        return false;
    }
    let mut i: usize = 0;
    while i < b.len()
        invariant
            i <= b@.len() <= a@.len(),
            forall|j: int| 0 <= j < i ==> a@[j] == b@[j],
        decreases b@.len() - i,
    {
        if a[i] != b[i] {
            assert(a@.subrange(0, b@.len() as int)[i as int] != b@[i as int]);
            return false;
        }
        i = i + 1;
    }
    assert(a@.subrange(0, b@.len() as int) =~= b@);
    true
}

/// The first `n` bytes of `data`.
fn slice_to(data: &[u8], n: usize) -> (res: Vec<u8>)
    requires
        n <= data@.len(),
    ensures
        res@ == data@.take(n as int),
{
    let mut out: Vec<u8> = Vec::new();
    let mut i: usize = 0;
    while i < n
        invariant
            i <= n <= data@.len(),
            out@ == data@.take(i as int),
        decreases n - i,
    {
        out.push(data[i]);
        i = i + 1;
        assert(out@ =~= data@.take(i as int));
    }
    out
}

/// Number of bytes before the first `&` or `#`.
fn field_end(s: &[u8]) -> (res: usize)
    ensures
        res == field_len(s@),
        res <= s@.len(),
{
    let mut i: usize = 0;
    assert(s@.skip(0) =~= s@);
    while i < s.len() && s[i] != 38 && s[i] != 35
        invariant
            i <= s@.len(),
            field_len(s@) == i + field_len(s@.skip(i as int)),
        decreases s@.len() - i,
    {
        assert(s@.skip(i as int).drop_first() =~= s@.skip(i + 1));
        i = i + 1;
    }
    i
}

impl PairingToken {
    /// Writes the byte encoding of the token.
    pub fn encode(&self, out: &mut Vec<u8>)
        ensures
            final(out)@ == old(out)@ + enc_token(self@),
    {
        append_bytes(out, &self.nonce);
        encode_varint(self.expires_at_unix, out);
        append_bytes(out, &self.issued_by.0);
        encode_bytes(self.mnemonic_ciphertext.as_slice(), out);
        encode_bytes(self.signature.as_slice(), out);
        assert(final(out)@ =~= old(out)@ + enc_token(self@));
    }

    /// The invite as a `murmur://join?token=…` URL, the token's byte
    /// encoding in URL-safe base64. The token read back from the URL is
    /// this token's encoding.
    pub fn to_url(&self) -> (res: String)
        ensures
            res@ == url_prefix() + base64url_text(enc_token(self@)),
            url_token(encode_utf8(res@)) == Some(enc_token(self@)),
    {
        let mut bytes: Vec<u8> = Vec::new();
        self.encode(&mut bytes);
        assert(bytes@ =~= enc_token(self@));
        let encoded = base64url_encode(bytes.as_slice());
        let prefix = url_prefix_string();
        let res = concat(prefix.as_str(), encoded.as_str());
        proof {
            lemma_base64url_chars(bytes@);
            lemma_base64url_roundtrip(bytes@);
            let p = encode_utf8(url_prefix());
            let e = encode_utf8(encoded@);
            lemma_encode_concat(url_prefix(), encoded@);
            let u = encode_utf8(res@);
            assert(u == p + e);
            assert(u.subrange(0, p.len() as int) =~= p);
            assert(u.skip(p.len() as int) =~= e);
            assert(is_ascii_chars(encoded@)) by {
                assert forall|i: int| 0 <= i < encoded@.len() implies '\0' <= #[trigger] encoded@[i] <= '\u{7f}' by {
                    assert(is_base64url_char(encoded@[i]));
                }
            }
            is_ascii_chars_encode_utf8(encoded@);
            assert forall|i: int| 0 <= i < e.len() implies e[i] != 38 && e[i] != 35 by {
                assert(encoded@[i] as u8 == e[i]);
                assert(is_base64url_char(encoded@[i]));
            }
            lemma_field_len_all(e);
            assert(e.take(e.len() as int) =~= e);
        }
        res
    }

    /// Reads a `murmur://join?token=…` URL; the token ends at the first
    /// `&` or `#`. Checks neither signature nor expiry: see
    /// [`PairingToken::redeem`].
    pub fn from_url(url: &str) -> (res: Result<PairingToken, PairingError>)
        ensures
            !prefix_of(encode_utf8(url_prefix()), encode_utf8(url@)) ==> (res matches Err(e) && e is InvalidUrl),
            prefix_of(encode_utf8(url_prefix()), encode_utf8(url@)) ==> match url_token(encode_utf8(url@)) {
                None => res matches Err(e) && e is Decode,
                Some(b) => match res {
                    Ok(t) => prefix_of(enc_token(t@), b),
                    Err(e) => e is Decode && forall|t: PairingTokenV| !prefix_of(#[trigger] enc_token(t), b),
                },
            },
    {
        let prefix = url_prefix_string();
        let pb = prefix.as_str().as_bytes();
        let ub = url.as_bytes();
        if !starts_with(ub, pb) {
            return Err(PairingError::InvalidUrl);
        }
        let rest = crate::wire::slice_from(ub, pb.len());
        let n = field_end(rest.as_slice());
        let enc = slice_to(rest.as_slice(), n);
        match base64url_decode(enc.as_slice()) {
            Err(msg) => Err(PairingError::Decode(msg)),
            Ok(bytes) => {
                assert(bytes@.skip(0) =~= bytes@);
                match decode_token(bytes.as_slice(), 0) {
                    Some((t, _)) => Ok(t),
                    None => Err(PairingError::Decode(String::from_str("malformed or truncated token"))),
                }
            },
        }
    }
}

/// The expiry `DEFAULT_EXPIRY_SECS` after `now`, held at the largest time.
pub open spec fn default_expiry(now: u64) -> u64 {
    if now + DEFAULT_EXPIRY_SECS > u64::MAX {
        u64::MAX
    } else {
        (now + DEFAULT_EXPIRY_SECS) as u64
    }
}

impl PairingToken {
    /// Issues an invite that delivers `mnemonic` to whoever redeems it
    /// before `expires_at_unix`, signed with the secret key `issuer_key`
    /// and naming `issuer_id` as its issuer. The nonce is random.
    pub fn issue(mnemonic: &str, issuer_id: DeviceId, issuer_key: &[u8; 32], expires_at_unix: u64) -> (res: PairingToken)
        requires
            encode_utf8(mnemonic@).len() <= aes_plaintext_max(),
        ensures
            res.expires_at_unix == expires_at_unix,
            res.issued_by == issuer_id,
            issued_for(res@, mnemonic@, issuer_key@),
            res.mnemonic_ciphertext@.len() == encode_utf8(mnemonic@).len() + 16,
    {
        let nonce = random_bytes32();
        let key = derive_key(&nonce);
        let iv = zero_nonce();
        let ciphertext = match aes256gcm_encrypt(&key, &iv, mnemonic.as_bytes()) {
            Some(c) => c,
            None => {
                assert(false);
                Vec::new()
            },
        };
        let payload = signing_payload(&nonce, expires_at_unix, &issuer_id, ciphertext.as_slice());
        let sig = ed25519_sign(issuer_key, payload.as_slice());
        PairingToken {
            nonce,
            expires_at_unix,
            issued_by: issuer_id,
            mnemonic_ciphertext: ciphertext,
            signature: vec_of64(&sig),
        }
    }

    /// Issues an invite that expires [`DEFAULT_EXPIRY_SECS`] after the
    /// current time.
    pub fn issue_default(mnemonic: &str, issuer_id: DeviceId, issuer_key: &[u8; 32]) -> (res: PairingToken)
        requires
            encode_utf8(mnemonic@).len() <= aes_plaintext_max(),
        ensures
            exists|now: u64| res.expires_at_unix == default_expiry(now),
            res.issued_by == issuer_id,
            issued_for(res@, mnemonic@, issuer_key@),
    {
        let now = unix_time_secs();
        let res = Self::issue(mnemonic, issuer_id, issuer_key, now.saturating_add(DEFAULT_EXPIRY_SECS));
        assert(res.expires_at_unix == default_expiry(now));
        res
    }

    /// Checks the signature, then the expiry against `now_unix`, then
    /// decrypts the mnemonic. Single use is for the caller to enforce, by
    /// keeping the nonces it has redeemed.
    pub fn redeem(&self, now_unix: u64) -> (res: Result<String, PairingError>)
        ensures
            match res {
                Ok(m) => redeem_result(self@, now_unix) == Ok::<Seq<char>, PairingError>(m@),
                Err(e) => redeem_result(self@, now_unix) == Err::<Seq<char>, PairingError>(e),
            },
    {
        if self.signature.len() != 64 {
            return Err(PairingError::BadSignature);
        }
        let sig = array64_of(&self.signature);
        let payload = signing_payload(
            &self.nonce,
            self.expires_at_unix,
            &self.issued_by,
            self.mnemonic_ciphertext.as_slice(),
        );
        if !ed25519_verify(&self.issued_by.0, payload.as_slice(), &sig) {
            return Err(PairingError::BadSignature);
        }
        if now_unix >= self.expires_at_unix {
            return Err(PairingError::Expired);
        }
        let key = derive_key(&self.nonce);
        let iv = zero_nonce();
        match aes256gcm_decrypt(&key, &iv, self.mnemonic_ciphertext.as_slice()) {
            None => Err(PairingError::BadMnemonic),
            Some(plain) => match utf8_to_string(plain.as_slice()) {
                Some(m) => Ok(m),
                None => Err(PairingError::BadMnemonic),
            },
        }
    }
}

} // verus!
