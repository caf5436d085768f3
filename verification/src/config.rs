//! Device configuration: the configuration record, its file paths, role
//! names and device ids given as hex text.

use vstd::prelude::*;
use vstd::utf8::*;
use vstd::string::StringExecFns;
use crate::templates::str_eq;
use crate::text::{concat, decimal, dec_chars, hex_chars, hex_byte_chars, digit_char, ascii_chars, lemma_ascii_encode};
use crate::types::DeviceId;

verus! {

/// Top-level configuration.
pub struct Config {
    /// Device configuration.
    pub device: DeviceConfig,
    /// Storage paths.
    pub storage: StorageConfig,
    /// Network behaviour.
    pub network: NetworkConfig,
}

/// Device identity and role.
pub struct DeviceConfig {
    /// Human-readable device name.
    pub name: String,
    /// Device role: "source", "backup" or "full".
    pub role: String,
}

/// Paths for persistent storage.
pub struct StorageConfig {
    /// Directory of content-addressed blobs.
    pub blob_dir: String,
    /// Directory of the DAG database.
    pub data_dir: String,
}

/// Network behaviour options.
pub struct NetworkConfig {
    /// Approve new devices without asking.
    pub auto_approve: bool,
}

impl Default for NetworkConfig {
    fn default() -> (res: NetworkConfig)
        ensures
            !res.auto_approve,
    {
        NetworkConfig { auto_approve: false }
    }
}

/// `name` inside the directory `base`: a separator is put between them
/// unless `base` is empty or already ends with one.
pub open spec fn join_path(base: Seq<char>, name: Seq<char>) -> Seq<char> {
    if base.len() == 0 {
        name
    } else if base.last() == '/' {
        base + name
    } else {
        base + seq!['/'] + name
    }
}

/// `name` inside the directory `base`.
pub fn join(base: &str, name: &str) -> (res: String)
    ensures
        res@ == join_path(base@, name@),
{
    if base.as_bytes().len() == 0 {
        proof {
            encode_utf8_decode_utf8(base@);
            assert(decode_utf8(encode_utf8(base@)) =~= Seq::<char>::empty());
        }
        return name.to_owned();
    }
    let n = base.unicode_len();
    if base.get_char(n - 1) == '/' {
        concat(base, name)
    } else {
        let with_sep = concat(base, "/");
        proof {
            reveal_strlit("/");
        }
        concat(with_sep.as_str(), name)
    }
}

/// The configuration file inside `base_dir`.
pub fn config_path(base_dir: &str) -> (res: String)
    ensures
        res@ == join_path(base_dir@, "config.toml"@),
{
    join(base_dir, "config.toml")
}

/// The mnemonic file inside `base_dir`.
pub fn mnemonic_path(base_dir: &str) -> (res: String)
    ensures
        res@ == join_path(base_dir@, "mnemonic"@),
{
    join(base_dir, "mnemonic")
}

/// The device key file inside `base_dir`.
pub fn device_key_path(base_dir: &str) -> (res: String)
    ensures
        res@ == join_path(base_dir@, "device.key"@),
{
    join(base_dir, "device.key")
}

/// The device roles.
pub open spec fn known_role(role: Seq<char>) -> bool {
    role == "source"@ || role == "backup"@ || role == "full"@
}

/// Accepts the three device roles; any other is refused with a message
/// that quotes it.
pub fn validate_role(role: &str) -> (res: Result<(), String>)
    ensures
        res is Ok <==> known_role(role@),
        res matches Err(m) ==> m@ == "unknown device role: \""@ + role@
            + "\" (expected source, backup, or full)"@,
{
    if str_eq(role, "source") || str_eq(role, "backup") || str_eq(role, "full") {
        Ok(())
    } else {
        let a = concat("unknown device role: \"", role);
        Err(concat(a.as_str(), "\" (expected source, backup, or full)"))
    }
}

/// The configuration written for a device joining a network from the
/// directory `base_dir`: blobs under `blobs`, the database under `db`,
/// no automatic approval.
pub fn join_config(base_dir: &str, name: &str, role: &str) -> (res: Config)
    ensures
        res.device.name@ == name@,
        res.device.role@ == role@,
        res.storage.blob_dir@ == join_path(base_dir@, "blobs"@),
        res.storage.data_dir@ == join_path(base_dir@, "db"@),
        !res.network.auto_approve,
{
    Config {
        device: DeviceConfig { name: name.to_owned(), role: role.to_owned() },
        storage: StorageConfig { blob_dir: join(base_dir, "blobs"), data_dir: join(base_dir, "db") },
        network: NetworkConfig::default(),
    }
}

/// Characters that count as white space (Unicode White_Space).
pub open spec fn is_white_space(c: char) -> bool {
    ||| '\u{9}' <= c <= '\u{d}'
    ||| c == ' '
    ||| c == '\u{85}'
    ||| c == '\u{a0}'
    ||| c == '\u{1680}'
    ||| '\u{2000}' <= c <= '\u{200a}'
    ||| c == '\u{2028}'
    ||| c == '\u{2029}'
    ||| c == '\u{202f}'
    ||| c == '\u{205f}'
    ||| c == '\u{3000}'
}

/// Number of white-space characters at the start of `s`.
pub open spec fn lead_ws(s: Seq<char>) -> nat
    decreases s.len(),
{
    if s.len() > 0 && is_white_space(s[0]) {
        1 + lead_ws(s.drop_first())
    } else {
        0
    }
}

/// Number of white-space characters at the end of `s`.
pub open spec fn trail_ws(s: Seq<char>) -> nat
    decreases s.len(),
{
    if s.len() > 0 && is_white_space(s.last()) {
        1 + trail_ws(s.drop_last())
    } else {
        0
    }
}

/// `s` without white space at either end.
pub open spec fn trimmed(s: Seq<char>) -> Seq<char> {
    let t = s.skip(lead_ws(s) as int);
    t.take(t.len() - trail_ws(t))
}

/// The value of a hexadecimal digit, `None` for another byte.
pub open spec fn hex_value(b: u8) -> Option<u8> {
    if 48 <= b <= 57 {
        Some((b - 48) as u8)
    } else if 97 <= b <= 102 {
        Some((b - 87) as u8)
    } else if 65 <= b <= 70 {
        Some((b - 55) as u8)
    } else {
        None
    }
}

/// A byte written as two hex digits.
pub open spec fn hex_pair(a: u8, b: u8) -> Option<u8> {
    match (hex_value(a), hex_value(b)) {
        (Some(x), Some(y)) => Some((16 * x + y) as u8),
        _ => None,
    }
}

/// The bytes that 64 text bytes give, two by two; `None` when some pair is
/// not a byte in base 16.
pub open spec fn hex_id_bytes(t: Seq<u8>) -> Option<Seq<u8>> {
    if forall|i: int| 0 <= i < 32 ==> #[trigger] hex_pair(t[2 * i], t[2 * i + 1]) is Some {
        Some(Seq::new(32, |i: int| hex_pair(t[2 * i], t[2 * i + 1])->0))
    } else {
        None
    }
}

pub(crate) fn is_white(c: char) -> (res: bool)
    ensures
        res == is_white_space(c),
{
    ('\u{9}' <= c && c <= '\u{d}') || c == ' ' || c == '\u{85}' || c == '\u{a0}' || c == '\u{1680}'
        || ('\u{2000}' <= c && c <= '\u{200a}') || c == '\u{2028}' || c == '\u{2029}' || c == '\u{202f}'
        || c == '\u{205f}' || c == '\u{3000}'
}

fn hex_digit(b: u8) -> (res: Option<u8>)
    ensures
        res == hex_value(b),
{
    if 48 <= b && b <= 57 {
        Some(b - 48)
    } else if 97 <= b && b <= 102 {
        Some(b - 87)
    } else if 65 <= b && b <= 70 {
        Some(b - 55)
    } else {
        None
    }
}

fn parse_pair(a: u8, b: u8) -> (res: Option<u8>)
    ensures
        res == hex_pair(a, b),
{
    match (hex_digit(a), hex_digit(b)) {
        (Some(x), Some(y)) => Some(16 * x + y),
        _ => None,
    }
}

/// The UTF-8 bytes of `s` without white space at either end.
fn trim_bytes(s: &str) -> (res: Vec<u8>)
    ensures
        res@ == encode_utf8(trimmed(s@)),
{
    let n = s.unicode_len();
    let mut a: usize = 0;
    assert(s@.skip(0) =~= s@);
    while a < n && is_white(s.get_char(a))
        invariant
            a <= n,
            n == s@.len(),
            lead_ws(s@) == a + lead_ws(s@.skip(a as int)),
        decreases n - a,
    {
        assert(s@.skip(a as int).drop_first() =~= s@.skip(a + 1));
        a = a + 1;
    }
    let ghost t = s@.skip(a as int);
    assert(lead_ws(t) == 0);
    let mut b: usize = n;
    assert(t.take((b - a) as int) =~= t);
    while b > a && is_white(s.get_char(b - 1))
        invariant
            a <= b <= n,
            n == s@.len(),
            t == s@.skip(a as int),
            trail_ws(t) == (n - b) + trail_ws(t.take((b - a) as int)),
        decreases b - a,
    {
        assert(t.take((b - a) as int).drop_last() =~= t.take(b - 1 - a));
        assert(t.take((b - a) as int).last() == s@[b - 1]);
        b = b - 1;
    }
    proof {
        assert(trail_ws(t.take((b - a) as int)) == 0);
        assert(trimmed(s@) =~= s@.subrange(a as int, b as int));
    }
    let piece = s.substring_char(a, b);
    let bytes = piece.as_bytes();
    let mut out: Vec<u8> = Vec::new();
    crate::codec::append_bytes(&mut out, bytes);
    assert(out@ =~= encode_utf8(trimmed(s@)));
    out
}

/// Reads a device id written as 64 hex characters, with white space
/// around it allowed: every pair of characters is a byte written as two
/// ASCII hex digits.
pub fn parse_device_id(hex_str: &str) -> (res: Result<DeviceId, String>)
    ensures
        encode_utf8(trimmed(hex_str@)).len() != 64 ==> (res matches Err(m) && m@
            == "device ID must be 64 hex characters (32 bytes), got "@ + dec_chars(
            encode_utf8(trimmed(hex_str@)).len(),
        )),
        encode_utf8(trimmed(hex_str@)).len() == 64 ==> match hex_id_bytes(encode_utf8(trimmed(hex_str@))) {
            Some(b) => res matches Ok(id) && id.0@ == b,
            None => res matches Err(m) && m@ == "invalid hex in device ID"@,
        },
{
    let t = trim_bytes(hex_str);
    if t.len() != 64 {
        let d = decimal(t.len() as u64);
        return Err(concat("device ID must be 64 hex characters (32 bytes), got ", d.as_str()));
    }
    let mut bytes: [u8; 32] = [0u8; 32];
    let mut i: usize = 0;
    while i < 32
        invariant
            i <= 32,
            t@.len() == 64,
            t@ == encode_utf8(trimmed(hex_str@)),
            forall|j: int| 0 <= j < i ==> #[trigger] hex_pair(t@[2 * j], t@[2 * j + 1]) == Some(bytes@[j]),
        decreases 32 - i,
    {
        match parse_pair(t[2 * i], t[2 * i + 1]) {
            Some(v) => {
                bytes[i] = v;
            },
            None => {
                assert(hex_id_bytes(t@) is None);
                return Err(String::from_str("invalid hex in device ID"));
            },
        }
        i = i + 1;
    }
    assert(bytes@ =~= Seq::new(32, |j: int| hex_pair(t@[2 * j], t@[2 * j + 1])->0));
    Ok(DeviceId::from_bytes(bytes))
}

/// The ASCII byte of the hex digit `d` (below 16), lower-case.
pub open spec fn digit_byte(d: nat) -> u8 {
    if d < 10 {
        (d + 48) as u8
    } else {
        (d + 87) as u8
    }
}

/// The hex digits of `b` as ASCII bytes.
pub open spec fn hex_digit_bytes(b: Seq<u8>) -> Seq<u8> {
    Seq::new(
        2 * b.len(),
        |j: int|
            if j % 2 == 0 {
                digit_byte((b[j / 2] / 16) as nat)
            } else {
                digit_byte((b[j / 2] % 16) as nat)
            },
    )
}

proof fn lemma_hex_chars_bytes(b: Seq<u8>)
    ensures
        hex_chars(b) == ascii_chars(hex_digit_bytes(b)),
    decreases b.len(),
{
    if b.len() > 0 {
        let r = b.drop_last();
        lemma_hex_chars_bytes(r);
        let x = b.last();
        assert forall|j: int| 0 <= j < 2 * b.len() implies #[trigger] hex_chars(b)[j] == (hex_digit_bytes(b)[j]
            as char) by {
            if j < 2 * r.len() {
                assert(hex_chars(b)[j] == hex_chars(r)[j]);
                assert(b[j / 2] == r[j / 2]);
            } else {
                assert(hex_chars(b)[j] == hex_byte_chars(x)[j - 2 * r.len()]);
                assert(j / 2 == r.len());
            }
        }
        assert(hex_chars(b) =~= ascii_chars(hex_digit_bytes(b)));
    }
}

/// A device id shown as hex (two lower-case digits per byte, as
/// [`crate::text::hex`] writes it) reads back as the same 32 bytes: it has
/// no white space to trim, is 64 bytes long, and every pair of digits is
/// the byte it was written from.
pub proof fn lemma_device_id_hex_roundtrip(b: Seq<u8>)
    requires
        b.len() == 32,
    ensures
        trimmed(hex_chars(b)) == hex_chars(b),
        encode_utf8(hex_chars(b)).len() == 64,
        hex_id_bytes(encode_utf8(hex_chars(b))) == Some(b),
{
    let hb = hex_digit_bytes(b);
    lemma_hex_chars_bytes(b);
    assert(all_digit_bytes(hb)) by {
        assert forall|j: int| 0 <= j < hb.len() implies #[trigger] hb[j] < 128 && !is_white_space(hb[j] as char) by {}
    }
    lemma_ascii_encode(hb);
    let c = hex_chars(b);
    assert(!is_white_space(c[0]));
    assert(!is_white_space(c[c.len() - 1]));
    assert(lead_ws(c) == 0);
    assert(trail_ws(c.skip(0)) == 0) by {
        assert(c.skip(0) =~= c);
    }
    assert(c.skip(0).take(c.len() as int) =~= c);
    assert forall|i: int| 0 <= i < 32 implies #[trigger] hex_pair(hb[2 * i], hb[2 * i + 1]) == Some(b[i]) by {
        let v = b[i];
        assert(hb[2 * i] == digit_byte((v / 16) as nat));
        assert(hb[2 * i + 1] == digit_byte((v % 16) as nat));
        assert(16 * (v / 16) + v % 16 == v);
    }
    assert(Seq::new(32, |i: int| hex_pair(hb[2 * i], hb[2 * i + 1])->0) =~= b);
}

/// Every byte is an ASCII character that is not white space.
pub open spec fn all_digit_bytes(b: Seq<u8>) -> bool {
    forall|j: int| 0 <= j < b.len() ==> #[trigger] b[j] < 128 && !is_white_space(b[j] as char)
}

/// A joined path is `base`, then `name` at its end, with exactly one `/`
/// right before `name` whenever `base` is not empty, and at most one
/// character added between them.
pub proof fn lemma_join_path(base: Seq<char>, name: Seq<char>)
    ensures
        ({
            let j = join_path(base, name);
            &&& base.len() + name.len() <= j.len() <= base.len() + name.len() + 1
            &&& j.subrange(0, base.len() as int) == base
            &&& j.subrange(j.len() - name.len(), j.len() as int) == name
            &&& base.len() > 0 ==> j[j.len() - name.len() - 1] == '/'
            &&& base.len() == 0 ==> j == name
        }),
{
    let j = join_path(base, name);
    assert(j.subrange(0, base.len() as int) =~= base);
    assert(j.subrange(j.len() - name.len(), j.len() as int) =~= name);
}

} // verus!
