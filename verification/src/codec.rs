//! Compact byte encoding used for entries, messages and tokens.
//!
//! Integers are LEB128 varints, fixed 32-byte arrays are written raw,
//! byte strings and text carry a varint length prefix, options carry a
//! one-byte tag and enum variants a varint index.

use vstd::prelude::*;
use vstd::utf8::*;
use crate::primitives::utf8_to_string;

verus! {

/// Whether `a` is a prefix of `s`.
pub open spec fn prefix_of(a: Seq<u8>, s: Seq<u8>) -> bool {
    a.len() <= s.len() && s.subrange(0, a.len() as int) == a
}

/// LEB128 encoding of an unsigned integer: seven bits per byte, least
/// significant group first, high bit set on every byte but the last.
pub open spec fn spec_varint(x: u64) -> Seq<u8>
    decreases x,
{
    if x < 128 {
        seq![x as u8]
    } else {
        seq![(x % 128 + 128) as u8] + spec_varint(x / 128)
    }
}

pub proof fn lemma_varint_len(x: u64)
    ensures
        1 <= spec_varint(x).len(),
        x < 128 ==> spec_varint(x).len() == 1,
    decreases x,
{
    if x >= 128 {
        lemma_varint_len(x / 128);
    }
}

/// Two varints that are both prefixes of one byte sequence are equal.
/// `128` to the power `k`.
pub open spec fn pow128(k: nat) -> nat
    decreases k,
{
    if k == 0 {
        1
    } else {
        128 * pow128((k - 1) as nat)
    }
}

proof fn lemma_varint_below(x: u64, k: nat)
    requires
        x < pow128(k),
    ensures
        spec_varint(x).len() <= k + 1,
    decreases k,
{
    if x >= 128 && k > 0 {
        let p = pow128((k - 1) as nat);
        assert(x / 128 < p) by (nonlinear_arith)
            requires
                x < 128 * p,
        ;
        lemma_varint_below(x / 128, (k - 1) as nat);
    } else if x >= 128 {
        assert(pow128(0) == 1);
    }
}

/// A varint of a `u64` takes at most eleven bytes.
pub proof fn lemma_varint_max(x: u64)
    ensures
        spec_varint(x).len() <= 11,
{
    assert(pow128(10) == 1180591620717411303424) by {
        assert(pow128(0) == 1);
        assert(pow128(1) == 128);
        assert(pow128(2) == 16384);
        assert(pow128(3) == 2097152);
        assert(pow128(4) == 268435456);
        assert(pow128(5) == 34359738368);
        assert(pow128(6) == 4398046511104);
        assert(pow128(7) == 562949953421312);
        assert(pow128(8) == 72057594037927936);
        assert(pow128(9) == 9223372036854775808);
        assert(pow128(10) == 1180591620717411303424);
    }
    lemma_varint_below(x, 10);
}

pub proof fn lemma_varint_unique(x: u64, y: u64, s: Seq<u8>)
    requires
        prefix_of(spec_varint(x), s),
        prefix_of(spec_varint(y), s),
    ensures
        x == y,
    decreases x,
{
    assert(spec_varint(x)[0] == s[0]);
    assert(spec_varint(y)[0] == s[0]);
    if x < 128 {
        if y >= 128 {
            assert((y % 128 + 128) as u8 >= 128);
        }
    } else {
        if y < 128 {
            assert((x % 128 + 128) as u8 >= 128);
        } else {
            let tx = spec_varint(x / 128);
            let ty = spec_varint(y / 128);
            let s1 = s.skip(1);
            assert(spec_varint(x) == seq![(x % 128 + 128) as u8] + tx);
            assert(spec_varint(y) == seq![(y % 128 + 128) as u8] + ty);
            assert(s1.subrange(0, tx.len() as int) =~= s.subrange(0, spec_varint(x).len() as int).skip(1));
            assert(s.subrange(0, spec_varint(x).len() as int).skip(1) =~= tx);
            assert(s1.subrange(0, ty.len() as int) =~= s.subrange(0, spec_varint(y).len() as int).skip(1));
            assert(s.subrange(0, spec_varint(y).len() as int).skip(1) =~= ty);
            lemma_varint_unique(x / 128, y / 128, s1);
            assert(x % 128 == y % 128);
        }
    }
}

/// Appends the varint encoding of `x` to `out`.
pub fn encode_varint(x: u64, out: &mut Vec<u8>)
    ensures
        final(out)@ == old(out)@ + spec_varint(x),
    decreases x,
{
    if x < 128 {
        out.push(x as u8);
        assert(final(out)@ =~= old(out)@ + spec_varint(x));
    } else {
        out.push((x % 128 + 128) as u8);
        let ghost mid = out@;
        encode_varint(x / 128, out);
        assert(final(out)@ =~= old(out)@ + spec_varint(x));
    }
}

/// Reads a varint at `pos`. Returns the value and the position after it, or
/// `None` when no varint encoding is a prefix of `buf[pos..]`.
pub fn decode_varint(buf: &[u8], pos: usize) -> (res: Option<(u64, usize)>)
    requires
        pos <= buf@.len(),
    ensures
        match res {
            Some((x, p)) => p == pos + spec_varint(x).len() && prefix_of(
                spec_varint(x),
                buf@.skip(pos as int),
            ),
            None => forall|x: u64| !prefix_of(#[trigger] spec_varint(x), buf@.skip(pos as int)),
        },
    decreases buf@.len() - pos,
{
    let ghost s = buf@.skip(pos as int);
    if pos >= buf.len() {
        assert forall|x: u64| !prefix_of(#[trigger] spec_varint(x), s) by {
            lemma_varint_len(x);
        }
        return None;
    }
    let b = buf[pos];
    assert(s[0] == b);
    if b < 128 {
        let x = b as u64;
        assert(spec_varint(x) =~= seq![b]);
        assert(s.subrange(0, 1) =~= seq![b]);
        return Some((x, pos + 1));
    }
    let rest = decode_varint(buf, pos + 1);
    let ghost s1 = buf@.skip(pos + 1);
    assert(s1 =~= s.skip(1));
    match rest {
        None => {
            assert forall|x: u64| !prefix_of(#[trigger] spec_varint(x), s) by {
                if prefix_of(spec_varint(x), s) {
                    if x < 128 {
                        assert(spec_varint(x)[0] == s[0]);
                    } else {
                        let t = spec_varint(x / 128);
                        assert(spec_varint(x) == seq![(x % 128 + 128) as u8] + t);
                        assert(s.subrange(0, spec_varint(x).len() as int).skip(1) =~= t);
                        assert(s1.subrange(0, t.len() as int) =~= s.subrange(0, spec_varint(x).len() as int).skip(1));
                        assert(prefix_of(spec_varint(x / 128), s1));
                    }
                }
            }
            None
        },
        Some((hi, p)) => {
            let low = (b - 128) as u64;
            if hi == 0 || hi > (u64::MAX - low) / 128 {
                assert forall|x: u64| !prefix_of(#[trigger] spec_varint(x), s) by {
                    if prefix_of(spec_varint(x), s) {
                        if x < 128 {
                            assert(spec_varint(x)[0] == s[0]);
                        } else {
                            let t = spec_varint(x / 128);
                            assert(spec_varint(x) == seq![(x % 128 + 128) as u8] + t);
                            assert(spec_varint(x)[0] == s[0]);
                            assert(s.subrange(0, spec_varint(x).len() as int).skip(1) =~= t);
                            assert(s1.subrange(0, t.len() as int) =~= s.subrange(0, spec_varint(x).len() as int).skip(1));
                            lemma_varint_unique(x / 128, hi, s1);
                            assert(x % 128 == low);
                            assert(x == (x / 128) * 128 + x % 128);
                            assert(hi * 128 + low <= u64::MAX) by (nonlinear_arith)
                                requires
                                    hi == x / 128,
                                    low == x % 128,
                                    x <= u64::MAX,
                                    x == (x / 128) * 128 + x % 128,
                            ;
                            assert(hi <= (u64::MAX - low) / 128) by (nonlinear_arith)
                                requires
                                    hi * 128 + low <= u64::MAX,
                                    low < 128,
                            ;
                        }
                    }
                }
                return None;
            }
            assert(hi * 128 + low <= u64::MAX) by (nonlinear_arith)
                requires
                    hi <= (u64::MAX - low) / 128,
                    low < 128,
            ;
            let x = hi * 128 + low;
            assert(x / 128 == hi && x % 128 == low) by (nonlinear_arith)
                requires
                    x == hi * 128 + low,
                    low < 128,
            ;
            assert(x >= 128);
            let ghost t = spec_varint(hi);
            assert(spec_varint(x) == seq![b] + t);
            assert(s.subrange(0, spec_varint(x).len() as int) =~= seq![b] + s1.subrange(0, t.len() as int));
            Some((x, p))
        },
    }
}


/// Skipping twice is skipping the sum.
pub proof fn lemma_skip_add(s: Seq<u8>, a: int, b: int)
    requires
        0 <= a,
        0 <= b,
        a + b <= s.len(),
    ensures
        s.skip(a).skip(b) == s.skip(a + b),
{
    assert(s.skip(a).skip(b) =~= s.skip(a + b));
}

/// Splitting a prefix test over a concatenation.
pub proof fn lemma_prefix_concat(a: Seq<u8>, b: Seq<u8>, s: Seq<u8>)
    ensures
        prefix_of(a + b, s) <==> (prefix_of(a, s) && prefix_of(b, s.skip(a.len() as int))),
{
    if prefix_of(a + b, s) {
        let ab = a + b;
        assert(s.subrange(0, ab.len() as int) == ab);
        assert(s.subrange(0, a.len() as int) =~= ab.subrange(0, a.len() as int));
        assert(ab.subrange(0, a.len() as int) =~= a);
        assert(s.subrange(a.len() as int, ab.len() as int) =~= ab.subrange(a.len() as int, ab.len() as int));
        assert(s.skip(a.len() as int).subrange(0, b.len() as int) =~= s.subrange(
            a.len() as int,
            (a + b).len() as int,
        ));
        assert((a + b).subrange(a.len() as int, (a + b).len() as int) =~= b);
    }
    if prefix_of(a, s) && prefix_of(b, s.skip(a.len() as int)) {
        assert forall|i: int| 0 <= i < (a + b).len() implies s.subrange(0, (a + b).len() as int)[i]
            == (a + b)[i] by {
            if i < a.len() {
                assert(s.subrange(0, a.len() as int)[i] == a[i]);
            } else {
                assert(s.skip(a.len() as int).subrange(0, b.len() as int)[i - a.len()] == b[i
                    - a.len()]);
            }
        }
        assert(s.subrange(0, (a + b).len() as int) =~= a + b);
    }
}

/// Appends `b` to `out`, byte by byte.
pub fn append_bytes(out: &mut Vec<u8>, b: &[u8])
    ensures
        final(out)@ == old(out)@ + b@,
{
    let mut i: usize = 0;
    while i < b.len()
        invariant
            i <= b@.len(),
            out@ == old(out)@ + b@.subrange(0, i as int),
        decreases b@.len() - i,
    {
        out.push(b[i]);
        i = i + 1;
        assert(out@ =~= old(out)@ + b@.subrange(0, i as int));
    }
    assert(b@.subrange(0, b@.len() as int) =~= b@);
}

/// Copies `buf[from..to]` into a fresh vector.
pub fn copy_range(buf: &[u8], from: usize, to: usize) -> (res: Vec<u8>)
    requires
        from <= to <= buf@.len(),
    ensures
        res@ == buf@.subrange(from as int, to as int),
{
    let mut out: Vec<u8> = Vec::new();
    let mut i = from;
    while i < to
        invariant
            from <= i <= to <= buf@.len(),
            out@ == buf@.subrange(from as int, i as int),
        decreases to - i,
    {
        out.push(buf[i]);
        i = i + 1;
        assert(out@ =~= buf@.subrange(from as int, i as int));
    }
    out
}

/// Reads 32 raw bytes at `pos`.
pub fn decode_fixed32(buf: &[u8], pos: usize) -> (res: Option<([u8; 32], usize)>)
    requires
        pos <= buf@.len(),
    ensures
        match res {
            Some((a, p)) => p == pos + 32 && prefix_of(a@, buf@.skip(pos as int)),
            None => buf@.len() - pos < 32 && forall|a: [u8; 32]| !prefix_of(#[trigger] a@, buf@.skip(pos as int)),
        },
{
    if buf.len() - pos < 32 {
        return None;
    }
    let mut a: [u8; 32] = [0u8; 32];
    let mut i: usize = 0;
    while i < 32
        invariant
            i <= 32,
            pos + 32 <= buf@.len(),
            buf@.len() == buf.len(),
            forall|j: int| 0 <= j < i ==> a@[j] == buf@[pos + j],
        decreases 32 - i,
    {
        a[i] = buf[pos + i];
        i = i + 1;
    }
    assert(buf@.skip(pos as int).subrange(0, 32) =~= a@);
    Some((a, pos + 32))
}

/// Two 32-byte arrays that are prefixes of one sequence are equal.
pub proof fn lemma_fixed32_unique(a: [u8; 32], b: [u8; 32], s: Seq<u8>)
    requires
        prefix_of(a@, s),
        prefix_of(b@, s),
    ensures
        a == b,
{
    assert(a@ =~= b@);
    assert(a =~= b);
}

/// Encoding of a byte string: varint length, then the bytes.
pub open spec fn spec_bytes(b: Seq<u8>) -> Seq<u8> {
    spec_varint(b.len() as u64) + b
}

pub proof fn lemma_bytes_unique(a: Seq<u8>, b: Seq<u8>, s: Seq<u8>)
    requires
        prefix_of(spec_bytes(a), s),
        prefix_of(spec_bytes(b), s),
        s.len() <= u64::MAX,
    ensures
        a == b,
{
    lemma_prefix_concat(spec_varint(a.len() as u64), a, s);
    lemma_prefix_concat(spec_varint(b.len() as u64), b, s);
    lemma_varint_unique(a.len() as u64, b.len() as u64, s);
    assert(a.len() == b.len());
    assert(a =~= b);
}

pub fn encode_bytes(b: &[u8], out: &mut Vec<u8>)
    ensures
        final(out)@ == old(out)@ + spec_bytes(b@),
{
    encode_varint(b.len() as u64, out);
    append_bytes(out, b);
    assert(final(out)@ =~= old(out)@ + spec_bytes(b@));
}

/// Reads a length-prefixed byte string at `pos`.
pub fn decode_bytes(buf: &[u8], pos: usize) -> (res: Option<(Vec<u8>, usize)>)
    requires
        pos <= buf@.len(),
    ensures
        match res {
            Some((b, p)) => p == pos + spec_bytes(b@).len() && prefix_of(
                spec_bytes(b@),
                buf@.skip(pos as int),
            ),
            None => forall|b: Seq<u8>| !prefix_of(#[trigger] spec_bytes(b), buf@.skip(pos as int)),
        },
{
    let ghost s = buf@.skip(pos as int);
    match decode_varint(buf, pos) {
        None => {
            assert forall|b: Seq<u8>| !prefix_of(#[trigger] spec_bytes(b), s) by {
                lemma_prefix_concat(spec_varint(b.len() as u64), b, s);
            }
            None
        },
        Some((n, p)) => {
            if n > (buf.len() - p) as u64 {
                assert forall|b: Seq<u8>| !prefix_of(#[trigger] spec_bytes(b), s) by {
                    lemma_prefix_concat(spec_varint(b.len() as u64), b, s);
                    if prefix_of(spec_bytes(b), s) {
                        lemma_varint_unique(n, b.len() as u64, s);
                    }
                }
                return None;
            }
            let end = p + n as usize;
            let b = copy_range(buf, p, end);
            proof {
                let v = spec_varint(n);
                assert(s.skip(v.len() as int) =~= buf@.skip(p as int));
                assert(buf@.skip(p as int).subrange(0, n as int) =~= b@);
                assert(b@.len() == n);
                lemma_prefix_concat(v, b@, s);
            }
            Some((b, end))
        },
    }
}

/// Encoding of text: its UTF-8 bytes as a byte string.
pub open spec fn spec_text(c: Seq<char>) -> Seq<u8> {
    spec_bytes(encode_utf8(c))
}

pub proof fn lemma_text_unique(a: Seq<char>, b: Seq<char>, s: Seq<u8>)
    requires
        prefix_of(spec_text(a), s),
        prefix_of(spec_text(b), s),
        s.len() <= u64::MAX,
    ensures
        a == b,
{
    lemma_bytes_unique(encode_utf8(a), encode_utf8(b), s);
    encode_utf8_decode_utf8(a);
    encode_utf8_decode_utf8(b);
}

pub fn encode_text(t: &str, out: &mut Vec<u8>)
    ensures
        final(out)@ == old(out)@ + spec_text(t@),
{
    let b = t.as_bytes();
    encode_bytes(b, out);
}

/// Reads length-prefixed UTF-8 text at `pos`.
pub fn decode_text(buf: &[u8], pos: usize) -> (res: Option<(String, usize)>)
    requires
        pos <= buf@.len(),
    ensures
        match res {
            Some((t, p)) => p == pos + spec_text(t@).len() && prefix_of(
                spec_text(t@),
                buf@.skip(pos as int),
            ),
            None => forall|c: Seq<char>| !prefix_of(#[trigger] spec_text(c), buf@.skip(pos as int)),
        },
{
    let ghost s = buf@.skip(pos as int);
    assert(buf@.len() == buf.len());
    match decode_bytes(buf, pos) {
        None => None,
        Some((b, p)) => {
            match utf8_to_string(b.as_slice()) {
                None => {
                    assert forall|c: Seq<char>| !prefix_of(#[trigger] spec_text(c), s) by {
                        if prefix_of(spec_text(c), s) {
                            lemma_bytes_unique(encode_utf8(c), b@, buf@.skip(pos as int));
                            encode_utf8_valid_utf8(c);
                        }
                    }
                    None
                },
                Some(t) => {
                    proof {
                        decode_utf8_encode_utf8(b@);
                    }
                    Some((t, p))
                },
            }
        },
    }
}

/// Reads one byte at `pos`.
pub fn decode_byte(buf: &[u8], pos: usize) -> (res: Option<(u8, usize)>)
    requires
        pos <= buf@.len(),
    ensures
        match res {
            Some((x, p)) => p == pos + 1 && prefix_of(seq![x], buf@.skip(pos as int)),
            None => pos == buf@.len() && forall|x: u8| !prefix_of(#[trigger] seq![x], buf@.skip(pos as int)),
        },
{
    if pos >= buf.len() {
        return None;
    }
    let x = buf[pos];
    assert(buf@.skip(pos as int).subrange(0, 1) =~= seq![x]);
    Some((x, pos + 1))
}

} // verus!
