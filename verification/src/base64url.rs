//! URL-safe base64 without padding: each three bytes become four symbols
//! of six bits, most significant first; a last group of one or two bytes
//! becomes two or three symbols with the spare low bits zero.

use vstd::prelude::*;
use vstd::utf8::encode_utf8;
use crate::text::{ascii_chars, all_ascii, lemma_ascii_encode};

verus! {

/// The ASCII byte of the six-bit value `v`: `A-Z`, `a-z`, `0-9`, `-`, `_`.
pub open spec fn b64_symbol(v: int) -> u8 {
    if v < 26 {
        (65 + v) as u8
    } else if v < 52 {
        (71 + v) as u8
    } else if v < 62 {
        (v - 4) as u8
    } else if v == 62 {
        45
    } else {
        95
    }
}

/// The base64url symbols of `d`, as ASCII bytes.
pub open spec fn base64url_bytes(d: Seq<u8>) -> Seq<u8>
    decreases d.len(),
{
    if d.len() == 0 {
        Seq::empty()
    } else if d.len() == 1 {
        seq![b64_symbol((d[0] as int) / 4), b64_symbol(((d[0] as int) % 4) * 16)]
    } else if d.len() == 2 {
        seq![b64_symbol((d[0] as int) / 4), b64_symbol(((d[0] as int) % 4) * 16 + (d[1] as int) / 16), b64_symbol(((d[1] as int) % 16) * 4)]
    } else {
        seq![
            b64_symbol((d[0] as int) / 4),
            b64_symbol(((d[0] as int) % 4) * 16 + (d[1] as int) / 16),
            b64_symbol(((d[1] as int) % 16) * 4 + (d[2] as int) / 64),
            b64_symbol((d[2] as int) % 64),
        ] + base64url_bytes(d.skip(3))
    }
}

/// URL-safe base64 without padding of `data`.
pub open spec fn base64url_text(data: Seq<u8>) -> Seq<char> {
    ascii_chars(base64url_bytes(data))
}

/// The bytes whose base64url text is the ASCII bytes `text`; `None` when
/// there are none.
pub open spec fn base64url_decoded(text: Seq<u8>) -> Option<Seq<u8>> {
    if exists|d: Seq<u8>| base64url_bytes(d) == text {
        Some(choose|d: Seq<u8>| base64url_bytes(d) == text)
    } else {
        None
    }
}

/// A symbol of the URL-safe alphabet.
pub open spec fn is_base64url_char(c: char) -> bool {
    ('A' <= c <= 'Z') || ('a' <= c <= 'z') || ('0' <= c <= '9') || c == '-' || c == '_'
}

proof fn lemma_symbol(v: int, w: int)
    requires
        0 <= v < 64,
        0 <= w < 64,
    ensures
        b64_symbol(v) < 128,
        is_base64url_char(b64_symbol(v) as char),
        b64_symbol(v) == b64_symbol(w) ==> v == w,
{
}

/// Every symbol is in the URL-safe alphabet.
pub proof fn lemma_base64url_chars(d: Seq<u8>)
    ensures
        all_ascii(base64url_bytes(d)),
        forall|i: int|
            0 <= i < base64url_text(d).len() ==> is_base64url_char(#[trigger] base64url_text(d)[i]),
        encode_utf8(base64url_text(d)) == base64url_bytes(d),
    decreases d.len(),
{
    let b = base64url_bytes(d);
    if d.len() >= 3 {
        lemma_base64url_chars(d.skip(3));
    }
    assert forall|i: int| 0 <= i < b.len() implies #[trigger] b[i] < 128 && is_base64url_char(b[i] as char) by {
        if d.len() == 1 {
            lemma_symbol((d[0] as int) / 4, 0);
            lemma_symbol(((d[0] as int) % 4) * 16, 0);
        } else if d.len() == 2 {
            lemma_symbol((d[0] as int) / 4, 0);
            lemma_symbol(((d[0] as int) % 4) * 16 + (d[1] as int) / 16, 0);
            lemma_symbol(((d[1] as int) % 16) * 4, 0);
        } else if d.len() >= 3 {
            lemma_symbol((d[0] as int) / 4, 0);
            lemma_symbol(((d[0] as int) % 4) * 16 + (d[1] as int) / 16, 0);
            lemma_symbol(((d[1] as int) % 16) * 4 + (d[2] as int) / 64, 0);
            lemma_symbol((d[2] as int) % 64, 0);
            if i >= 4 {
                let r = base64url_bytes(d.skip(3));
                assert(b[i] == r[i - 4]);
                assert(r[i - 4] < 128);
                assert(base64url_text(d.skip(3))[i - 4] == r[i - 4] as char);
            }
        }
    }
    lemma_ascii_encode(b);
}

proof fn lemma_group_unique(x0: u8, x1: u8, x2: u8, y0: u8, y1: u8, y2: u8)
    requires
        x0 / 4 == y0 / 4,
        (x0 % 4) * 16 + x1 / 16 == (y0 % 4) * 16 + y1 / 16,
        (x1 % 16) * 4 + x2 / 64 == (y1 % 16) * 4 + y2 / 64,
        x2 % 64 == y2 % 64,
    ensures
        x0 == y0 && x1 == y1 && x2 == y2,
{
    assert(x0 == y0 && x1 == y1 && x2 == y2) by (nonlinear_arith)
        requires
            x0 / 4 == y0 / 4,
            (x0 % 4) * 16 + x1 / 16 == (y0 % 4) * 16 + y1 / 16,
            (x1 % 16) * 4 + x2 / 64 == (y1 % 16) * 4 + y2 / 64,
            x2 % 64 == y2 % 64,
            x0 < 256,
            x1 < 256,
            x2 < 256,
            y0 < 256,
            y1 < 256,
            y2 < 256,
    ;
}

/// Different bytes have different base64url texts.
pub proof fn lemma_base64url_unique(a: Seq<u8>, b: Seq<u8>)
    requires
        base64url_bytes(a) == base64url_bytes(b),
    ensures
        a == b,
    decreases a.len(),
{
    let ea = base64url_bytes(a);
    let eb = base64url_bytes(b);
    lemma_base64url_len(a);
    lemma_base64url_len(b);
    if a.len() >= 3 && b.len() >= 3 {
        assert(ea[0] == eb[0] && ea[1] == eb[1] && ea[2] == eb[2] && ea[3] == eb[3]);
        lemma_symbol((a[0] as int) / 4, (b[0] as int) / 4);
        lemma_symbol(((a[0] as int) % 4) * 16 + (a[1] as int) / 16, ((b[0] as int) % 4) * 16 + (b[1] as int) / 16);
        lemma_symbol(((a[1] as int) % 16) * 4 + (a[2] as int) / 64, ((b[1] as int) % 16) * 4 + (b[2] as int) / 64);
        lemma_symbol((a[2] as int) % 64, (b[2] as int) % 64);
        lemma_group_unique(a[0], a[1], a[2], b[0], b[1], b[2]);
        assert(ea.skip(4) == base64url_bytes(a.skip(3)));
        assert(eb.skip(4) == base64url_bytes(b.skip(3)));
        lemma_base64url_unique(a.skip(3), b.skip(3));
        assert(a =~= a.take(3) + a.skip(3));
        assert(b =~= b.take(3) + b.skip(3));
        assert(a.take(3) =~= b.take(3));
    } else if a.len() == 2 && b.len() == 2 {
        assert(ea[0] == eb[0] && ea[1] == eb[1] && ea[2] == eb[2]);
        lemma_symbol((a[0] as int) / 4, (b[0] as int) / 4);
        lemma_symbol(((a[0] as int) % 4) * 16 + (a[1] as int) / 16, ((b[0] as int) % 4) * 16 + (b[1] as int) / 16);
        lemma_symbol(((a[1] as int) % 16) * 4, ((b[1] as int) % 16) * 4);
        lemma_group_unique(a[0], a[1], 0, b[0], b[1], 0);
        assert(a =~= b);
    } else if a.len() == 1 && b.len() == 1 {
        assert(ea[0] == eb[0] && ea[1] == eb[1]);
        lemma_symbol((a[0] as int) / 4, (b[0] as int) / 4);
        lemma_symbol(((a[0] as int) % 4) * 16, ((b[0] as int) % 4) * 16);
        lemma_group_unique(a[0], 0, 0, b[0], 0, 0);
        assert(a =~= b);
    } else if a.len() == 0 && b.len() == 0 {
        assert(a =~= b);
    }
}

/// A text of `n` bytes takes four symbols per three bytes, and two or
/// three for a last group of one or two.
proof fn lemma_base64url_len(d: Seq<u8>)
    ensures
        base64url_bytes(d).len() == 4 * (d.len() / 3) + if d.len() % 3 == 0 {
            0int
        } else {
            (d.len() % 3 + 1) as int
        },
    decreases d.len(),
{
    if d.len() >= 3 {
        lemma_base64url_len(d.skip(3));
    }
}

/// Decoding the base64url text of `d` gives back `d`.
pub proof fn lemma_base64url_roundtrip(d: Seq<u8>)
    ensures
        base64url_decoded(encode_utf8(base64url_text(d))) == Some(d),
{
    lemma_base64url_chars(d);
    let t = base64url_bytes(d);
    assert(exists|x: Seq<u8>| base64url_bytes(x) == t);
    let c = choose|x: Seq<u8>| base64url_bytes(x) == t;
    lemma_base64url_unique(c, d);
}

} // verus!
