//! Building text: joining strings, ASCII bytes as text, decimal and
//! hexadecimal digits.

use vstd::prelude::*;
use vstd::utf8::*;
use crate::codec::append_bytes;
use crate::primitives::utf8_to_string;

verus! {

/// The characters of the ASCII bytes `b`.
pub open spec fn ascii_chars(b: Seq<u8>) -> Seq<char> {
    Seq::new(b.len(), |i: int| b[i] as char)
}

/// Every byte of `b` is ASCII.
pub open spec fn all_ascii(b: Seq<u8>) -> bool {
    forall|i: int| 0 <= i < b.len() ==> #[trigger] b[i] < 128
}

/// The decimal digits of `n`, most significant first, without leading
/// zeros ("0" for zero).
pub open spec fn dec_chars(n: nat) -> Seq<char>
    decreases n,
{
    if n < 10 {
        seq![digit_char(n)]
    } else {
        dec_chars(n / 10).push(digit_char(n % 10))
    }
}

/// The character of the digit `d` (below 16), lower-case for 10 to 15.
pub open spec fn digit_char(d: nat) -> char {
    if d < 10 {
        ((d + 48) as u8) as char
    } else {
        ((d + 87) as u8) as char
    }
}

/// Two lower-case hexadecimal digits of `b`.
pub open spec fn hex_byte_chars(b: u8) -> Seq<char> {
    seq![digit_char((b / 16) as nat), digit_char((b % 16) as nat)]
}

/// Lower-case hexadecimal digits of the bytes `b`, two per byte.
pub open spec fn hex_chars(b: Seq<u8>) -> Seq<char>
    decreases b.len(),
{
    if b.len() == 0 {
        Seq::empty()
    } else {
        hex_chars(b.drop_last()) + hex_byte_chars(b.last())
    }
}

pub proof fn lemma_encode_concat(a: Seq<char>, b: Seq<char>)
    ensures
        encode_utf8(a + b) == encode_utf8(a) + encode_utf8(b),
    decreases a.len(),
{
    if a.len() == 0 {
        assert(a + b =~= b);
        assert(encode_utf8(a) =~= Seq::<u8>::empty());
        assert(encode_utf8(a) + encode_utf8(b) =~= encode_utf8(b));
    } else {
        assert((a + b)[0] == a[0]);
        assert((a + b).drop_first() =~= a.drop_first() + b);
        lemma_encode_concat(a.drop_first(), b);
        assert(encode_utf8(a + b) =~= encode_scalar(a[0] as u32) + (encode_utf8(a.drop_first())
            + encode_utf8(b)));
    }
}

pub proof fn lemma_ascii_encode(b: Seq<u8>)
    requires
        all_ascii(b),
    ensures
        encode_utf8(ascii_chars(b)) == b,
{
    let c = ascii_chars(b);
    assert(is_ascii_chars(c)) by {
        assert forall|i: int| 0 <= i < c.len() implies '\0' <= #[trigger] c[i] <= '\u{7f}' by {
            assert(b[i] < 128);
        }
    }
    is_ascii_chars_encode_utf8(c);
    assert forall|i: int| 0 <= i < b.len() implies encode_utf8(c)[i] == b[i] by {
        assert(c[i] as u8 == encode_utf8(c)[i]);
    }
    assert(encode_utf8(c) =~= b);
}

/// The text whose UTF-8 encoding is `bytes`, which must be one.
fn text_of_utf8(bytes: &Vec<u8>, Ghost(chars): Ghost<Seq<char>>) -> (res: String)
    requires
        bytes@ == encode_utf8(chars),
    ensures
        res@ == chars,
{
    proof {
        encode_utf8_valid_utf8(chars);
        encode_utf8_decode_utf8(chars);
    }
    match utf8_to_string(bytes.as_slice()) {
        Some(t) => t,
        None => {
            assert(false);
            String::new()
        },
    }
}

/// `a` followed by `b`.
pub fn concat(a: &str, b: &str) -> (res: String)
    ensures
        res@ == a@ + b@,
{
    let mut v: Vec<u8> = Vec::new();
    append_bytes(&mut v, a.as_bytes());
    append_bytes(&mut v, b.as_bytes());
    proof {
        lemma_encode_concat(a@, b@);
        assert(v@ =~= encode_utf8(a@) + encode_utf8(b@));
    }
    text_of_utf8(&v, Ghost(a@ + b@))
}

/// The ASCII bytes `b` as text.
pub fn ascii_text(b: &Vec<u8>) -> (res: String)
    requires
        all_ascii(b@),
    ensures
        res@ == ascii_chars(b@),
{
    proof {
        lemma_ascii_encode(b@);
    }
    text_of_utf8(b, Ghost(ascii_chars(b@)))
}

/// The ASCII byte of the digit `d` (below 16).
fn digit_byte(d: u8) -> (res: u8)
    requires
        d < 16,
    ensures
        res < 128,
        res as char == digit_char(d as nat),
{
    if d < 10 {
        d + 48
    } else {
        d + 87
    }
}

/// Appends the decimal digits of `n`.
fn push_decimal(n: u64, out: &mut Vec<u8>)
    requires
        all_ascii(old(out)@),
    ensures
        all_ascii(final(out)@),
        ascii_chars(final(out)@) == ascii_chars(old(out)@) + dec_chars(n as nat),
    decreases n,
{
    if n >= 10 {
        push_decimal(n / 10, out);
    }
    let ghost mid = out@;
    let d = digit_byte((n % 10) as u8);
    out.push(d);
    proof {
        assert(ascii_chars(out@) =~= ascii_chars(mid).push(d as char));
        if n >= 10 {
            assert(dec_chars(n as nat) == dec_chars((n / 10) as nat).push(digit_char((n % 10) as nat)));
            assert(ascii_chars(out@) =~= ascii_chars(old(out)@) + dec_chars(n as nat));
        } else {
            assert(ascii_chars(mid) == ascii_chars(old(out)@));
            assert(dec_chars(n as nat) == seq![digit_char(n as nat)]);
            assert(ascii_chars(out@) =~= ascii_chars(old(out)@) + dec_chars(n as nat));
        }
    }
}

/// The decimal digits of `n`.
pub fn decimal(n: u64) -> (res: String)
    ensures
        res@ == dec_chars(n as nat),
{
    let mut v: Vec<u8> = Vec::new();
    push_decimal(n, &mut v);
    assert(ascii_chars(Seq::<u8>::empty()) =~= Seq::<char>::empty());
    assert(ascii_chars(v@) =~= dec_chars(n as nat));
    ascii_text(&v)
}

/// Lower-case hexadecimal digits of `b`, two per byte.
pub fn hex(b: &[u8]) -> (res: String)
    ensures
        res@ == hex_chars(b@),
{
    let mut v: Vec<u8> = Vec::new();
    let mut i: usize = 0;
    assert(b@.subrange(0, 0) =~= Seq::<u8>::empty());
    assert(ascii_chars(v@) =~= Seq::<char>::empty());
    while i < b.len()
        invariant
            i <= b@.len(),
            all_ascii(v@),
            ascii_chars(v@) == hex_chars(b@.subrange(0, i as int)),
        decreases b@.len() - i,
    {
        let x = b[i];
        let ghost before = v@;
        v.push(digit_byte(x / 16));
        v.push(digit_byte(x % 16));
        proof {
            assert(b@.subrange(0, i + 1).drop_last() =~= b@.subrange(0, i as int));
            assert(ascii_chars(v@) =~= ascii_chars(before) + hex_byte_chars(x));
        }
        i = i + 1;
    }
    assert(b@.subrange(0, b@.len() as int) =~= b@);
    ascii_text(&v)
}

} // verus!
