//! Bytes as hexadecimal text.

use vstd::prelude::*;
use vstd::slice::slice_subrange;
use vstd::string::StringExecFns;

use crate::hash;
use crate::text;

verus! {

/// The lowercase hexadecimal digit `d`.
pub open spec fn hex_digit(d: int) -> char {
    if d < 10 {
        (d + 48) as char
    } else {
        (d + 87) as char
    }
}

/// Two digits for each byte, the high half first.
pub open spec fn hex_digits(b: Seq<u8>) -> Seq<char> {
    Seq::new(
        2 * b.len(),
        |i: int|
            hex_digit(
                if i % 2 == 0 {
                    b[i / 2] as int / 16
                } else {
                    b[i / 2] as int % 16
                },
            ),
    )
}

/// `hex::encode`: the text holds two lowercase digits for each byte.
#[verifier::external_body]
pub(crate) fn hex_encode(bytes: &[u8]) -> (r: String)
    ensures
        r@ == hex_digits(bytes@),
{
    hex::encode(bytes)
}

/// The SHA-256 digest of `bytes` in hexadecimal.
pub fn sha256_hex(bytes: &[u8]) -> (r: String)
    ensures
        r@ == hex_digits(hash::sha256(bytes@)),
{
    let digest = hash::sha256_digest(bytes);
    hex_encode(digest.as_slice())
}

/// Bytes that a short form shows.
pub const SHORT_BYTES: usize = 64;

/// The hexadecimal text of `b`, cut after [`SHORT_BYTES`] bytes with a note
/// on the length.
pub open spec fn shortened(b: Seq<u8>) -> Seq<char> {
    if b.len() <= SHORT_BYTES {
        hex_digits(b)
    } else {
        hex_digits(b.take(SHORT_BYTES as int)) + "... ("@ + text::decimal(b.len()) + " bytes total)"@
    }
}

/// The hexadecimal text of `bytes`, cut when it is long.
pub fn hex_short(bytes: &[u8]) -> (r: String)
    ensures
        r@ == shortened(bytes@),
{
    if bytes.len() <= SHORT_BYTES {
        return hex_encode(bytes);
    }
    let head = slice_subrange(bytes, 0, SHORT_BYTES);
    assert(head@ =~= bytes@.take(SHORT_BYTES as int));
    let mut text = hex_encode(head);
    text.append("... (");
    text::append_decimal(&mut text, bytes.len() as u64);
    text.append(" bytes total)");
    text
}

/// The value of a lowercase hexadecimal digit.
pub open spec fn hex_value(c: char) -> int {
    if 97 > (c as int) {
        c as int - 48
    } else {
        c as int - 87
    }
}

/// The text of bytes has two digits for each, which spell it, so that
/// different bytes have different texts.
pub proof fn law_hex_spells_bytes(a: Seq<u8>, b: Seq<u8>, i: int)
    ensures
        hex_digits(a).len() == 2 * a.len(),
        0 <= i < a.len() ==> 16 * hex_value(hex_digits(a)[2 * i]) + hex_value(hex_digits(a)[2 * i + 1])
            == a[i],
        0 <= i < 2 * a.len() ==> ('0' <= hex_digits(a)[i] <= '9' || 'a' <= hex_digits(a)[i] <= 'f'),
        a != b ==> hex_digits(a) != hex_digits(b),
{
    if hex_digits(a) == hex_digits(b) {
        assert(hex_digits(a).len() == 2 * a.len() && hex_digits(b).len() == 2 * b.len());
        assert forall|k: int| 0 <= k < a.len() implies a[k] == b[k] by {
            lemma_spelled(a, k);
            lemma_spelled(b, k);
        }
        assert(a =~= b);
    }
    if 0 <= i < a.len() {
        lemma_spelled(a, i);
    }
}

proof fn lemma_spelled(a: Seq<u8>, i: int)
    requires
        0 <= i < a.len(),
    ensures
        16 * hex_value(hex_digits(a)[2 * i]) + hex_value(hex_digits(a)[2 * i + 1]) == a[i],
{
    let x = a[i] as int;
    assert((2 * i) / 2 == i && (2 * i) % 2 == 0 && (2 * i + 1) / 2 == i && (2 * i + 1) % 2 == 1);
    assert(hex_digits(a)[2 * i] == hex_digit(x / 16));
    assert(hex_digits(a)[2 * i + 1] == hex_digit(x % 16));
    assert(0 <= x / 16 < 16 && 0 <= x % 16 < 16);
    assert(hex_value(hex_digit(x / 16)) == x / 16);
    assert(hex_value(hex_digit(x % 16)) == x % 16);
}

/// Bytes beyond the first 64 are left out of the short text.
pub proof fn law_short_text_is_bounded(b: Seq<u8>)
    ensures
        b.len() <= 64 ==> shortened(b) == hex_digits(b),
        b.len() > 64 ==> shortened(b).len() > 128 && shortened(b).take(128) == hex_digits(b.take(64)),
{
    if b.len() > 64 {
        assert(shortened(b).take(128) =~= hex_digits(b.take(64)));
        reveal_strlit("... (");
    }
}

} // verus!
