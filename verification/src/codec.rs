//! Byte-level encodings: UTF-8 decoding, MD5 digests in lower-case hex, and
//! percent-decoding of URI paths.

use vstd::prelude::*;
use vstd::utf8::{decode_utf8, valid_utf8};
use crate::text::push_char_to;

verus! {

/// What `String::from_utf8_lossy` makes of `b`: the text of `b` with each
/// ill-formed sequence replaced by U+FFFD.
pub uninterp spec fn utf8_lossy(b: Seq<u8>) -> Seq<char>;

/// The MD5 digest of `b`.
pub uninterp spec fn md5_digest(b: Seq<u8>) -> Seq<u8>;

/// Calls `String::from_utf8_lossy`. The result is named `utf8_lossy`; the
/// contract also states what the standard library documents: well-formed
/// UTF-8 is decoded as it stands.
#[verifier::external_body]
pub(crate) fn lossy_text(b: &[u8]) -> (r: String)
    ensures
        r@ == utf8_lossy(b@),
        valid_utf8(b@) ==> r@ == decode_utf8(b@),
{
    String::from_utf8_lossy(b).into_owned()
}

/// Calls `md5::compute`, which returns the 16 bytes of the digest.
#[verifier::external_body]
pub(crate) fn md5_compute(b: &[u8]) -> (r: Vec<u8>)
    ensures
        r@ == md5_digest(b@),
        r@.len() == 16,
{
    md5::compute(b).0.to_vec()
}

/// Lower-case hexadecimal digit of a value below 16.
pub open spec fn hex_char(n: u8) -> char {
    if n < 10 {
        ((n as u32) + 0x30) as char
    } else {
        ((n as u32) + 0x57) as char
    }
}

/// Two lower-case hex digits per byte, high nibble first, as `{:02x}` writes.
pub open spec fn hex_lower(b: Seq<u8>) -> Seq<char>
    decreases b.len(),
{
    if b.len() == 0 {
        Seq::empty()
    } else {
        hex_lower(b.drop_last()).push(hex_char(b.last() / 16)).push(hex_char(b.last() % 16))
    }
}

fn hex_digit(n: u8) -> (c: char)
    requires
        n < 16,
    ensures
        c == hex_char(n),
{
    if n < 10 {
        (n + 0x30) as char
    } else {
        (n + 0x57) as char
    }
}

/// The bytes `b` in lower-case hexadecimal.
pub fn to_hex_lower(b: &[u8]) -> (r: String)
    ensures
        r@ == hex_lower(b@),
{
    let mut r = String::new();
    let mut i: usize = 0;
    while i < b.len()
        invariant
            i <= b@.len(),
            r@ == hex_lower(b@.take(i as int)),
        decreases b@.len() - i,
    {
        let x = b[i];
        push_char_to(&mut r, hex_digit(x / 16));
        push_char_to(&mut r, hex_digit(x % 16));
        assert(b@.take(i + 1).drop_last() =~= b@.take(i as int));
        i += 1;
    }
    assert(b@.take(i as int) =~= b@);
    r
}

/// The MD5 digest of `b` in lower-case hexadecimal, as `format!("{:x}", md5::compute(b))`.
pub fn md5_hex(b: &[u8]) -> (r: String)
    ensures
        r@ == hex_lower(md5_digest(b@)),
{
    let d = md5_compute(b);
    to_hex_lower(d.as_slice())
}

/// Hex text has two digits per byte, each a lower-case hexadecimal digit,
/// the high nibble first: byte `i` is spelled by characters `2i` and `2i+1`.
pub proof fn law_hex_lower(b: Seq<u8>)
    ensures
        hex_lower(b).len() == 2 * b.len(),
        forall|i: int| 0 <= i < b.len() ==> #[trigger] hex_lower(b)[2 * i] == hex_char(b[i] / 16) && hex_lower(b)[2 * i
            + 1] == hex_char(b[i] % 16),
        forall|n: u8| n < 16 ==> ((0x30 <= #[trigger] hex_char(n) as u32 <= 0x39) || (0x61 <= hex_char(n) as u32 <= 0x66)),
        forall|n: u8| n < 10 ==> #[trigger] hex_char(n) as u32 == 0x30 + n,
        forall|n: u8| 10 <= n < 16 ==> #[trigger] hex_char(n) as u32 == 0x61 + (n - 10),
    decreases b.len(),
{
    if b.len() > 0 {
        let d = b.drop_last();
        law_hex_lower(d);
        assert forall|i: int| 0 <= i < b.len() implies #[trigger] hex_lower(b)[2 * i] == hex_char(b[i] / 16)
            && hex_lower(b)[2 * i + 1] == hex_char(b[i] % 16) by {
            if i < b.len() - 1 {
                assert(b[i] == d[i]);
                assert(hex_lower(b)[2 * i] == hex_lower(d)[2 * i]);
                assert(hex_lower(b)[2 * i + 1] == hex_lower(d)[2 * i + 1]);
            }
        }
    }
}

} // verus!
