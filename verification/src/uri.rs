//! Reading a file path out of a copied URI list, so that a copied image file
//! can be stored as the image itself.

use vstd::prelude::*;
use vstd::utf8::{decode_utf8, encode_utf8, valid_utf8};
use crate::codec::{lossy_text, utf8_lossy};
use crate::constants::MIME_URI_LIST;
use crate::text::{chars_of, find_char, has_prefix, index_of_char, starts_with_chars, str_eq, string_of};

verus! {

/// Value of an ASCII hexadecimal digit, in either case.
pub open spec fn hex_value(b: u8) -> Option<u8> {
    if 0x30 <= b <= 0x39 {
        Some((b - 0x30) as u8)
    } else if 0x61 <= b <= 0x66 {
        Some((b - 0x57) as u8)
    } else if 0x41 <= b <= 0x46 {
        Some((b - 0x37) as u8)
    } else {
        None
    }
}

/// Percent-decoding: each `%` followed by two hex digits stands for the byte
/// they spell; every other byte stands for itself.
pub open spec fn pct_decode(b: Seq<u8>) -> Seq<u8>
    decreases b.len(),
{
    if b.len() == 0 {
        Seq::empty()
    } else if b[0] == 0x25 && b.len() >= 3 && hex_value(b[1]) is Some && hex_value(b[2]) is Some {
        seq![(hex_value(b[1]).unwrap() * 16 + hex_value(b[2]).unwrap()) as u8] + pct_decode(b.skip(3))
    } else {
        seq![b[0]] + pct_decode(b.skip(1))
    }
}

/// Calls `percent_encoding::percent_decode_str(s).decode_utf8()`: the
/// percent-decoded bytes of `s`, as text when they are well-formed UTF-8.
#[verifier::external_body]
fn percent_decode_text(s: &str) -> (r: Option<String>)
    ensures
        r is Some <==> valid_utf8(pct_decode(encode_utf8(s@))),
        r matches Some(t) ==> t@ == decode_utf8(pct_decode(encode_utf8(s@))),
{
    match percent_encoding::percent_decode_str(s).decode_utf8() {
        Ok(t) => Some(t.into_owned()),
        Err(_) => None,
    }
}

/// The first line of `t`, as `str::lines` yields it: up to the first line
/// feed, without a carriage return that precedes it; `None` for empty text.
pub open spec fn first_line(t: Seq<char>) -> Option<Seq<char>> {
    if t.len() == 0 {
        None
    } else {
        let k = index_of_char(t, '\n');
        if k < t.len() && k > 0 && t[k - 1] == '\r' {
            Some(t.take(k - 1))
        } else {
            Some(t.take(k as int))
        }
    }
}

/// `s` with every leading repetition of the non-empty `p` removed, as
/// `str::trim_start_matches` does.
pub open spec fn strip_all(s: Seq<char>, p: Seq<char>) -> Seq<char>
    decreases s.len(),
{
    if p.len() > 0 && has_prefix(s, p) {
        strip_all(s.skip(p.len() as int), p)
    } else {
        s
    }
}

/// The path named by the first line of a URI list, when that line is a
/// `file://` URI whose percent-decoded path is UTF-8.
pub open spec fn file_uri_target(payload: Seq<u8>) -> Option<Seq<char>> {
    match first_line(utf8_lossy(payload)) {
        Some(line) => if has_prefix(line, "file://"@) {
            let raw = strip_all(line, "file://"@);
            let bytes = pct_decode(encode_utf8(raw));
            if valid_utf8(bytes) {
                Some(decode_utf8(bytes))
            } else {
                None
            }
        } else {
            None
        },
        None => None,
    }
}

/// Reads the path out of a copied URI list.
pub fn file_uri_path(payload: &[u8]) -> (r: Option<String>)
    ensures
        match r {
            Some(p) => file_uri_target(payload@) == Some(p@),
            None => file_uri_target(payload@) is None,
        },
{
    let text = lossy_text(payload);
    let t = chars_of(text.as_str());
    if t.len() == 0 {
        return None;
    }
    let k = find_char(t.as_slice(), '\n');
    let end: usize = if k < t.len() && k > 0 && t[k - 1] == '\r' {
        k - 1
    } else {
        k
    };
    let line = &t[0..end];
    assert(first_line(t@) == Some(line@));
    let scheme = chars_of("file://");
    if !starts_with_chars(line, scheme.as_slice()) {
        return None;
    }
    let n = scheme.len();
    proof {
        reveal_strlit("file://");
    }
    let mut from: usize = 0;
    assert(line@.skip(0) =~= line@);
    while starts_with_chars(&line[from..line.len()], scheme.as_slice())
        invariant
            n == scheme@.len(),
            n == 7,
            scheme@ == "file://"@,
            from <= line@.len(),
            strip_all(line@, "file://"@) == strip_all(line@.skip(from as int), "file://"@),
        decreases line@.len() - from,
    {
        assert(line@.subrange(from as int, line@.len() as int) =~= line@.skip(from as int));
        assert(line@.skip(from as int).skip(n as int) =~= line@.skip(from + n));
        from = from + n;
        assert(line@.subrange(from as int, line@.len() as int) =~= line@.skip(from as int));
    }
    assert(line@.subrange(from as int, line@.len() as int) =~= line@.skip(from as int));
    let raw = string_of(&line[from..line.len()]);
    assert(raw@ == strip_all(line@, "file://"@));
    percent_decode_text(raw.as_str())
}

/// The file that may stand in for a payload captured as `mime`: the path
/// named by a copied URI list; nothing for any other format.
pub fn promotion_path(mime: &str, payload: &[u8]) -> (r: Option<String>)
    ensures
        match r {
            Some(p) => mime@ == MIME_URI_LIST@ && file_uri_target(payload@) == Some(p@),
            None => mime@ != MIME_URI_LIST@ || file_uri_target(payload@) is None,
        },
{
    if str_eq(mime, MIME_URI_LIST) {
        file_uri_path(payload)
    } else {
        None
    }
}

/// Bytes without `%` decode to themselves, and `%` followed by two hex
/// digits decodes to the byte they spell, in either case.
pub proof fn law_pct_decode(b: Seq<u8>, x: u8, y: u8)
    ensures
        (forall|k: int| 0 <= k < b.len() ==> #[trigger] b[k] != 0x25) ==> pct_decode(b) == b,
        hex_value(x) is Some && hex_value(y) is Some ==> pct_decode(seq![0x25u8, x, y] + b) == seq![
            (hex_value(x).unwrap() * 16 + hex_value(y).unwrap()) as u8,
        ] + pct_decode(b),
        pct_decode(seq![0x25u8, 0x32u8, 0x30u8]) == seq![0x20u8],
        pct_decode(seq![0x25u8, 0x61u8, 0x46u8]) == seq![0xAFu8],
    decreases b.len(),
{
    if forall|k: int| 0 <= k < b.len() ==> #[trigger] b[k] != 0x25 {
        if b.len() > 0 {
            let r = b.skip(1);
            assert forall|k: int| 0 <= k < r.len() implies #[trigger] r[k] != 0x25 by {
                assert(r[k] == b[k + 1]);
            }
            law_pct_decode(r, x, y);
            assert(pct_decode(b) =~= b);
        }
    }
    let c = seq![0x25u8, x, y] + b;
    if hex_value(x) is Some && hex_value(y) is Some {
        assert(c.skip(3) =~= b);
        assert(c[0] == 0x25 && c[1] == x && c[2] == y && c.len() >= 3);
        assert(pct_decode(c) == seq![(hex_value(c[1]).unwrap() * 16 + hex_value(c[2]).unwrap()) as u8] + pct_decode(c.skip(3)));
    }
    let d = seq![0x25u8, 0x32u8, 0x30u8];
    assert(d.skip(3) =~= Seq::<u8>::empty());
    assert(pct_decode(Seq::<u8>::empty()) =~= Seq::<u8>::empty());
    assert(hex_value(0x32u8) == Some(2u8));
    assert(hex_value(0x30u8) == Some(0u8));
    assert(d[0] == 0x25 && d[1] == 0x32 && d[2] == 0x30 && d.len() == 3);
    assert(pct_decode(d) =~= seq![0x20u8]);
    let e = seq![0x25u8, 0x61u8, 0x46u8];
    assert(e.skip(3) =~= Seq::<u8>::empty());
    assert(hex_value(0x61u8) == Some(10u8));
    assert(hex_value(0x46u8) == Some(15u8));
    assert(e[0] == 0x25 && e[1] == 0x61 && e[2] == 0x46 && e.len() == 3);
    assert(pct_decode(e) =~= seq![0xAFu8]);
}

/// A copied file names its path: when the payload's text is `file://`
/// followed by an absolute path free of `%` and line breaks, then nothing
/// or a line break and more lines, the target is that path; a first line
/// that is not a `file://` URI names none.
pub proof fn law_file_uri(payload: Seq<u8>, p: Seq<char>, rest: Seq<char>)
    ensures
        utf8_lossy(payload) == "file://"@ + p + rest && p.len() > 0 && p[0] == '/' && (forall|k: int|
            0 <= k < p.len() ==> #[trigger] p[k] != '%' && p[k] != '\n' && p[k] != '\r') && (rest.len() == 0
            || rest[0] == '\n') ==> file_uri_target(payload) == Some(p),
        first_line(utf8_lossy(payload)) matches Some(line) && !has_prefix(line, "file://"@) ==> file_uri_target(payload)
            is None,
{
    reveal_strlit("file://");
    let t = utf8_lossy(payload);
    if t == "file://"@ + p + rest && p.len() > 0 && p[0] == '/' && (forall|k: int|
        0 <= k < p.len() ==> #[trigger] p[k] != '%' && p[k] != '\n' && p[k] != '\r') && (rest.len() == 0
        || rest[0] == '\n') {
        let pre = "file://"@;
        let line = pre + p;
        let n = line.len();
        assert forall|j: int| 0 <= j < n implies t[j] != '\n' by {
            if j < 7 {
                assert(t[j] == pre[j]);
            } else {
                assert(t[j] == p[j - 7]);
            }
        }
        if rest.len() > 0 {
            assert(t[n as int] == '\n');
        }
        assert(t.len() == n + rest.len());
        crate::text::lemma_index_of_char(t, '\n', n as int);
        assert(t[n - 1] == p[p.len() - 1]);
        assert(t.take(n as int) =~= line);
        assert(first_line(t) == Some(line));
        assert(line.subrange(0, 7) =~= pre);
        assert(line.skip(7) =~= p);
        assert(!has_prefix(p, pre)) by {
            if has_prefix(p, pre) {
                assert(p.subrange(0, 7)[0] == p[0]);
            }
        }
        assert(strip_all(p, pre) == p);
        assert(strip_all(line, pre) == p);
        crate::like::lemma_encode_avoids(p, '%');
        let e = encode_utf8(p);
        assert forall|k: int| 0 <= k < e.len() implies #[trigger] e[k] != 0x25 by {}
        law_pct_decode(e, 0, 0);
        vstd::utf8::encode_utf8_valid_utf8(p);
        vstd::utf8::encode_utf8_decode_utf8(p);
    }
}

} // verus!
