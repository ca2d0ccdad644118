//! SQL `LIKE` matching as SQLite performs it by default: `%` matches any run
//! of characters, `_` matches one character, and ASCII letters match
//! regardless of case. Text is read as SQLite reads it: byte by byte as
//! UTF-8, without validation, up to the first NUL byte.

use vstd::prelude::*;
use vstd::utf8::{
    char_is_scalar, encode_scalar, encode_utf8, has_width_1_encoding, has_width_2_encoding,
    has_width_3_encoding, last_continuation_byte, leading_byte_width_1, leading_byte_width_2,
    leading_byte_width_3, leading_byte_width_4, second_last_continuation_byte,
    third_last_continuation_byte,
};

verus! {

/// Code of `c` with ASCII upper-case letters folded to lower case.
pub open spec fn fold_code(c: u32) -> u32 {
    if 0x41 <= c <= 0x5A {
        (c + 0x20) as u32
    } else {
        c
    }
}

/// Code of `%`.
pub const MATCH_ALL: u32 = 0x25;

/// Code of `_`.
pub const MATCH_ONE: u32 = 0x5F;

/// A literal pattern character matches a text character.
pub open spec fn char_matches(p: u32, t: u32) -> bool {
    p == MATCH_ONE || fold_code(p) == fold_code(t)
}

/// Text `t` matches pattern `p`.
pub open spec fn like(p: Seq<u32>, t: Seq<u32>) -> bool
    decreases p.len() + t.len(),
{
    if p.len() == 0 {
        t.len() == 0
    } else if p.last() == MATCH_ALL {
        like(p.drop_last(), t) || (t.len() > 0 && like(p, t.drop_last()))
    } else {
        t.len() > 0 && char_matches(p.last(), t.last()) && like(p.drop_last(), t.drop_last())
    }
}

fn char_matches_exec(p: u32, t: u32) -> (r: bool)
    ensures
        r == char_matches(p, t),
{
    if p == MATCH_ONE {
        return true;
    }
    let up = p;
    let ut = t;
    let lp = if 0x41 <= up && up <= 0x5A {
        up + 0x20
    } else {
        up
    };
    let lt = if 0x41 <= ut && ut <= 0x5A {
        ut + 0x20
    } else {
        ut
    };
    lp == lt
}

/// Whether text `t` matches pattern `p`.
pub fn like_match(p: &[u32], t: &[u32]) -> (r: bool)
    ensures
        r == like(p@, t@),
{
    let m = p.len();
    let n = t.len();
    let mut prev: Vec<bool> = Vec::new();
    prev.push(true);
    assert(p@.take(0) =~= Seq::<u32>::empty());
    assert(t@.take(0) =~= Seq::<u32>::empty());
    let mut j: usize = 0;
    while j < m
        invariant
            m == p@.len(),
            j <= m,
            prev@.len() == j + 1,
            forall|k: int| 0 <= k <= j ==> #[trigger] prev@[k] == like(p@.take(k), t@.take(0)),
        decreases m - j,
    {
        let v = prev[j] && p[j] == MATCH_ALL;
        assert(p@.take(j + 1).drop_last() =~= p@.take(j as int));
        assert(p@.take(j + 1).last() == p@[j as int]);
        prev.push(v);
        j += 1;
    }
    let mut i: usize = 0;
    while i < n
        invariant
            m == p@.len(),
            n == t@.len(),
            i <= n,
            prev@.len() == m + 1,
            forall|k: int| 0 <= k <= m ==> #[trigger] prev@[k] == like(p@.take(k), t@.take(i as int)),
        decreases n - i,
    {
        let mut cur: Vec<bool> = Vec::new();
        assert(p@.take(0) =~= Seq::<u32>::empty());
        cur.push(false);
        let mut j: usize = 0;
        while j < m
            invariant
                m == p@.len(),
                n == t@.len(),
                i < n,
                j <= m,
                prev@.len() == m + 1,
                cur@.len() == j + 1,
                forall|k: int| 0 <= k <= m ==> #[trigger] prev@[k] == like(p@.take(k), t@.take(i as int)),
                forall|k: int| 0 <= k <= j ==> #[trigger] cur@[k] == like(p@.take(k), t@.take(i + 1)),
            decreases m - j,
        {
            let pc = p[j];
            let v = if pc == MATCH_ALL {
                cur[j] || prev[j + 1]
            } else {
                char_matches_exec(pc, t[i]) && prev[j]
            };
            proof {
                let pj = p@.take(j + 1);
                let ti = t@.take(i + 1);
                assert(pj.drop_last() =~= p@.take(j as int));
                assert(pj.last() == p@[j as int]);
                assert(ti.drop_last() =~= t@.take(i as int));
                assert(ti.last() == t@[i as int]);
            }
            cur.push(v);
            j += 1;
        }
        prev = cur;
        i += 1;
    }
    assert(p@.take(m as int) =~= p@);
    assert(t@.take(n as int) =~= t@);
    prev[m]
}

/// SQLite's default limit on the length, in bytes, of a `LIKE` pattern; a
/// longer pattern is refused with an error.
pub const LIKE_PATTERN_LIMIT: usize = 50000;

/// Byte `x` continues a multi-byte UTF-8 sequence.
pub open spec fn is_cont(x: u8) -> bool {
    0x80 <= x < 0xC0
}

/// Index just past the run of continuation bytes of `b` that starts at `i`.
pub open spec fn cont_end(b: Seq<u8>, i: int) -> int
    decreases b.len() - i,
{
    if 0 <= i < b.len() && is_cont(b[i]) {
        cont_end(b, i + 1)
    } else {
        i
    }
}

/// A run of continuation bytes stays within the bytes and ends at a byte
/// that does not continue.
pub proof fn lemma_cont_end(b: Seq<u8>, i: int)
    requires
        0 <= i,
    ensures
        i <= cont_end(b, i),
        i <= b.len() ==> cont_end(b, i) <= b.len(),
        forall|k: int| i <= k < cont_end(b, i) ==> is_cont(#[trigger] b[k]),
        cont_end(b, i) < b.len() ==> !is_cont(b[cont_end(b, i)]),
    decreases b.len() - i,
{
    if 0 <= i < b.len() && is_cont(b[i]) {
        lemma_cont_end(b, i + 1);
    }
}

/// Value bits that the lead byte `x` (at least 0xC0) of a multi-byte
/// sequence contributes.
pub open spec fn lead_bits(x: u8) -> u32 {
    if x < 0xE0 {
        (x - 0xC0) as u32
    } else if x < 0xF0 {
        (x - 0xE0) as u32
    } else if x < 0xF8 {
        (x - 0xF0) as u32
    } else if x < 0xFC {
        (x - 0xF8) as u32
    } else if x < 0xFE {
        (x - 0xFC) as u32
    } else {
        0
    }
}

/// `c` with the continuation byte `x` shifted in, in 32-bit unsigned
/// arithmetic: `(c << 6) + (x & 0x3f)`.
pub open spec fn shift_in(c: u32, x: u8) -> u32 {
    ((c % 0x400_0000) * 64 + (x % 64)) as u32
}

/// `c` with the continuation bytes `b[i..j]` shifted in, one after another.
pub open spec fn cont_value(c: u32, b: Seq<u8>, i: int, j: int) -> u32
    decreases j - i,
{
    if 0 <= i < j && i < b.len() {
        cont_value(shift_in(c, b[i]), b, i + 1, j)
    } else {
        c
    }
}

/// A multi-byte sequence that encodes an ASCII value or a UTF-16 surrogate
/// reads as U+FFFD; any other value reads as itself.
pub open spec fn multi_code(c: u32) -> u32 {
    if c < 0x80 || (0xD800 <= c && c <= 0xDFFF) {
        0xFFFD
    } else {
        c
    }
}

/// Character codes of `b` from index `i` on, read as SQLite reads UTF-8: a
/// byte below 0xC0 is one character of its own value, and a byte from 0xC0
/// up takes all the continuation bytes that follow it.
pub open spec fn codes_from(b: Seq<u8>, i: int) -> Seq<u32>
    decreases b.len() - i,
{
    if i < 0 || i >= b.len() {
        Seq::empty()
    } else if b[i] < 0xC0 {
        seq![b[i] as u32] + codes_from(b, i + 1)
    } else {
        proof {
            lemma_cont_end(b, i + 1);
        }
        seq![multi_code(cont_value(lead_bits(b[i]), b, i + 1, cont_end(b, i + 1)))] + codes_from(
            b,
            cont_end(b, i + 1),
        )
    }
}

/// Index of the first NUL byte of `b` at or after `i`, or the length of `b`.
pub open spec fn nul_from(b: Seq<u8>, i: int) -> int
    decreases b.len() - i,
{
    if i < 0 || i >= b.len() || b[i] == 0 {
        i
    } else {
        nul_from(b, i + 1)
    }
}

/// The characters SQLite's `LIKE` sees in a text of bytes `b`: the bytes up
/// to the first NUL, read as above.
pub open spec fn sql_text(b: Seq<u8>) -> Seq<u32> {
    codes_from(b.take(nul_from(b, 0)), 0)
}

/// The characters `LIKE` sees in a Rust string, stored as its UTF-8 bytes.
pub open spec fn str_text(s: Seq<char>) -> Seq<u32> {
    sql_text(encode_utf8(s))
}

fn lead_bits_exec(x: u8) -> (r: u32)
    requires
        x >= 0xC0,
    ensures
        r == lead_bits(x),
{
    if x < 0xE0 {
        (x - 0xC0) as u32
    } else if x < 0xF0 {
        (x - 0xE0) as u32
    } else if x < 0xF8 {
        (x - 0xF0) as u32
    } else if x < 0xFC {
        (x - 0xF8) as u32
    } else if x < 0xFE {
        (x - 0xFC) as u32
    } else {
        0
    }
}

proof fn lemma_nul_from(b: Seq<u8>, i: int)
    requires
        0 <= i <= b.len(),
    ensures
        i <= nul_from(b, i) <= b.len(),
        forall|k: int| i <= k < nul_from(b, i) ==> #[trigger] b[k] != 0,
    decreases b.len() - i,
{
    if i < b.len() && b[i] != 0 {
        lemma_nul_from(b, i + 1);
    }
}

/// The characters `LIKE` sees in the text of bytes `b`.
pub fn sql_text_codes(b: &[u8]) -> (r: Vec<u32>)
    ensures
        r@ == sql_text(b@),
{
    let mut n: usize = 0;
    while n < b.len() && b[n] != 0
        invariant
            n <= b@.len(),
            nul_from(b@, 0) == nul_from(b@, n as int),
        decreases b@.len() - n,
    {
        n += 1;
    }
    let t = &b[0..n];
    assert(t@ =~= b@.take(nul_from(b@, 0)));
    let mut out: Vec<u32> = Vec::new();
    let mut i: usize = 0;
    while i < t.len()
        invariant
            i <= t@.len(),
            out@ + codes_from(t@, i as int) == codes_from(t@, 0),
        decreases t@.len() - i,
    {
        let x = t[i];
        if x < 0xC0 {
            assert(out@.push(x as u32) + codes_from(t@, i + 1) =~= out@ + codes_from(t@, i as int));
            out.push(x as u32);
            i += 1;
        } else {
            let ghost e = cont_end(t@, i + 1);
            proof {
                lemma_cont_end(t@, i + 1);
            }
            let mut c: u32 = lead_bits_exec(x);
            let mut j: usize = i + 1;
            while j < t.len() && 0x80 <= t[j] && t[j] < 0xC0
                invariant
                    i < t@.len(),
                    i + 1 <= j <= e <= t@.len(),
                    e == cont_end(t@, i + 1),
                    cont_end(t@, j as int) == e,
                    cont_value(lead_bits(x), t@, i + 1, e) == cont_value(c, t@, j as int, e),
                decreases t@.len() - j,
            {
                proof {
                    lemma_cont_end(t@, j + 1);
                }
                let ghost c0 = c;
                c = (c % 0x400_0000) * 64 + (t[j] % 64) as u32;
                assert(c == shift_in(c0, t@[j as int]));
                assert(cont_value(c0, t@, j as int, e) == cont_value(c, t@, j + 1, e));
                j += 1;
            }
            assert(cont_end(t@, j as int) == j);
            let v = if c < 0x80 || (0xD800 <= c && c <= 0xDFFF) {
                0xFFFD
            } else {
                c
            };
            assert(out@.push(v) + codes_from(t@, j as int) =~= out@ + codes_from(t@, i as int));
            out.push(v);
            i = j;
        }
    }
    assert(codes_from(t@, i as int) =~= Seq::<u32>::empty());
    assert(out@ =~= codes_from(t@, 0));
    out
}

proof fn lemma_cont_end_shift(x: Seq<u8>, y: Seq<u8>, j: int)
    requires
        0 <= j,
    ensures
        cont_end(x + y, x.len() + j) == x.len() + cont_end(y, j),
    decreases y.len() - j,
{
    if j < y.len() && is_cont(y[j]) {
        assert((x + y)[x.len() + j] == y[j]);
        lemma_cont_end_shift(x, y, j + 1);
    }
}

proof fn lemma_cont_value_shift(c: u32, x: Seq<u8>, y: Seq<u8>, i: int, j: int)
    requires
        0 <= i,
    ensures
        cont_value(c, x + y, x.len() + i, x.len() + j) == cont_value(c, y, i, j),
    decreases j - i,
{
    if i < j && i < y.len() {
        assert((x + y)[x.len() + i] == y[i]);
        lemma_cont_value_shift(shift_in(c, y[i]), x, y, i + 1, j);
    }
}

proof fn lemma_codes_shift(x: Seq<u8>, y: Seq<u8>, j: int)
    requires
        0 <= j,
    ensures
        codes_from(x + y, x.len() + j) == codes_from(y, j),
    decreases y.len() - j,
{
    if j < y.len() {
        assert((x + y)[x.len() + j] == y[j]);
        if y[j] >= 0xC0 {
            lemma_cont_end_shift(x, y, j + 1);
            lemma_cont_end(y, j + 1);
            lemma_cont_value_shift(lead_bits(y[j]), x, y, j + 1, cont_end(y, j + 1));
            lemma_codes_shift(x, y, cont_end(y, j + 1));
        } else {
            lemma_codes_shift(x, y, j + 1);
        }
    }
}

/// `y` is empty or does not start with a continuation byte.
pub open spec fn starts_clean(y: Seq<u8>) -> bool {
    y.len() == 0 || !is_cont(y[0])
}

proof fn lemma_cont_end_prefix(x: Seq<u8>, y: Seq<u8>, i: int)
    requires
        0 <= i <= x.len(),
        starts_clean(y),
    ensures
        cont_end(x + y, i) == cont_end(x, i),
    decreases x.len() - i,
{
    if i < x.len() {
        assert((x + y)[i] == x[i]);
        if is_cont(x[i]) {
            lemma_cont_end_prefix(x, y, i + 1);
        }
    } else if y.len() > 0 {
        assert((x + y)[i] == y[0]);
    }
}

proof fn lemma_cont_value_prefix(c: u32, x: Seq<u8>, y: Seq<u8>, i: int, j: int)
    requires
        0 <= i,
        j <= x.len(),
    ensures
        cont_value(c, x + y, i, j) == cont_value(c, x, i, j),
    decreases j - i,
{
    if i < j {
        assert((x + y)[i] == x[i]);
        lemma_cont_value_prefix(shift_in(c, x[i]), x, y, i + 1, j);
    }
}

/// Reading `x + y` gives the characters of `x`, then those of `y`, when `y`
/// does not start in the middle of a character.
pub proof fn lemma_codes_concat(x: Seq<u8>, y: Seq<u8>, i: int)
    requires
        0 <= i <= x.len(),
        starts_clean(y),
    ensures
        codes_from(x + y, i) == codes_from(x, i) + codes_from(y, 0),
    decreases x.len() - i,
{
    if i == x.len() {
        lemma_codes_shift(x, y, 0);
        assert(codes_from(x, i) =~= Seq::<u32>::empty());
        assert(codes_from(x + y, i) =~= codes_from(x, i) + codes_from(y, 0));
    } else {
        assert((x + y)[i] == x[i]);
        if x[i] < 0xC0 {
            lemma_codes_concat(x, y, i + 1);
            assert(codes_from(x + y, i) =~= codes_from(x, i) + codes_from(y, 0));
        } else {
            lemma_cont_end(x, i + 1);
            lemma_cont_end_prefix(x, y, i + 1);
            let e = cont_end(x, i + 1);
            lemma_cont_value_prefix(lead_bits(x[i]), x, y, i + 1, e);
            lemma_codes_concat(x, y, e);
            assert(codes_from(x + y, i) =~= codes_from(x, i) + codes_from(y, 0));
        }
    }
}

/// The character codes of `s`.
pub open spec fn char_codes(s: Seq<char>) -> Seq<u32> {
    s.map_values(|c: char| c as u32)
}

proof fn lemma_width_2(v: u32)
    by (bit_vector)
    requires
        0x80 <= v <= 0x7FF,
    ensures
        0xC0 <= leading_byte_width_2(v) < 0xE0,
        0x80 <= last_continuation_byte(v) < 0xC0,
        shift_in((leading_byte_width_2(v) - 0xC0) as u32, last_continuation_byte(v)) == v,
{
}

proof fn lemma_width_3(v: u32)
    by (bit_vector)
    requires
        0x800 <= v <= 0xFFFF,
    ensures
        0xE0 <= leading_byte_width_3(v) < 0xF0,
        0x80 <= second_last_continuation_byte(v) < 0xC0,
        0x80 <= last_continuation_byte(v) < 0xC0,
        shift_in(
            shift_in((leading_byte_width_3(v) - 0xE0) as u32, second_last_continuation_byte(v)),
            last_continuation_byte(v),
        ) == v,
{
}

proof fn lemma_width_4(v: u32)
    by (bit_vector)
    requires
        0x10000 <= v <= 0x10FFFF,
    ensures
        0xF0 <= leading_byte_width_4(v) < 0xF8,
        0x80 <= third_last_continuation_byte(v) < 0xC0,
        0x80 <= second_last_continuation_byte(v) < 0xC0,
        0x80 <= last_continuation_byte(v) < 0xC0,
        shift_in(
            shift_in(
                shift_in((leading_byte_width_4(v) - 0xF0) as u32, third_last_continuation_byte(v)),
                second_last_continuation_byte(v),
            ),
            last_continuation_byte(v),
        ) == v,
{
}

/// The encoding of one character reads back as that character, and does
/// not start with a continuation byte.
proof fn lemma_scalar_codes(c: char)
    ensures
        codes_from(encode_scalar(c as u32), 0) == seq![c as u32],
        starts_clean(encode_scalar(c as u32)),
        encode_scalar(c as u32).len() > 0,
        c != '\0' ==> forall|k: int| 0 <= k < encode_scalar(c as u32).len() ==> #[trigger] encode_scalar(c as u32)[k] != 0,
{
    char_is_scalar(c);
    let v = c as u32;
    let b = encode_scalar(v);
    if has_width_1_encoding(v) {
        assert(leading_byte_width_1(v) == v) by (bit_vector)
            requires
                v <= 0x7F,
        ;
        assert(codes_from(b, 1) =~= Seq::<u32>::empty());
        assert(codes_from(b, 0) =~= seq![v]);
    } else if has_width_2_encoding(v) {
        lemma_width_2(v);
        assert(cont_end(b, 2) == 2);
        assert(cont_end(b, 1) == 2);
        let c1 = shift_in(lead_bits(b[0]), b[1]);
        assert(lead_bits(b[0]) == (leading_byte_width_2(v) - 0xC0) as u32);
        assert(cont_value(c1, b, 2, 2) == c1);
        assert(cont_value(lead_bits(b[0]), b, 1, 2) == cont_value(c1, b, 2, 2));
        assert(cont_value(lead_bits(b[0]), b, 1, 2) == v);
        assert(codes_from(b, 2) =~= Seq::<u32>::empty());
        assert(codes_from(b, 0) =~= seq![v]);
    } else if has_width_3_encoding(v) {
        lemma_width_3(v);
        assert(cont_end(b, 3) == 3);
        assert(cont_end(b, 2) == 3);
        assert(cont_end(b, 1) == 3);
        let c1 = shift_in(lead_bits(b[0]), b[1]);
        assert(cont_value(lead_bits(b[0]), b, 1, 3) == cont_value(c1, b, 2, 3));
        assert(cont_value(c1, b, 2, 3) == cont_value(shift_in(c1, b[2]), b, 3, 3));
        assert(lead_bits(b[0]) == (leading_byte_width_3(v) - 0xE0) as u32);
        assert(cont_value(lead_bits(b[0]), b, 1, 3) == v);
        assert(codes_from(b, 3) =~= Seq::<u32>::empty());
        assert(codes_from(b, 0) =~= seq![v]);
    } else {
        lemma_width_4(v);
        assert(cont_end(b, 4) == 4);
        assert(cont_end(b, 3) == 4);
        assert(cont_end(b, 2) == 4);
        assert(cont_end(b, 1) == 4);
        let c1 = shift_in(lead_bits(b[0]), b[1]);
        let c2 = shift_in(c1, b[2]);
        assert(cont_value(lead_bits(b[0]), b, 1, 4) == cont_value(c1, b, 2, 4));
        let c3 = shift_in(c2, b[3]);
        assert(cont_value(c1, b, 2, 4) == cont_value(c2, b, 3, 4));
        assert(cont_value(c2, b, 3, 4) == cont_value(c3, b, 4, 4));
        assert(cont_value(c3, b, 4, 4) == c3);
        assert(lead_bits(b[0]) == (leading_byte_width_4(v) - 0xF0) as u32);
        assert(cont_value(lead_bits(b[0]), b, 1, 4) == v);
        assert(codes_from(b, 4) =~= Seq::<u32>::empty());
        assert(codes_from(b, 0) =~= seq![v]);
    }
}

/// UTF-8 text made from characters reads back as those characters.
pub proof fn lemma_codes_encode(s: Seq<char>)
    ensures
        codes_from(encode_utf8(s), 0) == char_codes(s),
        starts_clean(encode_utf8(s)),
        (forall|k: int| 0 <= k < s.len() ==> #[trigger] s[k] != '\0') ==> forall|k: int|
            0 <= k < encode_utf8(s).len() ==> #[trigger] encode_utf8(s)[k] != 0,
    decreases s.len(),
{
    if s.len() == 0 {
        assert(codes_from(encode_utf8(s), 0) =~= char_codes(s));
    } else {
        let x = encode_scalar(s[0] as u32);
        let rest = s.drop_first();
        let y = encode_utf8(rest);
        lemma_scalar_codes(s[0]);
        lemma_codes_encode(rest);
        lemma_codes_concat(x, y, 0);
        assert(encode_utf8(s) == x + y);
        assert(char_codes(s) =~= seq![s[0] as u32] + char_codes(rest));
        if forall|k: int| 0 <= k < s.len() ==> #[trigger] s[k] != '\0' {
            assert forall|k: int| 0 <= k < rest.len() implies #[trigger] rest[k] != '\0' by {
                assert(rest[k] == s[k + 1]);
            }
            assert forall|k: int| 0 <= k < (x + y).len() implies #[trigger] (x + y)[k] != 0 by {
                if k >= x.len() {
                    assert((x + y)[k] == y[k - x.len()]);
                }
            }
        }
        if x.len() > 0 {
            assert((x + y)[0] == x[0]);
        }
    }
}

/// Bytes without NUL are read whole.
pub proof fn lemma_no_nul(b: Seq<u8>)
    requires
        forall|k: int| 0 <= k < b.len() ==> #[trigger] b[k] != 0,
    ensures
        sql_text(b) == codes_from(b, 0),
{
    assert forall|i: int| 0 <= i <= b.len() implies nul_from(b, i) == b.len() by {
        lemma_nul_from_end(b, i);
    }
    assert(b.take(b.len() as int) =~= b);
}

proof fn lemma_nul_from_end(b: Seq<u8>, i: int)
    requires
        0 <= i <= b.len(),
        forall|k: int| 0 <= k < b.len() ==> #[trigger] b[k] != 0,
    ensures
        nul_from(b, i) == b.len(),
    decreases b.len() - i,
{
    if i < b.len() {
        lemma_nul_from_end(b, i + 1);
    }
}

/// A string without NUL characters is seen by `LIKE` as its characters.
pub proof fn lemma_str_text(s: Seq<char>)
    requires
        forall|k: int| 0 <= k < s.len() ==> #[trigger] s[k] != '\0',
    ensures
        str_text(s) == char_codes(s),
{
    lemma_codes_encode(s);
    lemma_no_nul(encode_utf8(s));
}

/// The UTF-8 encoding of a character below 0x80 is that one byte; that of
/// any other character consists of bytes from 0x80 up.
pub proof fn lemma_scalar_bytes(c: char)
    ensures
        (c as u32) < 0x80 ==> encode_scalar(c as u32) == seq![(c as u32) as u8],
        (c as u32) >= 0x80 ==> forall|k: int| 0 <= k < encode_scalar(c as u32).len() ==> #[trigger] encode_scalar(c as u32)[k] >= 0x80,
{
    char_is_scalar(c);
    let v = c as u32;
    if has_width_1_encoding(v) {
        assert(leading_byte_width_1(v) == v as u8) by (bit_vector)
            requires
                v <= 0x7F,
        ;
    } else if has_width_2_encoding(v) {
        lemma_width_2(v);
    } else if has_width_3_encoding(v) {
        lemma_width_3(v);
    } else {
        lemma_width_4(v);
    }
}

/// Characters other than `b` (an ASCII character) never encode to the byte
/// of `b`.
pub proof fn lemma_encode_avoids(s: Seq<char>, b: char)
    requires
        (b as u32) < 0x80,
        forall|k: int| 0 <= k < s.len() ==> #[trigger] s[k] != b,
    ensures
        forall|k: int| 0 <= k < encode_utf8(s).len() ==> #[trigger] encode_utf8(s)[k] != (b as u32) as u8,
    decreases s.len(),
{
    if s.len() > 0 {
        let rest = s.drop_first();
        assert forall|k: int| 0 <= k < rest.len() implies #[trigger] rest[k] != b by {
            assert(rest[k] == s[k + 1]);
        }
        lemma_encode_avoids(rest, b);
        lemma_scalar_bytes(s[0]);
        let x = encode_scalar(s[0] as u32);
        let y = encode_utf8(rest);
        assert(encode_utf8(s) == x + y);
        assert forall|k: int| 0 <= k < (x + y).len() implies #[trigger] (x + y)[k] != (b as u32) as u8 by {
            if k < x.len() {
                if (s[0] as u32) < 0x80 {
                    vstd::utf8::char_u32_cast(s[0], s[0] as u32);
                    vstd::utf8::char_u32_cast(b, b as u32);
                }
            } else {
                assert((x + y)[k] == y[k - x.len()]);
            }
        }
    }
}

/// `a` and `b` are equal up to ASCII case.
pub open spec fn same_ignoring_case(a: Seq<u32>, b: Seq<u32>) -> bool {
    a.len() == b.len() && forall|k: int| 0 <= k < a.len() ==> fold_code(#[trigger] a[k]) == fold_code(b[k])
}

/// `q` holds no wildcard.
pub open spec fn no_wildcards(q: Seq<u32>) -> bool {
    forall|k: int| 0 <= k < q.len() ==> #[trigger] q[k] != MATCH_ALL && q[k] != MATCH_ONE
}

proof fn lemma_percent_any(t: Seq<u32>)
    ensures
        like(seq![MATCH_ALL], t),
    decreases t.len(),
{
    let p = seq![MATCH_ALL];
    assert(p.drop_last() =~= Seq::<u32>::empty());
    assert(p.len() == 1 && p.last() == MATCH_ALL);
    if t.len() > 0 {
        lemma_percent_any(t.drop_last());
        assert(like(p, t.drop_last()));
    } else {
        assert(like(p.drop_last(), t));
    }
}

/// A pattern `%q` with a wildcard-free `q` matches exactly the texts that
/// end with `q`, up to ASCII case.
proof fn lemma_suffix(q: Seq<u32>, t: Seq<u32>)
    requires
        no_wildcards(q),
    ensures
        like(seq![MATCH_ALL] + q, t) == (t.len() >= q.len() && same_ignoring_case(
            t.skip(t.len() - q.len()),
            q,
        )),
    decreases q.len(),
{
    if q.len() == 0 {
        assert(seq![MATCH_ALL] + q =~= seq![MATCH_ALL]);
        lemma_percent_any(t);
        assert(t.skip(t.len() - q.len()) =~= Seq::<u32>::empty());
    } else {
        let p = seq![MATCH_ALL] + q;
        let q0 = q.drop_last();
        assert(p.drop_last() =~= seq![MATCH_ALL] + q0);
        assert(p.last() == q.last());
        assert(q.last() == q[q.len() - 1]);
        assert(no_wildcards(q0)) by {
            assert forall|k: int| 0 <= k < q0.len() implies #[trigger] q0[k] != MATCH_ALL && q0[k] != MATCH_ONE by {
                assert(q0[k] == q[k]);
            }
        }
        if t.len() == 0 {
        } else {
            lemma_suffix(q0, t.drop_last());
            let a = t.skip(t.len() - q.len());
            let a0 = t.drop_last().skip(t.drop_last().len() - q0.len());
            if t.len() >= q.len() {
                assert(a.drop_last() =~= a0);
                assert(a.last() == t.last());
                if same_ignoring_case(a, q) {
                    assert(fold_code(a[a.len() - 1]) == fold_code(q[q.len() - 1]));
                    assert forall|k: int| 0 <= k < a0.len() implies fold_code(#[trigger] a0[k]) == fold_code(q0[k]) by {
                        assert(a0[k] == a[k]);
                        assert(q0[k] == q[k]);
                    }
                }
                if fold_code(q.last()) == fold_code(t.last()) && same_ignoring_case(a0, q0) {
                    assert forall|k: int| 0 <= k < a.len() implies fold_code(#[trigger] a[k]) == fold_code(q[k]) by {
                        if k < a.len() - 1 {
                            assert(a0[k] == a[k]);
                            assert(q0[k] == q[k]);
                        }
                    }
                }
            }
        }
    }
}

/// A pattern `p%` matches a text exactly when `p` matches one of its prefixes.
proof fn lemma_trailing_percent(p: Seq<u32>, t: Seq<u32>)
    ensures
        like(p.push(MATCH_ALL), t) == exists|j: int| 0 <= j <= t.len() && like(p, #[trigger] t.take(j)),
    decreases t.len(),
{
    let pp = p.push(MATCH_ALL);
    assert(pp.drop_last() =~= p);
    assert(pp.last() == MATCH_ALL);
    assert(t.take(t.len() as int) =~= t);
    if t.len() == 0 {
        if exists|j: int| 0 <= j <= t.len() && like(p, #[trigger] t.take(j)) {
            let j = choose|j: int| 0 <= j <= t.len() && like(p, #[trigger] t.take(j));
            assert(t.take(j) =~= t);
        }
    } else {
        lemma_trailing_percent(p, t.drop_last());
        let td = t.drop_last();
        if exists|j: int| 0 <= j <= td.len() && like(p, #[trigger] td.take(j)) {
            let j = choose|j: int| 0 <= j <= td.len() && like(p, #[trigger] td.take(j));
            assert(td.take(j) =~= t.take(j));
        }
        if exists|j: int| 0 <= j <= t.len() && like(p, #[trigger] t.take(j)) {
            let j = choose|j: int| 0 <= j <= t.len() && like(p, #[trigger] t.take(j));
            if j < t.len() {
                assert(td.take(j) =~= t.take(j));
            }
        }
    }
}

/// The pattern `%q%` with a wildcard-free `q` matches exactly the texts that
/// contain `q`, ignoring ASCII case: a keyword search finds the keyword
/// anywhere in the text.
pub proof fn law_keyword_search(q: Seq<u32>, t: Seq<u32>)
    requires
        no_wildcards(q),
    ensures
        like(seq![MATCH_ALL] + q + seq![MATCH_ALL], t) == exists|i: int|
            0 <= i && i + q.len() <= t.len() && same_ignoring_case(#[trigger] t.subrange(i, i + q.len()), q),
{
    let p = seq![MATCH_ALL] + q;
    assert(seq![MATCH_ALL] + q + seq![MATCH_ALL] =~= p.push(MATCH_ALL));
    lemma_trailing_percent(p, t);
    if like(p.push(MATCH_ALL), t) {
        let j = choose|j: int| 0 <= j <= t.len() && like(p, #[trigger] t.take(j));
        lemma_suffix(q, t.take(j));
        let i = j - q.len();
        assert(t.take(j).skip(j - q.len()) =~= t.subrange(i, i + q.len()));
    }
    if exists|i: int| 0 <= i && i + q.len() <= t.len() && same_ignoring_case(#[trigger] t.subrange(i, i + q.len()), q) {
        let i = choose|i: int| 0 <= i && i + q.len() <= t.len() && same_ignoring_case(#[trigger] t.subrange(i, i + q.len()), q);
        let j = i + q.len();
        lemma_suffix(q, t.take(j));
        assert(t.take(j).skip(j - q.len()) =~= t.subrange(i, i + q.len()));
        assert(like(p, t.take(j)));
    }
}

} // verus!
