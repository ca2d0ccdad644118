//! Text shown for an entry in a listing.

use vstd::prelude::*;
use crate::commands::shows_as_text;
use crate::commands::{copy_target_spec, CopyTarget};
use crate::constants::{
    LIST_HEADER_CONTENT, LIST_HEADER_ID, LIST_HEADER_SIZE, LIST_HEADER_WHEN, LOG_INFO,
    MAX_HISTORY, PREVIEW_WIDTH, TABLE_LINE_CHAR, TABLE_SEP, TABLE_WIDTH, WIDTH_ID, WIDTH_SIZE,
    WIDTH_WHEN,
};
use crate::history::{meta_view, meta_views, opt_string_view};
use crate::mime::string_views;
use crate::text::{
    chars_of, find_char, has_infix, has_prefix, index_of_char, push_char_to, str_starts_with,
    string_of,
};

verus! {

pub open spec fn digit_char(d: nat) -> char {
    ((d + 0x30) as u32) as char
}

/// Decimal digits of `n`, most significant first.
pub open spec fn nat_digits(n: nat) -> Seq<char>
    decreases n,
{
    if n < 10 {
        seq![digit_char(n)]
    } else {
        nat_digits(n / 10).push(digit_char(n % 10))
    }
}

/// The decimal digits of `n` are one or more ASCII digits that spell `n`.
pub proof fn lemma_nat_digits(n: nat)
    ensures
        nat_digits(n).len() >= 1,
        crate::text::all_digits(nat_digits(n)),
        crate::text::digits_value(nat_digits(n)) == n,
    decreases n,
{
    let s = nat_digits(n);
    if n < 10 {
        assert(s.drop_last() =~= Seq::<char>::empty());
        assert(s.last() == digit_char(n));
        assert(crate::text::digit_value(digit_char(n)) == n);
        assert(crate::text::digits_value(Seq::<char>::empty()) == 0);
        assert(crate::text::digits_value(s) == crate::text::digits_value(s.drop_last()) * 10
            + crate::text::digit_value(s.last()));
    } else {
        lemma_nat_digits(n / 10);
        let p = nat_digits(n / 10);
        assert(s.drop_last() =~= p);
        assert(s.last() == digit_char(n % 10));
        assert forall|i: int| 0 <= i < s.len() implies crate::text::is_digit(#[trigger] s[i]) by {
            if i < p.len() {
                assert(s[i] == p[i]);
            }
        }
        assert(crate::text::digit_value(digit_char(n % 10)) == n % 10);
        assert((n / 10) * 10 + n % 10 == n);
        assert(crate::text::digits_value(s) == crate::text::digits_value(s.drop_last()) * 10
            + crate::text::digit_value(s.last()));
    }
}

/// `n` in decimal, as `{}` writes an integer.
pub open spec fn decimal(n: int) -> Seq<char> {
    if n < 0 {
        seq!['-'] + nat_digits((-n) as nat)
    } else {
        nat_digits(n as nat)
    }
}

fn push_digits(m: u64, out: &mut String)
    ensures
        final(out)@ == old(out)@ + nat_digits(m as nat),
    decreases m,
{
    if m >= 10 {
        push_digits(m / 10, out);
    }
    let d = (m % 10) as u8;
    push_char_to(out, (d + 0x30) as char);
    assert(nat_digits(m as nat) == if m < 10 {
        seq![digit_char(m as nat)]
    } else {
        nat_digits((m / 10) as nat).push(digit_char((m % 10) as nat))
    });
}

/// `n` written in decimal.
pub fn to_decimal(n: i64) -> (r: String)
    ensures
        r@ == decimal(n as int),
{
    let mut r = String::new();
    if n < 0 {
        push_char_to(&mut r, '-');
        let m: u64 = if n == i64::MIN {
            0x8000_0000_0000_0000
        } else {
            (-n) as u64
        };
        push_digits(m, &mut r);
    } else {
        push_digits(n as u64, &mut r);
    }
    assert(r@ =~= decimal(n as int));
    r
}

/// The second `/`-separated piece of a MIME type, as
/// `mime.split('/').nth(1).unwrap_or("")`: empty when there is no `/`.
pub open spec fn mime_subtype(m: Seq<char>) -> Seq<char> {
    let k = index_of_char(m, '/');
    if k < m.len() {
        let rest = m.skip(k as int + 1);
        rest.take(index_of_char(rest, '/') as int)
    } else {
        Seq::empty()
    }
}

/// What a listing shows for an entry: for images, `[subtype] - N bytes`;
/// for other entries, their preview, or nothing.
pub open spec fn listing_text(mime: Seq<char>, size: i64, preview: Option<Seq<char>>) -> Seq<char> {
    if has_prefix(mime, "image/"@) {
        seq!['['] + mime_subtype(mime) + "] - "@ + decimal(size as int) + " bytes"@
    } else {
        match preview {
            Some(p) => p,
            None => Seq::empty(),
        }
    }
}

pub open spec fn opt_view(o: Option<&String>) -> Option<Seq<char>> {
    match o {
        Some(s) => Some(s@),
        None => None,
    }
}

fn append(r: &mut String, s: &str)
    ensures
        final(r)@ == old(r)@ + s@,
{
    let c = chars_of(s);
    let mut i: usize = 0;
    let ghost start = r@;
    while i < c.len()
        invariant
            i <= c@.len(),
            c@ == s@,
            r@ == start + c@.take(i as int),
        decreases c@.len() - i,
    {
        push_char_to(r, c[i]);
        assert(start + c@.take(i + 1) =~= (start + c@.take(i as int)).push(c@[i as int]));
        i += 1;
    }
    assert(c@.take(i as int) =~= c@);
}

/// The text a listing shows for an entry.
pub fn listing_preview(mime: &str, size: i64, preview: Option<&String>) -> (r: String)
    ensures
        r@ == listing_text(mime@, size, opt_view(preview)),
{
    if str_starts_with(mime, "image/") {
        let m = chars_of(mime);
        let k = find_char(m.as_slice(), '/');
        let sub = if k < m.len() {
            let rest = &m[k + 1..m.len()];
            assert(rest@ =~= m@.skip(k + 1));
            let k2 = find_char(rest, '/');
            string_of(&rest[0..k2])
        } else {
            String::new()
        };
        assert(sub@ =~= mime_subtype(mime@));
        let mut r = String::new();
        push_char_to(&mut r, '[');
        append(&mut r, sub.as_str());
        append(&mut r, "] - ");
        let digits = to_decimal(size);
        append(&mut r, digits.as_str());
        append(&mut r, " bytes");
        assert(r@ =~= listing_text(mime@, size, opt_view(preview)));
        r
    } else {
        match preview {
            Some(p) => p.clone(),
            None => String::new(),
        }
    }
}

/// Label of an entry's kind: image, text, or other binary data.
pub open spec fn label_spec(mime: Seq<char>) -> Seq<char> {
    if has_prefix(mime, "image/"@) {
        "[IMG]"@
    } else if has_infix(mime, "text"@) || has_infix(mime, "UTF8"@) {
        "[TXT]"@
    } else {
        "[BIN]"@
    }
}

/// The label a listing shows for an entry of type `mime`.
pub fn get_label(mime: &str) -> (r: &'static str)
    ensures
        r@ == label_spec(mime@),
{
    if str_starts_with(mime, "image/") {
        "[IMG]"
    } else if shows_as_text(mime) {
        "[TXT]"
    } else {
        "[BIN]"
    }
}

/// Control characters (Unicode category Cc), which `char::is_control` tests.
pub open spec fn is_control(c: char) -> bool {
    (c as u32) <= 0x1F || 0x7F <= (c as u32) <= 0x9F
}

/// `s` on one line: control characters become spaces.
pub open spec fn one_line(s: Seq<char>) -> Seq<char> {
    s.map_values(|c: char| if is_control(c) { ' ' } else { c })
}

/// `s` fitted to `width` columns: on one line, and cut to `width - 3`
/// characters followed by `...` when longer than `width`.
pub open spec fn fitted(s: Seq<char>, width: nat) -> Seq<char> {
    if s.len() > width {
        one_line(s).take(width - 3) + "..."@
    } else {
        one_line(s)
    }
}

/// Fits a preview to `width` columns.
pub fn preview_content(s: &str, width: usize) -> (r: String)
    requires
        width >= 3,
    ensures
        r@ == fitted(s@, width as nat),
{
    let c = chars_of(s);
    let n = if c.len() > width {
        width - 3
    } else {
        c.len()
    };
    let ghost line = one_line(s@);
    let mut r = String::new();
    let mut i: usize = 0;
    while i < n
        invariant
            n <= c@.len(),
            c@ == s@,
            line == one_line(s@),
            i <= n,
            r@ == line.take(i as int),
        decreases n - i,
    {
        let ch = c[i];
        let u = ch as u32;
        let d = if u <= 0x1F || (0x7F <= u && u <= 0x9F) {
            ' '
        } else {
            ch
        };
        push_char_to(&mut r, d);
        assert(line.take(i + 1) =~= line.take(i as int).push(d));
        i += 1;
    }
    if c.len() > width {
        append(&mut r, "...");
    } else {
        assert(line.take(n as int) =~= line);
    }
    r
}

/// `n`, below 100, as two digits.
pub open spec fn two_digits(n: nat) -> Seq<char> {
    seq![digit_char(n / 10), digit_char(n % 10)]
}

/// Time of day, `HH:MM:SS` (UTC), of a timestamp in milliseconds.
pub open spec fn clock_spec(ts_ms: nat) -> Seq<char> {
    let secs = (ts_ms / 1000) % 86400;
    two_digits(secs / 3600) + ":"@ + two_digits((secs / 60) % 60) + ":"@ + two_digits(secs % 60)
}

fn push_two_digits(r: &mut String, n: u64)
    requires
        n < 100,
    ensures
        final(r)@ == old(r)@ + two_digits(n as nat),
{
    push_char_to(r, ((n / 10) as u8 + 0x30) as char);
    push_char_to(r, ((n % 10) as u8 + 0x30) as char);
    assert(final(r)@ =~= old(r)@ + two_digits(n as nat));
}

/// The time of day at which an entry was stored.
pub fn format_time(ts_ms: u64) -> (r: String)
    ensures
        r@ == clock_spec(ts_ms as nat),
{
    let secs = (ts_ms / 1000) % 86400;
    let mut r = String::new();
    push_two_digits(&mut r, secs / 3600);
    append(&mut r, ":");
    push_two_digits(&mut r, (secs / 60) % 60);
    append(&mut r, ":");
    push_two_digits(&mut r, secs % 60);
    assert(r@ =~= clock_spec(ts_ms as nat));
    r
}

/// `s` right-aligned in `w` columns, as `{:>w$}` writes it: spaces before
/// it when it is shorter than `w`.
pub open spec fn pad_left(s: Seq<char>, w: nat) -> Seq<char> {
    if s.len() < w {
        Seq::new((w - s.len()) as nat, |_k: int| ' ') + s
    } else {
        s
    }
}

fn push_padded(r: &mut String, s: &str, w: usize)
    ensures
        final(r)@ == old(r)@ + pad_left(s@, w as nat),
{
    let n = chars_of(s).len();
    let ghost start = r@;
    if n < w {
        let mut k: usize = 0;
        while k < w - n
            invariant
                n == s@.len(),
                n < w,
                k <= w - n,
                r@ == start + Seq::new(k as nat, |_k: int| ' '),
            decreases w - n - k,
        {
            push_char_to(r, ' ');
            assert(start + Seq::new((k + 1) as nat, |_k: int| ' ') =~= (start + Seq::new(
                k as nat,
                |_k: int| ' ',
            )).push(' '));
            k += 1;
        }
        append(r, s);
        assert(r@ =~= start + pad_left(s@, w as nat));
    } else {
        append(r, s);
    }
}

/// `s` written `n` times.
pub open spec fn repeated(s: Seq<char>, n: nat) -> Seq<char>
    decreases n,
{
    if n == 0 {
        Seq::empty()
    } else {
        repeated(s, (n - 1) as nat) + s
    }
}

/// The rule drawn above and below a listing's rows.
pub open spec fn rule_spec() -> Seq<char> {
    repeated(TABLE_LINE_CHAR@, TABLE_WIDTH as nat)
}

fn rule_line() -> (r: String)
    ensures
        r@ == rule_spec(),
{
    let mut r = String::new();
    let mut k: usize = 0;
    while k < TABLE_WIDTH
        invariant
            k <= TABLE_WIDTH,
            r@ == repeated(TABLE_LINE_CHAR@, k as nat),
        decreases TABLE_WIDTH - k,
    {
        append(&mut r, TABLE_LINE_CHAR);
        k += 1;
    }
    r
}

fn nat_string(n: u64) -> (r: String)
    ensures
        r@ == nat_digits(n as nat),
{
    let mut r = String::new();
    push_digits(n, &mut r);
    assert(r@ =~= nat_digits(n as nat));
    r
}

/// The display position `i` of a listed row, in brackets: the index that
/// `copy-to`, `show` and `delete` take.
pub open spec fn position_spec(i: nat) -> Seq<char> {
    seq!['['] + pad_left(nat_digits(i), (WIDTH_ID - 2) as nat) + seq![']']
}

/// Row `i` of a listing of entries with metadata `m`: in raw form, the
/// position as a bare number (so that the row's first field is what
/// `copy-to` takes), the kind label and the fitted preview; as a table, the
/// bracketed position, the time of day, the size in bytes, the label and the
/// preview.
pub open spec fn row_spec(i: nat, m: (i64, i64, Seq<char>, i64, Option<Seq<char>>), is_raw: bool) -> Seq<
    char,
> {
    let text = fitted(listing_text(m.2, m.3, m.4), PREVIEW_WIDTH as nat);
    if is_raw {
        pad_left(nat_digits(i), (WIDTH_ID - 2) as nat) + seq![' '] + label_spec(m.2) + seq![' ']
            + text
    } else {
        position_spec(i) + TABLE_SEP@ + pad_left(clock_spec((m.1 as u64) as nat), WIDTH_WHEN as nat)
            + TABLE_SEP@ + pad_left(decimal(m.3 as int), (WIDTH_SIZE - 2) as nat) + " B"@ + TABLE_SEP@
            + label_spec(m.2) + seq![' '] + text
    }
}

/// Row `i` of a listing.
pub fn list_row(i: usize, item: &(i64, i64, String, i64, Option<String>), is_raw: bool) -> (r: String)
    ensures
        r@ == row_spec(i as nat, meta_view(*item), is_raw),
{
    let mut r = String::new();
    let d = nat_string(i as u64);
    if !is_raw {
        push_char_to(&mut r, '[');
    }
    push_padded(&mut r, d.as_str(), WIDTH_ID - 2);
    if !is_raw {
        push_char_to(&mut r, ']');
    }
    let label = get_label(item.2.as_str());
    let pv: Option<&String> = match &item.4 {
        Some(p) => Some(p),
        None => None,
    };
    assert(opt_view(pv) == opt_string_view(item.4));
    let raw_preview = listing_preview(item.2.as_str(), item.3, pv);
    let text = preview_content(raw_preview.as_str(), PREVIEW_WIDTH);
    if is_raw {
        push_char_to(&mut r, ' ');
        append(&mut r, label);
        push_char_to(&mut r, ' ');
        append(&mut r, text.as_str());
    } else {
        append(&mut r, TABLE_SEP);
        let t = format_time(item.1 as u64);
        push_padded(&mut r, t.as_str(), WIDTH_WHEN);
        append(&mut r, TABLE_SEP);
        let sz = to_decimal(item.3);
        push_padded(&mut r, sz.as_str(), WIDTH_SIZE - 2);
        append(&mut r, " B");
        append(&mut r, TABLE_SEP);
        append(&mut r, label);
        push_char_to(&mut r, ' ');
        append(&mut r, text.as_str());
    }
    assert(r@ =~= row_spec(i as nat, meta_view(*item), is_raw));
    r
}

/// The first field of a raw listing row is its position, and `copy-to`
/// given that field selects the entry listed at that position: a row picked
/// from `list --raw` copies back the entry it shows.
pub proof fn law_raw_row_selects_entry(
    i: nat,
    m: (i64, i64, Seq<char>, i64, Option<Seq<char>>),
    ids: Seq<i64>,
)
    requires
        i < ids.len(),
        i <= i64::MAX,
        i <= usize::MAX,
    ensures
        exists|pad: Seq<char>, rest: Seq<char>|
            (forall|k: int| 0 <= k < pad.len() ==> #[trigger] pad[k] == ' ') && row_spec(i, m, true)
                == pad + nat_digits(i) + seq![' '] + rest,
        crate::text::all_digits(nat_digits(i)),
        copy_target_spec(Some(nat_digits(i)), false, ids) == if ids[i as int] == -1 {
            CopyTarget::Invalid
        } else {
            CopyTarget::Entry(ids[i as int])
        },
{
    lemma_nat_digits(i);
    let d = nat_digits(i);
    let rest = label_spec(m.2) + seq![' '] + fitted(listing_text(m.2, m.3, m.4), PREVIEW_WIDTH as nat);
    let pad = if d.len() < WIDTH_ID - 2 {
        Seq::new(((WIDTH_ID - 2) - d.len()) as nat, |_k: int| ' ')
    } else {
        Seq::<char>::empty()
    };
    assert(row_spec(i, m, true) =~= pad + d + seq![' '] + rest);
    assert(crate::text::is_digit(d[0]));
    assert(d[0] != '-' && d[0] != '+');
    assert(crate::text::parse_i64_spec(d) == Some(i as i64));
    let v = i as i64;
    assert((v as usize) as int == i);
}

/// The title line of a listing.
pub open spec fn title_spec(title: Seq<char>) -> Seq<char> {
    "--- "@ + title + " ---"@
}

/// The column headings of a listing.
pub open spec fn heading_spec() -> Seq<char> {
    pad_left(LIST_HEADER_ID@, WIDTH_ID as nat) + TABLE_SEP@ + pad_left(LIST_HEADER_WHEN@, WIDTH_WHEN as nat)
        + TABLE_SEP@ + pad_left(LIST_HEADER_SIZE@, WIDTH_SIZE as nat) + TABLE_SEP@ + LIST_HEADER_CONTENT@
}

/// The closing line of a listing: how many rows were shown and how full the
/// history is.
pub open spec fn summary_spec(shown: nat, total: nat) -> Seq<char> {
    LOG_INFO@ + "shown "@ + nat_digits(shown) + " items | history: "@ + nat_digits(total) + " / "@
        + nat_digits(MAX_HISTORY as nat) + " entries"@
}

/// The lines of a listing of `items` under `title`, when `total` entries are
/// stored: in raw form only the rows, one per item, each led by its display
/// position; as a table, a blank line, the title, the headings and a rule,
/// then the rows, then a rule and the summary.
pub open spec fn list_lines_spec(
    title: Seq<char>,
    items: Seq<(i64, i64, Seq<char>, i64, Option<Seq<char>>)>,
    total: nat,
    is_raw: bool,
) -> Seq<Seq<char>> {
    let rows = Seq::new(items.len(), |k: int| row_spec(k as nat, items[k], is_raw));
    if is_raw {
        rows
    } else {
        seq![Seq::<char>::empty(), title_spec(title), heading_spec(), rule_spec()] + rows + seq![
            rule_spec(),
            summary_spec(items.len(), total),
        ]
    }
}

fn push_line(out: &mut Vec<String>, line: String)
    ensures
        string_views(final(out)@) == string_views(old(out)@).push(line@),
{
    let ghost before = out@;
    out.push(line);
    assert(string_views(out@) =~= string_views(before).push(line@));
}

/// The lines that `list` and `search` print for `items`.
pub fn list_lines(
    title: &str,
    items: &[(i64, i64, String, i64, Option<String>)],
    total_stored: usize,
    is_raw: bool,
) -> (r: Vec<String>)
    ensures
        string_views(r@) == list_lines_spec(title@, meta_views(items@), total_stored as nat, is_raw),
{
    let ghost mv = meta_views(items@);
    let ghost rows = Seq::new(mv.len(), |k: int| row_spec(k as nat, mv[k], is_raw));
    let mut out: Vec<String> = Vec::new();
    if !is_raw {
        push_line(&mut out, String::new());
        let mut t = String::new();
        append(&mut t, "--- ");
        append(&mut t, title);
        append(&mut t, " ---");
        push_line(&mut out, t);
        let mut h = String::new();
        push_padded(&mut h, LIST_HEADER_ID, WIDTH_ID);
        append(&mut h, TABLE_SEP);
        push_padded(&mut h, LIST_HEADER_WHEN, WIDTH_WHEN);
        append(&mut h, TABLE_SEP);
        push_padded(&mut h, LIST_HEADER_SIZE, WIDTH_SIZE);
        append(&mut h, TABLE_SEP);
        append(&mut h, LIST_HEADER_CONTENT);
        push_line(&mut out, h);
        push_line(&mut out, rule_line());
    }
    let ghost head = string_views(out@);
    assert(head =~= if is_raw {
        Seq::<Seq<char>>::empty()
    } else {
        seq![Seq::<char>::empty(), title_spec(title@), heading_spec(), rule_spec()]
    });
    let mut k: usize = 0;
    while k < items.len()
        invariant
            k <= items@.len(),
            mv == meta_views(items@),
            rows == Seq::new(mv.len(), |k: int| row_spec(k as nat, mv[k], is_raw)),
            string_views(out@) == head + rows.take(k as int),
        decreases items@.len() - k,
    {
        let line = list_row(k, &items[k], is_raw);
        push_line(&mut out, line);
        assert(head + rows.take(k + 1) =~= (head + rows.take(k as int)).push(rows[k as int]));
        k += 1;
    }
    assert(rows.take(k as int) =~= rows);
    if !is_raw {
        push_line(&mut out, rule_line());
        let mut sm = String::new();
        append(&mut sm, LOG_INFO);
        append(&mut sm, "shown ");
        append(&mut sm, nat_string(items.len() as u64).as_str());
        append(&mut sm, " items | history: ");
        append(&mut sm, nat_string(total_stored as u64).as_str());
        append(&mut sm, " / ");
        append(&mut sm, nat_string(MAX_HISTORY as u64).as_str());
        append(&mut sm, " entries");
        push_line(&mut out, sm);
        assert(string_views(out@) =~= list_lines_spec(title@, mv, total_stored as nat, is_raw));
    }
    out
}

/// An entry's kind label: `[IMG]` for image types, `[TXT]` for other types
/// that mention `text` or `UTF8`, `[BIN]` for the rest.
pub proof fn law_labels(mime: Seq<char>)
    ensures
        has_prefix(mime, "image/"@) ==> label_spec(mime) == "[IMG]"@,
        !has_prefix(mime, "image/"@) && (has_infix(mime, "text"@) || has_infix(mime, "UTF8"@)) ==> label_spec(mime)
            == "[TXT]"@,
        !has_prefix(mime, "image/"@) && !has_infix(mime, "text"@) && !has_infix(mime, "UTF8"@) ==> label_spec(mime)
            == "[BIN]"@,
{
}

/// A fitted preview is one line no wider than `width`: it keeps a text that
/// fits, with control characters shown as spaces, and cuts a longer one to
/// its first `width - 3` characters followed by `...`.
pub proof fn law_fitted(s: Seq<char>, width: nat)
    requires
        width >= 3,
    ensures
        fitted(s, width).len() <= width,
        forall|k: int| 0 <= k < fitted(s, width).len() ==> !is_control(#[trigger] fitted(s, width)[k]),
        s.len() <= width ==> fitted(s, width).len() == s.len() && forall|k: int|
            0 <= k < s.len() && !is_control(s[k]) ==> #[trigger] fitted(s, width)[k] == s[k],
        s.len() > width ==> fitted(s, width).len() == width && fitted(s, width).subrange(
            width - 3,
            width as int,
        ) == "..."@ && forall|k: int|
            0 <= k < width - 3 && !is_control(s[k]) ==> #[trigger] fitted(s, width)[k] == s[k],
{
    reveal_strlit("...");
    let f = fitted(s, width);
    if s.len() > width {
        assert(f.subrange(width - 3, width as int) =~= "..."@);
        assert forall|k: int| 0 <= k < f.len() implies !is_control(#[trigger] f[k]) by {
            if k >= width - 3 {
                assert(f[k] == "..."@[k - (width - 3)]);
            }
        }
    }
}

/// The time of day of a timestamp in milliseconds: `HH:MM:SS`, whose hours,
/// minutes and seconds are below 24, 60 and 60 and make up the seconds
/// since midnight (UTC).
pub proof fn law_clock(ts_ms: nat)
    ensures
        clock_spec(ts_ms).len() == 8,
        clock_spec(ts_ms)[2] == ':' && clock_spec(ts_ms)[5] == ':',
        ({
            let c = clock_spec(ts_ms);
            let h = crate::text::digit_value(c[0]) * 10 + crate::text::digit_value(c[1]);
            let m = crate::text::digit_value(c[3]) * 10 + crate::text::digit_value(c[4]);
            let sec = crate::text::digit_value(c[6]) * 10 + crate::text::digit_value(c[7]);
            &&& h < 24 && m < 60 && sec < 60
            &&& h * 3600 + m * 60 + sec == (ts_ms / 1000) % 86400
            &&& forall|k: int| 0 <= k < 8 && k != 2 && k != 5 ==> crate::text::is_digit(#[trigger] c[k])
        }),
{
    reveal_strlit(":");
    let secs = (ts_ms / 1000) % 86400;
    let h = secs / 3600;
    let m = (secs / 60) % 60;
    let sec = secs % 60;
    assert(h < 24);
    let c = clock_spec(ts_ms);
    assert(c =~= two_digits(h) + ":"@ + two_digits(m) + ":"@ + two_digits(sec));
    assert(c[0] == digit_char(h / 10) && c[1] == digit_char(h % 10));
    assert(crate::text::digit_value(digit_char(h / 10)) == h / 10);
    assert(crate::text::digit_value(digit_char(h % 10)) == h % 10);
    assert(crate::text::digit_value(digit_char(m / 10)) == m / 10);
    assert(crate::text::digit_value(digit_char(m % 10)) == m % 10);
    assert(crate::text::digit_value(digit_char(sec / 10)) == sec / 10);
    assert(crate::text::digit_value(digit_char(sec % 10)) == sec % 10);
    assert((h / 10) * 10 + h % 10 == h);
    assert((m / 10) * 10 + m % 10 == m);
    assert((sec / 10) * 10 + sec % 10 == sec);
    assert(h * 3600 + m * 60 + sec == secs) by (nonlinear_arith)
        requires
            h == secs / 3600,
            m == (secs / 60) % 60,
            sec == secs % 60,
            secs < 86400,
    ;
}

/// What a listing shows of an image is its subtype and its size in bytes;
/// of any other entry, its preview, or nothing without one.
pub proof fn law_listing_text(mime: Seq<char>, size: i64, preview: Option<Seq<char>>)
    ensures
        has_prefix(mime, "image/"@) ==> listing_text(mime, size, preview) == seq!['['] + mime_subtype(mime) + "] - "@
            + decimal(size as int) + " bytes"@,
        !has_prefix(mime, "image/"@) ==> listing_text(mime, size, preview) == match preview {
            Some(p) => p,
            None => Seq::<char>::empty(),
        },
        mime_subtype("image/png"@) == "png"@,
{
    reveal_strlit("image/png");
    reveal_strlit("png");
    let m = "image/png"@;
    assert(index_of_char(m, '/') == 5) by {
        crate::text::lemma_index_of_char(m, '/', 5);
    }
    let rest = m.skip(6);
    assert(rest =~= "png"@);
    assert(index_of_char(rest, '/') == 3) by {
        crate::text::lemma_index_of_char(rest, '/', 3);
    }
    assert(rest.take(3) =~= "png"@);
}

/// A listing prints one line per item in raw form, and six lines more as a
/// table: a blank line, the title, the headings and a rule before the rows,
/// a rule and the summary after them.
pub proof fn law_list_line_count(
    title: Seq<char>,
    items: Seq<(i64, i64, Seq<char>, i64, Option<Seq<char>>)>,
    total: nat,
)
    ensures
        list_lines_spec(title, items, total, true).len() == items.len(),
        list_lines_spec(title, items, total, false).len() == items.len() + 6,
        list_lines_spec(title, items, total, false)[1] == "--- "@ + title + " ---"@,
        forall|k: int| 0 <= k < items.len() ==> #[trigger] list_lines_spec(title, items, total, false)[k + 4]
            == row_spec(k as nat, items[k], false),
        forall|k: int| 0 <= k < items.len() ==> #[trigger] list_lines_spec(title, items, total, true)[k]
            == row_spec(k as nat, items[k], true),
        list_lines_spec(title, items, total, false)[items.len() + 5int] == summary_spec(items.len(), total),
{
}

} // verus!
