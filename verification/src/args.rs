//! Command-line argument helpers: option recognition, flag lookup and the
//! history range syntax (`N`, `A-B`, `A-`, `-B`).

use vstd::prelude::*;
use crate::listing::{lemma_nat_digits, nat_digits};
use crate::text::{
    all_digits, digits_value, is_digit, is_ws, lemma_index_of_char, trim_end, trim_start,
    chars_of, find_char, index_of_char, has_prefix, parse_usize_chars, parse_usize_spec, str_eq, trim, trimmed,
};

verus! {

/// Categories for history range selection.
#[derive(Debug, Clone, Copy, PartialEq, Eq, Structural)]
pub enum RangeSelection {
    /// Specific single index.
    Single(usize),
    /// Bound range of indices (start, end).
    Range(usize, usize),
    /// N most recent entries.
    Latest(usize),
}

/// An argument is an option when it begins with `-`.
pub open spec fn is_option_spec(a: Seq<char>) -> bool {
    a.len() > 0 && a[0] == '-'
}

/// The piece of `s` before its first `-` (all of `s` when there is none).
pub open spec fn first_piece(s: Seq<char>) -> Seq<char> {
    s.take(index_of_char(s, '-') as int)
}

/// The piece of `s` after its first `-`; only meaningful when `s` holds a `-`.
pub open spec fn second_piece(s: Seq<char>) -> Seq<char> {
    s.skip(index_of_char(s, '-') as int + 1)
}

/// One side of a range `A-B`: `Some(None)` when blank, `Some(Some(n))` when
/// it is the number `n` (surrounding whitespace allowed), `None` otherwise.
pub open spec fn range_part(p: Seq<char>) -> Option<Option<usize>> {
    let t = trim(p);
    if t.len() == 0 {
        Some(None)
    } else {
        match parse_usize_spec(t) {
            Some(n) => Some(Some(n)),
            None => None,
        }
    }
}

/// The text holds exactly one `-`.
pub open spec fn one_dash(s: Seq<char>) -> bool {
    index_of_char(s, '-') < s.len() && index_of_char(second_piece(s), '-') >= second_piece(s).len()
}

/// Range syntax on an already trimmed, non-empty argument: `N` selects one
/// entry; `A-B` the entries from `min(A, B)` to `max(A, B)`; `A-` the
/// entries from `A` to `A + d`; `-B` those from 0 to `B`. Anything else is
/// invalid and selects the `d` most recent entries.
pub open spec fn range_from_text(s: Seq<char>, d: usize) -> RangeSelection {
    if index_of_char(s, '-') < s.len() {
        if !one_dash(s) {
            RangeSelection::Latest(d)
        } else {
            match (range_part(first_piece(s)), range_part(second_piece(s))) {
                (Some(Some(a)), Some(Some(b))) => if a <= b {
                    RangeSelection::Range(a, b)
                } else {
                    RangeSelection::Range(b, a)
                },
                (Some(Some(a)), Some(None)) => RangeSelection::Range(a, (a + d) as usize),
                (Some(None), Some(Some(b))) => RangeSelection::Range(0, b),
                _ => RangeSelection::Latest(d),
            }
        }
    } else {
        match parse_usize_spec(s) {
            Some(n) => RangeSelection::Single(n),
            None => RangeSelection::Latest(d),
        }
    }
}

/// The argument is present, is not blank and is not an option.
pub open spec fn range_arg_usable(arg: Option<Seq<char>>) -> bool {
    match arg {
        Some(a) => trim(a).len() > 0 && !is_option_spec(a),
        None => false,
    }
}

/// What `parse_range` selects for `arg`.
pub open spec fn parse_range_spec(arg: Option<Seq<char>>, d: usize) -> RangeSelection {
    if range_arg_usable(arg) {
        range_from_text(trim(arg.unwrap()), d)
    } else {
        RangeSelection::Latest(d)
    }
}

/// `parse_range` computes `start + default_limit` only for an open range
/// `A-`; this holds when that sum fits in `usize`.
pub open spec fn parse_range_fits(arg: Option<Seq<char>>, d: usize) -> bool {
    range_arg_usable(arg) ==> range_text_fits(trim(arg.unwrap()), d)
}

/// The open-range sum `A + d` of `range_from_text(s, d)` fits in `usize`.
pub open spec fn range_text_fits(s: Seq<char>, d: usize) -> bool {
    one_dash(s) ==> match (range_part(first_piece(s)), range_part(second_piece(s))) {
        (Some(Some(a)), Some(None)) => a + d <= usize::MAX,
        _ => true,
    }
}

/// A parsed range never runs backwards: its start is at most its end.
pub proof fn law_range_ordered(arg: Option<Seq<char>>, d: usize)
    requires
        parse_range_fits(arg, d),
    ensures
        parse_range_spec(arg, d) matches RangeSelection::Range(a, b) ==> a <= b,
{
}

/// An absent, blank or option argument selects the `d` most recent entries.
pub proof fn law_range_default(arg: Option<Seq<char>>, d: usize)
    requires
        match arg {
            Some(a) => is_option_spec(a) || trim(a).len() == 0,
            None => true,
        },
    ensures
        parse_range_spec(arg, d) == RangeSelection::Latest(d),
{
}

/// A non-empty run of digits has no surrounding whitespace and reads back
/// as its value.
proof fn lemma_digits_part(n: usize)
    ensures
        trim(nat_digits(n as nat)) == nat_digits(n as nat),
        range_part(nat_digits(n as nat)) == Some(Some(n)),
        forall|i: int| 0 <= i < nat_digits(n as nat).len() ==> #[trigger] nat_digits(n as nat)[i] != '-',
        index_of_char(nat_digits(n as nat), '-') == nat_digits(n as nat).len(),
{
    let s = nat_digits(n as nat);
    lemma_nat_digits(n as nat);
    assert(is_digit(s[0]) && is_digit(s.last()));
    assert(trim_start(s) == s);
    assert(trim_end(s) == s);
    assert forall|i: int| 0 <= i < s.len() implies #[trigger] s[i] != '-' by {
        assert(is_digit(s[i]));
    }
    lemma_index_of_char(s, '-', s.len() as int);
    assert(s[0] != '+');
}

/// A range written `a-b` selects the entries from the smaller bound to the
/// larger, whichever way round it is written.
pub proof fn law_range_symmetric(a: usize, b: usize, d: usize)
    ensures
        parse_range_fits(Some(nat_digits(a as nat) + seq!['-'] + nat_digits(b as nat)), d),
        parse_range_spec(Some(nat_digits(a as nat) + seq!['-'] + nat_digits(b as nat)), d)
            == parse_range_spec(Some(nat_digits(b as nat) + seq!['-'] + nat_digits(a as nat)), d),
        parse_range_spec(Some(nat_digits(a as nat) + seq!['-'] + nat_digits(b as nat)), d)
            == RangeSelection::Range(if a <= b { a } else { b }, if a <= b { b } else { a }),
{
    lemma_range_written(a, b, d);
    lemma_range_written(b, a, d);
}

proof fn lemma_range_written(a: usize, b: usize, d: usize)
    ensures
        parse_range_fits(Some(nat_digits(a as nat) + seq!['-'] + nat_digits(b as nat)), d),
        parse_range_spec(Some(nat_digits(a as nat) + seq!['-'] + nat_digits(b as nat)), d)
            == RangeSelection::Range(if a <= b { a } else { b }, if a <= b { b } else { a }),
{
    let da = nat_digits(a as nat);
    let db = nat_digits(b as nat);
    let s = da + seq!['-'] + db;
    lemma_digits_part(a);
    lemma_digits_part(b);
    lemma_nat_digits(a as nat);
    lemma_nat_digits(b as nat);
    let k = da.len() as int;
    assert forall|j: int| 0 <= j < k implies s[j] != '-' by {
        assert(s[j] == da[j]);
    }
    assert(s[k] == '-');
    lemma_index_of_char(s, '-', k);
    assert(first_piece(s) =~= da);
    assert(second_piece(s) =~= db);
    assert(is_digit(s[0])) by {
        assert(s[0] == da[0]);
    }
    assert(is_digit(s.last())) by {
        assert(s.last() == db.last());
        assert(db.last() == db[db.len() - 1]);
    }
    assert(trim_start(s) == s);
    assert(trim_end(s) == s);
    assert(!is_option_spec(s));
}

pub open spec fn opt_view(arg: Option<&String>) -> Option<Seq<char>> {
    match arg {
        Some(s) => Some(s@),
        None => None,
    }
}

/// Validates if a string follows the strict option prefix format.
pub fn is_option(arg: &str) -> (r: bool)
    ensures
        r == is_option_spec(arg@),
{
    let c = chars_of(arg);
    c.len() > 0 && c[0] == '-'
}

/// Matches an argument against a specific long and short option pair.
pub fn matches_option(arg: &str, long: &str, short: &str) -> (r: bool)
    ensures
        r == (arg@ == long@ || arg@ == short@),
{
    str_eq(arg, long) || str_eq(arg, short)
}

/// Checks if a specific flag exists within the argument vector.
pub fn has_flag(args: &[String], long: &str, short: &str) -> (r: bool)
    ensures
        r == exists|i: int| 0 <= i < args@.len() && (#[trigger] args@[i]@ == long@ || args@[i]@ == short@),
{
    let mut i: usize = 0;
    while i < args.len()
        invariant
            i <= args@.len(),
            forall|j: int| 0 <= j < i ==> !(#[trigger] args@[j]@ == long@ || args@[j]@ == short@),
        decreases args@.len() - i,
    {
        if matches_option(args[i].as_str(), long, short) {
            return true;
        }
        i += 1;
    }
    false
}

/// Reads one side of a range.
fn range_part_of(p: &[char]) -> (r: Option<Option<usize>>)
    ensures
        r == range_part(p@),
{
    let t = trimmed(p);
    if t.len() == 0 {
        Some(None)
    } else {
        match parse_usize_chars(t.as_slice()) {
            Some(n) => Some(Some(n)),
            None => None,
        }
    }
}

/// Splits a text holding a `-` at its first `-`: the two sides, and whether
/// the second side holds another `-`.
fn split_dash(s: &[char], k: usize) -> (r: (Option<Option<usize>>, Option<Option<usize>>, bool))
    requires
        k == index_of_char(s@, '-'),
        k < s@.len(),
    ensures
        r.0 == range_part(first_piece(s@)),
        r.1 == range_part(second_piece(s@)),
        r.2 == one_dash(s@),
{
    let n = s.len();
    let p0 = &s[0..k];
    let rest = &s[k + 1..n];
    assert(p0@ == first_piece(s@));
    assert(rest@ =~= second_piece(s@));
    let k2 = find_char(rest, '-');
    (range_part_of(p0), range_part_of(rest), k2 >= rest.len())
}

/// Range syntax on a trimmed, non-empty argument.
fn range_from_chars(s: &[char], default_limit: usize) -> (r: RangeSelection)
    requires
        range_text_fits(s@, default_limit),
    ensures
        r == range_from_text(s@, default_limit),
{
    let k = find_char(s, '-');
    if k < s.len() {
        let (n1, n2, single) = split_dash(s, k);
        if !single {
            return RangeSelection::Latest(default_limit);
        }
        match (n1, n2) {
            (Some(Some(a)), Some(Some(b))) => if a <= b {
                RangeSelection::Range(a, b)
            } else {
                RangeSelection::Range(b, a)
            },
            (Some(Some(a)), Some(None)) => RangeSelection::Range(a, a + default_limit),
            (Some(None), Some(Some(b))) => RangeSelection::Range(0, b),
            _ => RangeSelection::Latest(default_limit),
        }
    } else {
        match parse_usize_chars(s) {
            Some(n) => RangeSelection::Single(n),
            None => RangeSelection::Latest(default_limit),
        }
    }
}

/// Parses a positional argument into a RangeSelection.
/// Returns Latest(default_limit) if the argument is an option or invalid.
pub fn parse_range(arg: Option<&String>, default_limit: usize) -> (r: RangeSelection)
    requires
        parse_range_fits(opt_view(arg), default_limit),
    ensures
        r == parse_range_spec(opt_view(arg), default_limit),
{
    match arg {
        Some(a) => {
            let c = chars_of(a.as_str());
            let t = trimmed(c.as_slice());
            if t.len() == 0 || (c.len() > 0 && c[0] == '-') {
                return RangeSelection::Latest(default_limit);
            }
            range_from_chars(t.as_slice(), default_limit)
        },
        None => RangeSelection::Latest(default_limit),
    }
}

/// Whether `parse_range(arg, default_limit)` stays within `usize`; the
/// caller tests this before parsing.
pub fn parse_range_in_bounds(arg: Option<&String>, default_limit: usize) -> (r: bool)
    ensures
        r == parse_range_fits(opt_view(arg), default_limit),
{
    match arg {
        Some(a) => {
            let c = chars_of(a.as_str());
            let t = trimmed(c.as_slice());
            if t.len() == 0 || (c.len() > 0 && c[0] == '-') {
                return true;
            }
            let s = t.as_slice();
            let k = find_char(s, '-');
            if k >= s.len() {
                return true;
            }
            let (n1, n2, single) = split_dash(s, k);
            if !single {
                return true;
            }
            match (n1, n2) {
                (Some(Some(a)), Some(None)) => a <= usize::MAX - default_limit,
                _ => true,
            }
        },
        None => true,
    }
}

/// A number selects the one entry at that position; a number followed by
/// `-` selects the `d` entries after it, from that position on.
pub proof fn law_range_forms(n: usize, d: usize)
    ensures
        parse_range_spec(Some(nat_digits(n as nat)), d) == RangeSelection::Single(n),
        n + d <= usize::MAX ==> parse_range_spec(Some(nat_digits(n as nat).push('-')), d) == RangeSelection::Range(
            n,
            (n + d) as usize,
        ),
{
    let s = nat_digits(n as nat);
    lemma_digits_part(n);
    lemma_nat_digits(n as nat);
    assert(is_digit(s[0]));
    assert(!is_option_spec(s));
    assert(parse_usize_spec(s) == Some(n));
    let t = s.push('-');
    let k = s.len() as int;
    assert forall|j: int| 0 <= j < k implies t[j] != '-' by {
        assert(t[j] == s[j]);
    }
    lemma_index_of_char(t, '-', k);
    assert(first_piece(t) =~= s);
    assert(second_piece(t) =~= Seq::<char>::empty());
    assert(trim(Seq::<char>::empty()) =~= Seq::<char>::empty()) by {
        assert(trim_start(Seq::<char>::empty()) =~= Seq::<char>::empty());
    }
    assert(is_digit(t[0]));
    assert(!is_ws(t[0]));
    assert(!is_ws(t.last()));
    assert(trim_start(t) == t);
    assert(trim_end(t) == t);
    assert(!is_option_spec(t));
    assert(second_piece(t).len() == 0);
    lemma_index_of_char(second_piece(t), '-', 0);
}

} // verus!
