//! MIME type decisions: which offered format to take from a selection, which
//! requested format a stored payload can serve, which formats to offer back,
//! and which payloads are sensitive.

use vstd::prelude::*;
use crate::constants::{
    DEFAULT_MIME, INTERFACE_MANAGER, INTERFACE_SEAT, SELECTION_PRIORITY, SENSITIVE_MIME_HINTS,
    TEXT_ALIASES, TEXT_MIME_ALTS,
};
use crate::text::{
    chars_of, has_infix, has_prefix, lowercase_of, str_contains, str_eq, str_starts_with,
    to_lowercase,
};

verus! {

/// `m` is one of the usual names of plain text.
pub open spec fn is_text_alias(m: Seq<char>) -> bool {
    exists|i: int| 0 <= i < TEXT_ALIASES@.len() && #[trigger] TEXT_ALIASES@[i]@ == m
}

/// A payload stored as `target` can answer a request for `requested`.
pub open spec fn compatible(requested: Seq<char>, target: Seq<char>) -> bool {
    ||| requested == target
    ||| has_prefix(requested, "text/"@) && has_prefix(target, "text/"@)
    ||| has_prefix(requested, "image/"@) && has_prefix(target, "image/"@)
    ||| is_text_alias(requested) && (is_text_alias(target) || has_prefix(target, "text/"@))
}

fn text_alias(m: &str) -> (r: bool)
    ensures
        r == is_text_alias(m@),
{
    let mut i: usize = 0;
    while i < TEXT_ALIASES.len()
        invariant
            i <= TEXT_ALIASES@.len(),
            forall|j: int| 0 <= j < i ==> #[trigger] TEXT_ALIASES@[j]@ != m@,
        decreases TEXT_ALIASES@.len() - i,
    {
        if str_eq(TEXT_ALIASES[i], m) {
            return true;
        }
        i += 1;
    }
    false
}

/// Evaluates if the requested MIME type is compatible with the target type.
pub fn mime_is_compatible(requested: &str, target: &str) -> (r: bool)
    ensures
        r == compatible(requested@, target@),
{
    if str_eq(requested, target) {
        return true;
    }
    if str_starts_with(requested, "text/") && str_starts_with(target, "text/") {
        return true;
    }
    if str_starts_with(requested, "image/") && str_starts_with(target, "image/") {
        return true;
    }
    let req_is_text_alias = text_alias(requested);
    let tgt_is_text_alias = text_alias(target) || str_starts_with(target, "text/");
    req_is_text_alias && tgt_is_text_alias
}

/// One of the lower-cased MIME types holds a sensitive hint.
pub open spec fn lowered_sensitive(lowered: Seq<Seq<char>>) -> bool {
    exists|i: int, j: int|
        0 <= i < SENSITIVE_MIME_HINTS@.len() && 0 <= j < lowered.len() && has_infix(
            #[trigger] lowered[j],
            #[trigger] SENSITIVE_MIME_HINTS@[i]@,
        )
}

pub open spec fn string_views(v: Seq<String>) -> Seq<Seq<char>> {
    Seq::new(v.len(), |k: int| v[k]@)
}

/// Whether one of the already lower-cased MIME types holds a sensitive hint.
pub fn lowered_mimes_sensitive(lowered: &[String]) -> (r: bool)
    ensures
        r == lowered_sensitive(string_views(lowered@)),
{
    let ghost lv = string_views(lowered@);
    let mut i: usize = 0;
    while i < SENSITIVE_MIME_HINTS.len()
        invariant
            lv == string_views(lowered@),
            i <= SENSITIVE_MIME_HINTS@.len(),
            forall|a: int, b: int|
                0 <= a < i && 0 <= b < lv.len() ==> !has_infix(
                    #[trigger] lv[b],
                    #[trigger] SENSITIVE_MIME_HINTS@[a]@,
                ),
        decreases SENSITIVE_MIME_HINTS@.len() - i,
    {
        let mut j: usize = 0;
        while j < lowered.len()
            invariant
                lv == string_views(lowered@),
                i < SENSITIVE_MIME_HINTS@.len(),
                j <= lowered@.len(),
                forall|a: int, b: int|
                    0 <= a < i && 0 <= b < lv.len() ==> !has_infix(
                        #[trigger] lv[b],
                        #[trigger] SENSITIVE_MIME_HINTS@[a]@,
                    ),
                forall|b: int| 0 <= b < j ==> !has_infix(#[trigger] lv[b], SENSITIVE_MIME_HINTS@[i as int]@),
            decreases lowered@.len() - j,
        {
            if str_contains(lowered[j].as_str(), SENSITIVE_MIME_HINTS[i]) {
                assert(lv[j as int] == lowered@[j as int]@);
                return true;
            }
            j += 1;
        }
        i += 1;
    }
    false
}

/// Checks if offered MIME types contain sensitive keywords, compared in
/// lower case.
pub fn is_sensitive(mimes: &[String]) -> (r: bool)
    ensures
        r == lowered_sensitive(Seq::new(mimes@.len(), |k: int| lowercase_of(mimes@[k]@))),
{
    let mut lowered: Vec<String> = Vec::new();
    let mut k: usize = 0;
    while k < mimes.len()
        invariant
            k <= mimes@.len(),
            lowered@.len() == k,
            forall|j: int| 0 <= j < k ==> #[trigger] lowered@[j]@ == lowercase_of(mimes@[j]@),
        decreases mimes@.len() - k,
    {
        lowered.push(to_lowercase(mimes[k].as_str()));
        k += 1;
    }
    assert(string_views(lowered@) =~= Seq::new(mimes@.len(), |k: int| lowercase_of(mimes@[k]@)));
    lowered_mimes_sensitive(lowered.as_slice())
}

/// `m` is offered as priority type `p`, possibly with parameters.
pub open spec fn offered_as(m: Seq<char>, p: Seq<char>) -> bool {
    m == p || has_prefix(m, p.push(';'))
}

/// `i` is the first index of `s` whose element satisfies `pred`.
pub open spec fn is_first_index(s: Seq<Seq<char>>, pred: spec_fn(Seq<char>) -> bool, i: int) -> bool {
    0 <= i < s.len() && pred(s[i]) && forall|j: int| 0 <= j < i ==> !pred(#[trigger] s[j])
}

/// The first element of `s` that satisfies `pred`, if any.
pub open spec fn first_where(s: Seq<Seq<char>>, pred: spec_fn(Seq<char>) -> bool) -> Option<
    Seq<char>,
> {
    if exists|i: int| is_first_index(s, pred, i) {
        Some(s[choose|i: int| is_first_index(s, pred, i)])
    } else {
        None
    }
}

/// Taking priority types from the `k`-th on, the first offered MIME type
/// that matches the most preferred of them.
pub open spec fn by_priority(s: Seq<Seq<char>>, k: int) -> Option<Seq<char>>
    decreases SELECTION_PRIORITY@.len() - k,
{
    if k < 0 || k >= SELECTION_PRIORITY@.len() {
        None
    } else {
        match first_where(s, |m: Seq<char>| offered_as(m, SELECTION_PRIORITY@[k]@)) {
            Some(m) => Some(m),
            None => by_priority(s, k + 1),
        }
    }
}

/// The MIME type taken from a selection offering `s`: the preferred
/// formats in order, then any image, then any text, then the first offered.
pub open spec fn selected_mime(s: Seq<Seq<char>>) -> Seq<char> {
    match by_priority(s, 0) {
        Some(m) => m,
        None => match first_where(s, |m: Seq<char>| has_prefix(m, "image/"@)) {
            Some(m) => m,
            None => match first_where(s, |m: Seq<char>| has_prefix(m, "text/"@)) {
                Some(m) => m,
                None => if s.len() > 0 {
                    s[0]
                } else {
                    DEFAULT_MIME@
                },
            },
        },
    }
}

/// Every MIME type can serve requests for itself.
pub proof fn law_compatible_reflexive(m: Seq<char>)
    ensures
        compatible(m, m),
{
}

proof fn lemma_first_where_member(s: Seq<Seq<char>>, pred: spec_fn(Seq<char>) -> bool)
    ensures
        first_where(s, pred) matches Some(m) ==> s.contains(m) && pred(m),
{
    if exists|i: int| is_first_index(s, pred, i) {
        let c = choose|i: int| is_first_index(s, pred, i);
        assert(s[c] == s[c]);
    }
}

proof fn lemma_by_priority_member(s: Seq<Seq<char>>, k: int)
    ensures
        by_priority(s, k) matches Some(m) ==> s.contains(m),
    decreases SELECTION_PRIORITY@.len() - k,
{
    if 0 <= k < SELECTION_PRIORITY@.len() {
        lemma_first_where_member(s, |m: Seq<char>| offered_as(m, SELECTION_PRIORITY@[k]@));
        lemma_by_priority_member(s, k + 1);
    }
}

/// The format taken from a selection is always one that the selection
/// offers.
pub proof fn law_selected_is_offered(s: Seq<Seq<char>>)
    requires
        s.len() > 0,
    ensures
        s.contains(selected_mime(s)),
{
    lemma_by_priority_member(s, 0);
    lemma_first_where_member(s, |m: Seq<char>| has_prefix(m, "image/"@));
    lemma_first_where_member(s, |m: Seq<char>| has_prefix(m, "text/"@));
    assert(s[0] == s[0]);
}

/// No offered type is offered as any priority type before the `k`-th.
pub open spec fn none_before(s: Seq<Seq<char>>, k: int) -> bool {
    forall|j: int, i: int|
        0 <= j < k && 0 <= i < s.len() ==> !offered_as(#[trigger] s[i], #[trigger] SELECTION_PRIORITY@[j]@)
}

proof fn lemma_by_priority_skip(s: Seq<Seq<char>>, k: int)
    requires
        0 <= k <= SELECTION_PRIORITY@.len(),
        none_before(s, k),
    ensures
        by_priority(s, 0) == by_priority(s, k),
    decreases k,
{
    if k > 0 {
        assert forall|i: int| 0 <= i < s.len() implies !(|m: Seq<char>| offered_as(m, SELECTION_PRIORITY@[k - 1]@))(#[trigger] s[i]) by {
            assert(!offered_as(s[i], SELECTION_PRIORITY@[k - 1]@));
        }
        lemma_first_where_none(s, |m: Seq<char>| offered_as(m, SELECTION_PRIORITY@[k - 1]@));
        lemma_by_priority_skip(s, k - 1);
    }
}

/// The priority order decides: when no offered type matches an earlier
/// priority type and some offered type matches the `k`-th, the type taken
/// is the first offered type that matches the `k`-th (itself, or itself
/// with parameters). So `text/plain` is taken over `text/html`.
pub proof fn law_selection_priority(s: Seq<Seq<char>>, k: int, i: int)
    requires
        0 <= k < SELECTION_PRIORITY@.len(),
        none_before(s, k),
        0 <= i < s.len(),
        offered_as(s[i], SELECTION_PRIORITY@[k]@),
        forall|j: int| 0 <= j < i ==> !offered_as(#[trigger] s[j], SELECTION_PRIORITY@[k]@),
    ensures
        selected_mime(s) == s[i],
{
    lemma_by_priority_skip(s, k);
    lemma_first_where(s, |m: Seq<char>| offered_as(m, SELECTION_PRIORITY@[k]@), i);
}

/// Without any priority type offered, the first image type is taken; with no
/// image either, the first text type; with neither, the first type offered.
pub proof fn law_selection_fallback(s: Seq<Seq<char>>, i: int)
    requires
        none_before(s, SELECTION_PRIORITY@.len() as int),
        0 <= i < s.len(),
    ensures
        has_prefix(s[i], "image/"@) && (forall|j: int| 0 <= j < i ==> !has_prefix(#[trigger] s[j], "image/"@))
            ==> selected_mime(s) == s[i],
        (forall|j: int| 0 <= j < s.len() ==> !has_prefix(#[trigger] s[j], "image/"@)) && has_prefix(s[i], "text/"@)
            && (forall|j: int| 0 <= j < i ==> !has_prefix(#[trigger] s[j], "text/"@)) ==> selected_mime(s) == s[i],
        (forall|j: int| 0 <= j < s.len() ==> !has_prefix(#[trigger] s[j], "image/"@) && !has_prefix(s[j], "text/"@))
            ==> selected_mime(s) == s[0],
{
    lemma_by_priority_skip(s, SELECTION_PRIORITY@.len() as int);
    let img = |m: Seq<char>| has_prefix(m, "image/"@);
    let txt = |m: Seq<char>| has_prefix(m, "text/"@);
    if has_prefix(s[i], "image/"@) && (forall|j: int| 0 <= j < i ==> !has_prefix(#[trigger] s[j], "image/"@)) {
        lemma_first_where(s, img, i);
    }
    if forall|j: int| 0 <= j < s.len() ==> !has_prefix(#[trigger] s[j], "image/"@) {
        assert forall|j: int| 0 <= j < s.len() implies !img(#[trigger] s[j]) by {}
        lemma_first_where_none(s, img);
        if has_prefix(s[i], "text/"@) && (forall|j: int| 0 <= j < i ==> !has_prefix(#[trigger] s[j], "text/"@)) {
            lemma_first_where(s, txt, i);
        }
        if forall|j: int| 0 <= j < s.len() ==> !has_prefix(#[trigger] s[j], "text/"@) {
            assert forall|j: int| 0 <= j < s.len() implies !txt(#[trigger] s[j]) by {}
            lemma_first_where_none(s, txt);
        }
    }
}

/// No usual name of plain text starts with `image/`.
proof fn lemma_aliases_not_image(m: Seq<char>)
    requires
        has_prefix(m, "image/"@),
    ensures
        !is_text_alias(m),
{
    reveal_strlit("text/plain");
    reveal_strlit("text/plain;charset=utf-8");
    reveal_strlit("text/plain;charset=UTF-8");
    reveal_strlit("UTF8_STRING");
    reveal_strlit("STRING");
    reveal_strlit("TEXT");
    reveal_strlit("COMPOUND_TEXT");
    reveal_strlit("image/");
    if is_text_alias(m) {
        let i = choose|i: int| 0 <= i < TEXT_ALIASES@.len() && #[trigger] TEXT_ALIASES@[i]@ == m;
        assert(m.subrange(0, 6)[0] == m[0]);
        assert(m[0] == 'i');
        if i == 0 {
            assert(TEXT_ALIASES@[0]@[0] == 't');
        } else if i == 1 {
            assert(TEXT_ALIASES@[1]@[0] == 't');
        } else if i == 2 {
            assert(TEXT_ALIASES@[2]@[0] == 't');
        } else if i == 3 {
            assert(TEXT_ALIASES@[3]@[0] == 'U');
        } else if i == 4 {
            assert(TEXT_ALIASES@[4]@[0] == 'S');
        } else if i == 5 {
            assert(TEXT_ALIASES@[5]@[0] == 'T');
        } else {
            assert(TEXT_ALIASES@[6]@[0] == 'C');
        }
    }
}

/// What a stored entry can serve: any type serves itself, any text type
/// serves a request for any text type, any image type one for any image
/// type, a text type serves the usual names of plain text, and an image
/// never serves a request for text nor text one for an image.
pub proof fn law_compatibility(r: Seq<char>, t: Seq<char>)
    ensures
        compatible(r, r),
        has_prefix(r, "text/"@) && has_prefix(t, "text/"@) ==> compatible(r, t),
        has_prefix(r, "image/"@) && has_prefix(t, "image/"@) ==> compatible(r, t),
        is_text_alias(r) && has_prefix(t, "text/"@) ==> compatible(r, t),
        has_prefix(r, "text/"@) && has_prefix(t, "image/"@) ==> !compatible(r, t),
        has_prefix(r, "image/"@) && has_prefix(t, "text/"@) ==> !compatible(r, t),
{
    reveal_strlit("text/");
    reveal_strlit("image/");
    if has_prefix(r, "text/"@) && has_prefix(t, "image/"@) {
        lemma_aliases_not_image(t);
        assert(r.subrange(0, 5)[0] == r[0]);
        assert(t.subrange(0, 6)[0] == t[0]);
        assert(r[0] == 't' && t[0] == 'i');
        assert(!has_prefix(t, "text/"@)) by {
            if has_prefix(t, "text/"@) {
                assert(t.subrange(0, 5)[0] == t[0]);
            }
        }
        assert(!has_prefix(r, "image/"@)) by {
            if has_prefix(r, "image/"@) {
                assert(r.subrange(0, 6)[0] == r[0]);
            }
        }
    }
    if has_prefix(r, "image/"@) && has_prefix(t, "text/"@) {
        lemma_aliases_not_image(r);
        assert(r.subrange(0, 6)[0] == r[0]);
        assert(t.subrange(0, 5)[0] == t[0]);
        assert(r[0] == 'i' && t[0] == 't');
        assert(!has_prefix(r, "text/"@)) by {
            if has_prefix(r, "text/"@) {
                assert(r.subrange(0, 5)[0] == r[0]);
            }
        }
        assert(!has_prefix(t, "image/"@)) by {
            if has_prefix(t, "image/"@) {
                assert(t.subrange(0, 6)[0] == t[0]);
            }
        }
    }
}

/// `UTF8_STRING`, a usual name of plain text, is one.
pub proof fn law_utf8_string_is_text()
    ensures
        is_text_alias("UTF8_STRING"@),
{
    assert(TEXT_ALIASES@[3]@ == "UTF8_STRING"@);
}

/// What to do with a new selection.
pub enum SelectionPlan {
    /// Leave it: this process owns the selection, or nothing is offered.
    Ignore,
    /// Receive it in format `mime`, through an enlarged pipe when it is an image.
    Receive { mime: String, large_buffer: bool },
}

/// The format to receive from a selection offering `s`: without a request,
/// the usual choice; with one, the requested type when it is offered, else
/// the first offered type that can serve it, else the usual choice.
pub open spec fn planned_mime(requested: Option<Seq<char>>, s: Seq<Seq<char>>) -> Seq<char> {
    match requested {
        None => selected_mime(s),
        Some(req) => if s.contains(req) {
            req
        } else {
            match first_where(s, |m: Seq<char>| compatible(req, m)) {
                Some(m) => m,
                None => selected_mime(s),
            }
        },
    }
}

pub open spec fn plan_matches(
    plan: SelectionPlan,
    is_provider: bool,
    requested: Option<Seq<char>>,
    s: Seq<Seq<char>>,
) -> bool {
    if is_provider || s.len() == 0 {
        plan is Ignore
    } else {
        match plan {
            SelectionPlan::Receive { mime, large_buffer } => mime@ == planned_mime(requested, s)
                && large_buffer == has_prefix(planned_mime(requested, s), "image/"@),
            SelectionPlan::Ignore => false,
        }
    }
}

/// A requested format that the selection offers is the one received.
pub proof fn law_requested_is_taken(requested: Seq<char>, s: Seq<Seq<char>>)
    requires
        s.contains(requested),
    ensures
        planned_mime(Some(requested), s) == requested,
{
}

/// Whatever is requested, the format received is one that the selection
/// offers.
pub proof fn law_planned_is_offered(requested: Option<Seq<char>>, s: Seq<Seq<char>>)
    requires
        s.len() > 0,
    ensures
        s.contains(planned_mime(requested, s)),
{
    law_selected_is_offered(s);
    if let Some(req) = requested {
        lemma_first_where_member(s, |m: Seq<char>| compatible(req, m));
    }
}

/// Index of the first offered type satisfying a prefix test or equality.
fn first_offered_as(mimes: &[String], p: &str) -> (r: Option<usize>)
    ensures
        match r {
            Some(i) => is_first_index(string_views(mimes@), |m: Seq<char>| offered_as(m, p@), i as int),
            None => !exists|i: int| 0 <= i < mimes@.len() && offered_as(#[trigger] mimes@[i]@, p@),
        },
{
    let pc = chars_of(p);
    let mut with_param = pc.clone();
    with_param.push(';');
    assert(with_param@ == p@.push(';'));
    let ghost sv = string_views(mimes@);
    let mut i: usize = 0;
    while i < mimes.len()
        invariant
            sv == string_views(mimes@),
            pc@ == p@,
            with_param@ == p@.push(';'),
            i <= mimes@.len(),
            forall|j: int| 0 <= j < i ==> !offered_as(#[trigger] mimes@[j]@, p@),
        decreases mimes@.len() - i,
    {
        let mc = chars_of(mimes[i].as_str());
        if crate::text::chars_eq(mc.as_slice(), pc.as_slice()) || crate::text::starts_with_chars(
            mc.as_slice(),
            with_param.as_slice(),
        ) {
            assert forall|j: int| 0 <= j < i implies !offered_as(#[trigger] sv[j], p@) by {
                assert(sv[j] == mimes@[j]@);
            }
            return Some(i);
        }
        i += 1;
    }
    None
}

/// Index of the first offered type starting with `p`.
fn first_with_prefix(mimes: &[String], p: &str) -> (r: Option<usize>)
    ensures
        match r {
            Some(i) => is_first_index(string_views(mimes@), |m: Seq<char>| has_prefix(m, p@), i as int),
            None => !exists|i: int| 0 <= i < mimes@.len() && has_prefix(#[trigger] mimes@[i]@, p@),
        },
{
    let ghost sv = string_views(mimes@);
    let mut i: usize = 0;
    while i < mimes.len()
        invariant
            sv == string_views(mimes@),
            i <= mimes@.len(),
            forall|j: int| 0 <= j < i ==> !has_prefix(#[trigger] mimes@[j]@, p@),
        decreases mimes@.len() - i,
    {
        if str_starts_with(mimes[i].as_str(), p) {
            assert forall|j: int| 0 <= j < i implies !has_prefix(#[trigger] sv[j], p@) by {
                assert(sv[j] == mimes@[j]@);
            }
            return Some(i);
        }
        i += 1;
    }
    None
}

proof fn lemma_first_where(s: Seq<Seq<char>>, pred: spec_fn(Seq<char>) -> bool, i: int)
    requires
        is_first_index(s, pred, i),
    ensures
        first_where(s, pred) == Some(s[i]),
{
    let c = choose|c: int| is_first_index(s, pred, c);
    assert(is_first_index(s, pred, c));
    if c < i {
        assert(!pred(s[c]));
    } else if i < c {
        assert(!pred(s[i]));
    }
}

proof fn lemma_first_where_none(s: Seq<Seq<char>>, pred: spec_fn(Seq<char>) -> bool)
    requires
        forall|i: int| 0 <= i < s.len() ==> !pred(#[trigger] s[i]),
    ensures
        first_where(s, pred) is None,
{
    if exists|i: int| is_first_index(s, pred, i) {
        let c = choose|c: int| is_first_index(s, pred, c);
        assert(!pred(s[c]));
    }
}

/// Index of the first offered type equal to `req`.
fn first_equal(mimes: &[String], req: &str) -> (r: Option<usize>)
    ensures
        match r {
            Some(i) => i < mimes@.len() && mimes@[i as int]@ == req@,
            None => !string_views(mimes@).contains(req@),
        },
{
    let ghost sv = string_views(mimes@);
    let mut i: usize = 0;
    while i < mimes.len()
        invariant
            sv == string_views(mimes@),
            i <= mimes@.len(),
            forall|j: int| 0 <= j < i ==> #[trigger] mimes@[j]@ != req@,
        decreases mimes@.len() - i,
    {
        if str_eq(mimes[i].as_str(), req) {
            return Some(i);
        }
        i += 1;
    }
    proof {
        if sv.contains(req@) {
            let j = choose|j: int| 0 <= j < sv.len() && sv[j] == req@;
            assert(mimes@[j]@ != req@);
        }
    }
    None
}

/// Index of the first offered type that can serve a request for `req`.
fn first_compatible(mimes: &[String], req: &str) -> (r: Option<usize>)
    ensures
        match r {
            Some(i) => is_first_index(string_views(mimes@), |m: Seq<char>| compatible(req@, m), i as int),
            None => forall|i: int| 0 <= i < mimes@.len() ==> !compatible(req@, #[trigger] mimes@[i]@),
        },
{
    let ghost sv = string_views(mimes@);
    let mut i: usize = 0;
    while i < mimes.len()
        invariant
            sv == string_views(mimes@),
            i <= mimes@.len(),
            forall|j: int| 0 <= j < i ==> !compatible(req@, #[trigger] mimes@[j]@),
        decreases mimes@.len() - i,
    {
        if mime_is_compatible(req, mimes[i].as_str()) {
            assert forall|j: int| 0 <= j < i implies !(|m: Seq<char>| compatible(req@, m))(#[trigger] sv[j]) by {
                assert(sv[j] == mimes@[j]@);
            }
            return Some(i);
        }
        i += 1;
    }
    None
}

/// The MIME type to take from a selection offering `mimes`.
pub fn select_mime(mimes: &[String]) -> (r: String)
    ensures
        r@ == selected_mime(string_views(mimes@)),
{
    let ghost sv = string_views(mimes@);
    let mut k: usize = 0;
    while k < SELECTION_PRIORITY.len()
        invariant
            sv == string_views(mimes@),
            k <= SELECTION_PRIORITY@.len(),
            by_priority(sv, 0) == by_priority(sv, k as int),
        decreases SELECTION_PRIORITY@.len() - k,
    {
        match first_offered_as(mimes, SELECTION_PRIORITY[k]) {
            Some(i) => {
                proof {
                    lemma_first_where(sv, |m: Seq<char>| offered_as(m, SELECTION_PRIORITY@[k as int]@), i as int);
                }
                return mimes[i].clone();
            },
            None => {
                proof {
                    assert forall|i: int| 0 <= i < sv.len() implies !(|m: Seq<char>| offered_as(m, SELECTION_PRIORITY@[k as int]@))(#[trigger] sv[i]) by {
                        assert(sv[i] == mimes@[i]@);
                    }
                    lemma_first_where_none(sv, |m: Seq<char>| offered_as(m, SELECTION_PRIORITY@[k as int]@));
                }
            },
        }
        k += 1;
    }
    assert(by_priority(sv, k as int) is None);
    match first_with_prefix(mimes, "image/") {
        Some(i) => {
            proof {
                lemma_first_where(sv, |m: Seq<char>| has_prefix(m, "image/"@), i as int);
            }
            return mimes[i].clone();
        },
        None => {
            proof {
                assert forall|i: int| 0 <= i < sv.len() implies !(|m: Seq<char>| has_prefix(m, "image/"@))(#[trigger] sv[i]) by {
                    assert(sv[i] == mimes@[i]@);
                }
                lemma_first_where_none(sv, |m: Seq<char>| has_prefix(m, "image/"@));
            }
        },
    }
    match first_with_prefix(mimes, "text/") {
        Some(i) => {
            proof {
                lemma_first_where(sv, |m: Seq<char>| has_prefix(m, "text/"@), i as int);
            }
            return mimes[i].clone();
        },
        None => {
            proof {
                assert forall|i: int| 0 <= i < sv.len() implies !(|m: Seq<char>| has_prefix(m, "text/"@))(#[trigger] sv[i]) by {
                    assert(sv[i] == mimes@[i]@);
                }
                lemma_first_where_none(sv, |m: Seq<char>| has_prefix(m, "text/"@));
            }
        },
    }
    if mimes.len() > 0 {
        mimes[0].clone()
    } else {
        DEFAULT_MIME.to_owned()
    }
}

/// Decides what to do with a new selection whose offer lists `mimes`, when
/// this process is (`is_provider`) or is not the selection's owner, and
/// when a format was (`requested`) or was not asked for.
pub fn plan_selection(is_provider: bool, requested: Option<&str>, mimes: &[String]) -> (r: SelectionPlan)
    ensures
        plan_matches(r, is_provider, opt_str_view(requested), string_views(mimes@)),
{
    if is_provider || mimes.len() == 0 {
        return SelectionPlan::Ignore;
    }
    let ghost sv = string_views(mimes@);
    let mime = match requested {
        None => select_mime(mimes),
        Some(req) => match first_equal(mimes, req) {
            Some(i) => {
                assert(sv[i as int] == mimes@[i as int]@);
                mimes[i].clone()
            },
            None => match first_compatible(mimes, req) {
                Some(i) => {
                    proof {
                        lemma_first_where(sv, |m: Seq<char>| compatible(req@, m), i as int);
                    }
                    mimes[i].clone()
                },
                None => {
                    proof {
                        assert forall|i: int| 0 <= i < sv.len() implies !(|m: Seq<char>| compatible(req@, m))(#[trigger] sv[i]) by {
                            assert(sv[i] == mimes@[i]@);
                        }
                        lemma_first_where_none(sv, |m: Seq<char>| compatible(req@, m));
                    }
                    select_mime(mimes)
                },
            },
        },
    };
    let large_buffer = str_starts_with(mime.as_str(), "image/");
    SelectionPlan::Receive { mime, large_buffer }
}

/// MIME types offered when putting an entry of type `mime` back on the
/// clipboard: `mime` itself, then, for text, the usual text names.
pub open spec fn offered_types(mime: Seq<char>) -> Seq<Seq<char>> {
    if has_infix(mime, "text"@) {
        seq![mime] + Seq::new(TEXT_MIME_ALTS@.len(), |k: int| TEXT_MIME_ALTS@[k]@)
    } else {
        seq![mime]
    }
}

/// The MIME types to offer for an entry of type `mime`.
pub fn offer_mimes(mime: &str) -> (r: Vec<String>)
    ensures
        string_views(r@) == offered_types(mime@),
{
    let mut r: Vec<String> = Vec::new();
    r.push(mime.to_owned());
    if str_contains(mime, "text") {
        let mut k: usize = 0;
        while k < TEXT_MIME_ALTS.len()
            invariant
                k <= TEXT_MIME_ALTS@.len(),
                r@.len() == k + 1,
                r@[0]@ == mime@,
                forall|j: int| 0 <= j < k ==> #[trigger] r@[j + 1]@ == TEXT_MIME_ALTS@[j]@,
            decreases TEXT_MIME_ALTS@.len() - k,
        {
            r.push(TEXT_MIME_ALTS[k].to_owned());
            k += 1;
        }
        assert forall|j: int| 0 <= j < r@.len() implies string_views(r@)[j] == offered_types(mime@)[j] by {
            if j > 0 {
                assert(r@[(j - 1) + 1]@ == TEXT_MIME_ALTS@[j - 1]@);
            }
        }
        assert(string_views(r@) =~= offered_types(mime@));
    } else {
        assert(string_views(r@) =~= offered_types(mime@));
    }
    r
}

/// Image MIME type of a file by its already lower-cased extension.
pub open spec fn image_type_of(ext: Seq<char>) -> Option<Seq<char>> {
    if ext == "png"@ {
        Some("image/png"@)
    } else if ext == "jpg"@ || ext == "jpeg"@ {
        Some("image/jpeg"@)
    } else if ext == "webp"@ {
        Some("image/webp"@)
    } else if ext == "gif"@ {
        Some("image/gif"@)
    } else {
        None
    }
}

pub open spec fn opt_str_view(o: Option<&str>) -> Option<Seq<char>> {
    match o {
        Some(s) => Some(s@),
        None => None,
    }
}

/// The image MIME type for an already lower-cased file extension.
pub fn image_mime_for_lowered_extension(ext: &str) -> (r: Option<&'static str>)
    ensures
        opt_str_view(r) == image_type_of(ext@),
{
    if str_eq(ext, "png") {
        Some("image/png")
    } else if str_eq(ext, "jpg") || str_eq(ext, "jpeg") {
        Some("image/jpeg")
    } else if str_eq(ext, "webp") {
        Some("image/webp")
    } else if str_eq(ext, "gif") {
        Some("image/gif")
    } else {
        None
    }
}

/// The image MIME type for a file extension, compared in lower case.
pub fn image_mime_for_extension(ext: &str) -> (r: Option<&'static str>)
    ensures
        opt_str_view(r) == image_type_of(lowercase_of(ext@)),
{
    let lowered = to_lowercase(ext);
    image_mime_for_lowered_extension(lowered.as_str())
}

/// How a Wayland global is to be bound.
#[derive(Debug, Clone, Copy, PartialEq, Eq, Structural)]
pub enum GlobalBinding {
    /// Bind it as the clipboard control manager.
    Manager,
    /// Bind it as the seat.
    Seat,
    /// Leave it.
    Ignore,
}

/// Binding of a global announced under `interface`: the control manager
/// always, a seat only while none is bound.
pub open spec fn global_binding(interface: Seq<char>, seat_bound: bool) -> GlobalBinding {
    if interface == INTERFACE_MANAGER@ {
        GlobalBinding::Manager
    } else if interface == INTERFACE_SEAT@ && !seat_bound {
        GlobalBinding::Seat
    } else {
        GlobalBinding::Ignore
    }
}

/// Decides how to bind a Wayland global announced under `interface`.
pub fn classify_global(interface: &str, seat_bound: bool) -> (r: GlobalBinding)
    ensures
        r == global_binding(interface@, seat_bound),
{
    if str_eq(interface, INTERFACE_MANAGER) {
        GlobalBinding::Manager
    } else if str_eq(interface, INTERFACE_SEAT) && !seat_bound {
        GlobalBinding::Seat
    } else {
        GlobalBinding::Ignore
    }
}

/// An entry is offered back under its own type first; a text entry also
/// under each usual name of text, and any other entry under its type alone.
pub proof fn law_offered_types(mime: Seq<char>)
    ensures
        offered_types(mime).len() >= 1,
        offered_types(mime)[0] == mime,
        has_infix(mime, "text"@) ==> forall|k: int|
            0 <= k < TEXT_MIME_ALTS@.len() ==> offered_types(mime).contains(#[trigger] TEXT_MIME_ALTS@[k]@),
        has_infix(mime, "text"@) ==> offered_types(mime).len() == 1 + TEXT_MIME_ALTS@.len(),
        !has_infix(mime, "text"@) ==> offered_types(mime) == seq![mime],
{
    if has_infix(mime, "text"@) {
        assert forall|k: int| 0 <= k < TEXT_MIME_ALTS@.len() implies offered_types(mime).contains(
            #[trigger] TEXT_MIME_ALTS@[k]@,
        ) by {
            assert(offered_types(mime)[k + 1] == TEXT_MIME_ALTS@[k]@);
        }
    }
}

/// File extensions that name images: `png`, `jpg` and `jpeg`, `webp`, `gif`
/// map to their image types; an empty or other extension names none.
pub proof fn law_image_types()
    ensures
        image_type_of("png"@) == Some("image/png"@),
        image_type_of("jpg"@) == Some("image/jpeg"@),
        image_type_of("jpeg"@) == Some("image/jpeg"@),
        image_type_of("webp"@) == Some("image/webp"@),
        image_type_of("gif"@) == Some("image/gif"@),
        image_type_of("txt"@) is None,
        image_type_of(Seq::empty()) is None,
{
    reveal_strlit("png");
    reveal_strlit("jpg");
    reveal_strlit("jpeg");
    reveal_strlit("webp");
    reveal_strlit("gif");
    reveal_strlit("txt");
    assert("jpg"@[0] != "png"@[0]);
    assert("jpeg"@.len() != "png"@.len());
    assert("jpeg"@.len() != "jpg"@.len());
    assert("webp"@.len() != "png"@.len());
    assert("webp"@.len() != "jpg"@.len());
    assert("webp"@[0] != "jpeg"@[0]);
    assert("gif"@[0] != "png"@[0]);
    assert("gif"@[0] != "jpg"@[0]);
    assert("gif"@.len() != "jpeg"@.len());
    assert("gif"@.len() != "webp"@.len());
    assert("txt"@[0] != "png"@[0]);
    assert("txt"@[0] != "jpg"@[0]);
    assert("txt"@.len() != "jpeg"@.len());
    assert("txt"@.len() != "webp"@.len());
    assert("txt"@[0] != "gif"@[0]);
}

/// The control manager is always bound; a seat only while none is bound;
/// every other global is left.
pub proof fn law_global_binding(interface: Seq<char>, seat_bound: bool)
    ensures
        global_binding(INTERFACE_MANAGER@, seat_bound) == GlobalBinding::Manager,
        global_binding(INTERFACE_SEAT@, false) == GlobalBinding::Seat,
        global_binding(INTERFACE_SEAT@, true) == GlobalBinding::Ignore,
        interface != INTERFACE_MANAGER@ && interface != INTERFACE_SEAT@ ==> global_binding(interface, seat_bound)
            == GlobalBinding::Ignore,
{
    reveal_strlit("ext_data_control_manager_v1");
    reveal_strlit("wl_seat");
    assert(INTERFACE_SEAT@.len() != INTERFACE_MANAGER@.len());
}

/// A selection is left when this process owns it or nothing is offered;
/// otherwise it is received in an offered format, through an enlarged pipe
/// exactly when that format is an image.
pub proof fn law_plan(plan: SelectionPlan, is_provider: bool, requested: Option<Seq<char>>, s: Seq<Seq<char>>)
    requires
        plan_matches(plan, is_provider, requested, s),
    ensures
        is_provider || s.len() == 0 ==> plan is Ignore,
        !is_provider && s.len() > 0 ==> (plan matches SelectionPlan::Receive { mime, large_buffer } && s.contains(
            mime@,
        ) && large_buffer == has_prefix(mime@, "image/"@)),
{
    if !is_provider && s.len() > 0 {
        law_planned_is_offered(requested, s);
    }
}

} // verus!
