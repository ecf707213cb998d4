//! Regular-expression searches over UTF-8 byte strings.
//!
//! Every pattern is compiled case-insensitively in Unicode mode.  What a
//! search finds is named by an uninterpreted function of the pattern and the
//! subject; the verified helpers here (`spans`, `has_match`, `full`,
//! `find`) state their results over those names.  A match that splits a
//! character of a UTF-8 subject (possible with `\C`) is checked for here:
//! `find` treats it as no match and `spans` reports it as an error.
use crate::text::utf8_str;
use crate::ParseError;
use pcre2::bytes::RegexBuilder;
use vstd::prelude::*;
use vstd::utf8::*;

verus! {

/// The captures of every successive non-overlapping match of `pattern` in
/// `subject`: for each match the byte range of the whole match (group 0) and
/// of group 1, when group 1 took part; or the error message when the pattern
/// does not compile or the search fails.
pub uninterp spec fn capture_matches(pattern: Seq<char>, subject: Seq<u8>) -> Result<
    Seq<(Option<(int, int)>, Option<(int, int)>)>,
    Seq<char>,
>;

/// The byte range of the leftmost-first match of `pattern` in `subject`
/// (`Some(None)` when there is none), or `None` when the pattern does not
/// compile or the search fails.
pub uninterp spec fn first_match(pattern: Seq<char>, subject: Seq<u8>) -> Option<Option<(int, int)>>;

/// Whether `pattern` matches somewhere in `subject`, or `None` when the
/// pattern does not compile or the search fails.
pub uninterp spec fn match_found(pattern: Seq<char>, subject: Seq<u8>) -> Option<bool>;

/// A byte range `(start, end)` that lies inside `subject`.
pub open spec fn in_bounds(subject: Seq<u8>, range: (int, int)) -> bool {
    0 <= range.0 <= range.1 <= subject.len()
}

/// A byte range `(start, end)` that lies inside `subject` and, when the subject
/// is valid UTF-8, starts and ends on character boundaries.
pub open spec fn well_placed(subject: Seq<u8>, range: (int, int)) -> bool {
    &&& in_bounds(subject, range)
    &&& valid_utf8(subject) ==> is_char_boundary(subject, range.0) && is_char_boundary(
        subject,
        range.1,
    )
}

pub open spec fn view_range(r: (usize, usize)) -> (int, int) {
    (r.0 as int, r.1 as int)
}

pub open spec fn view_opt_range(r: Option<(usize, usize)>) -> Option<(int, int)> {
    match r {
        Some(x) => Some(view_range(x)),
        None => None,
    }
}

pub open spec fn view_capture(c: (Option<(usize, usize)>, Option<(usize, usize)>)) -> (
    Option<(int, int)>,
    Option<(int, int)>,
) {
    (view_opt_range(c.0), view_opt_range(c.1))
}

/// Calls `pcre2::bytes::Regex::captures_iter` on a regex compiled from
/// `pattern` (case-insensitive, Unicode mode) and collects, per match, the
/// ranges of group 0 and group 1.  Claimed: the result is the named
/// `capture_matches`; group 0 is present in every match (it is the match
/// itself); every range lies inside the subject with start <= end; and the
/// matches come in order without overlapping (each search resumes at the end
/// of the previous match).  Nothing is claimed of character boundaries: in
/// Unicode mode `\C` still matches a single byte.
#[verifier::external_body]
fn pcre2_captures(pattern: &str, subject: &[u8]) -> (r: Result<
    Vec<(Option<(usize, usize)>, Option<(usize, usize)>)>,
    String,
>)
    ensures
        match r {
            Ok(v) => capture_matches(pattern@, subject@) == Ok::<
                Seq<(Option<(int, int)>, Option<(int, int)>)>,
                Seq<char>,
            >(v@.map_values(|c| view_capture(c))),
            Err(m) => capture_matches(pattern@, subject@) == Err::<
                Seq<(Option<(int, int)>, Option<(int, int)>)>,
                Seq<char>,
            >(m@),
        },
        r matches Ok(v) ==> forall|i: int|
            0 <= i < v@.len() ==> {
                &&& (#[trigger] v@[i]).0 is Some
                &&& in_bounds(subject@, view_range(v@[i].0->0))
                &&& v@[i].1 matches Some(g) ==> in_bounds(subject@, view_range(g))
            },
        r matches Ok(v) ==> forall|i: int, j: int|
            0 <= i < j < v@.len() ==> ((#[trigger] v@[i]).0->0).1 <= ((#[trigger] v@[j]).0->0).0,
{
    let re = RegexBuilder::new().caseless(true).ucp(true).build(pattern).map_err(|e| e.to_string())?;
    re.captures_iter(subject).map(|c| {
        let c = c.map_err(|e| e.to_string())?;
        Ok((c.get(0).map(|m| (m.start(), m.end())), c.get(1).map(|m| (m.start(), m.end()))))
    }).collect()
}

/// Calls `pcre2::bytes::Regex::find` on a regex compiled from `pattern`
/// (case-insensitive, Unicode mode).  Claimed: the result is the named
/// `first_match`, and a match range lies inside the subject with start <=
/// end.  Nothing is claimed of character boundaries.
#[verifier::external_body]
fn pcre2_find(pattern: &str, subject: &[u8]) -> (r: Option<Option<(usize, usize)>>)
    ensures
        match r {
            Some(Some(m)) => first_match(pattern@, subject@) == Some(Some(view_range(m)))
                && in_bounds(subject@, view_range(m)),
            Some(None) => first_match(pattern@, subject@) == Some(None::<(int, int)>),
            None => first_match(pattern@, subject@) == None::<Option<(int, int)>>,
        },
{
    let re = RegexBuilder::new().caseless(true).ucp(true).build(pattern).ok()?;
    re.find(subject).ok().map(|m| m.map(|m| (m.start(), m.end())))
}

/// Calls `pcre2::bytes::Regex::is_match` on a regex compiled from `pattern`
/// (case-insensitive, Unicode mode).  Claimed: the result is the named
/// `match_found`.
#[verifier::external_body]
fn pcre2_is_match(pattern: &str, subject: &[u8]) -> (r: Option<bool>)
    ensures
        r == match_found(pattern@, subject@),
{
    let re = RegexBuilder::new().caseless(true).ucp(true).build(pattern).ok()?;
    re.is_match(subject).ok()
}


/// The match found by a search; errors, and a match that splits a
/// character of a UTF-8 subject, count as no match.
pub open spec fn found_in(pattern: Seq<char>, subject: Seq<u8>) -> Option<(int, int)> {
    match first_match(pattern, subject) {
        Some(Some(m)) => if well_placed(subject, m) {
            Some(m)
        } else {
            None
        },
        _ => None,
    }
}

/// `pattern` matches somewhere in `subject` (errors counting as no match).
pub open spec fn matches_in(pattern: Seq<char>, subject: Seq<u8>) -> bool {
    match_found(pattern, subject) == Some(true)
}

/// The first match of `pattern` covers the whole of `subject`.
pub open spec fn fully_matches(pattern: Seq<char>, subject: Seq<u8>) -> bool {
    found_in(pattern, subject) matches Some(m) && m.0 == 0 && m.1 == subject.len()
}

/// One span: the range of a whole match and the text of its group 1, or of
/// the whole match when group 1 did not take part.
pub open spec fn span_of(
    subject: Seq<u8>,
    c: (Option<(int, int)>, Option<(int, int)>),
) -> (int, int, Seq<u8>) {
    let whole = c.0->0;
    let value = match c.1 {
        Some(g) => g,
        None => whole,
    };
    (whole.0, whole.1, subject.subrange(value.0, value.1))
}

/// The message of a search whose match splits a character.
pub const SPLIT_MATCH: &'static str = "a match splits a character";

/// Every match has its whole range and its group-1 range (when present) in
/// `subject`, on character boundaries of a valid UTF-8 subject.
pub open spec fn captures_placed(subject: Seq<u8>, cs: Seq<(Option<(int, int)>, Option<(int, int)>)>) -> bool {
    forall|i: int|
        0 <= i < cs.len() ==> {
            &&& (#[trigger] cs[i]).0 is Some
            &&& well_placed(subject, cs[i].0->0)
            &&& cs[i].1 matches Some(g) ==> well_placed(subject, g)
        }
}

/// The spans of every match of `pattern` in `subject`, or the error message;
/// a match that splits a character of a UTF-8 subject is an error.
pub open spec fn spans_of(pattern: Seq<char>, subject: Seq<u8>) -> Result<
    Seq<(int, int, Seq<u8>)>,
    Seq<char>,
> {
    match capture_matches(pattern, subject) {
        Ok(cs) => if captures_placed(subject, cs) {
            Ok(cs.map_values(|c| span_of(subject, c)))
        } else {
            Err(SPLIT_MATCH@)
        },
        Err(m) => Err(m),
    }
}

/// Successive spans do not overlap: each ends before the next starts.
pub open spec fn spans_ordered(spans: Seq<(int, int, Seq<u8>)>) -> bool {
    forall|i: int, j: int| 0 <= i < j < spans.len() ==> (#[trigger] spans[i]).1 <= (#[trigger] spans[j]).0
}

/// The spans of a search, an error counting as no span at all.
pub open spec fn spans_or_empty(pattern: Seq<char>, subject: Seq<u8>) -> Seq<(int, int, Seq<u8>)> {
    match spans_of(pattern, subject) {
        Ok(s) => s,
        Err(_) => Seq::empty(),
    }
}

pub open spec fn view_span(s: (usize, usize, Vec<u8>)) -> (int, int, Seq<u8>) {
    (s.0 as int, s.1 as int, s.2@)
}

pub open spec fn view_spans(v: Seq<(usize, usize, Vec<u8>)>) -> Seq<(int, int, Seq<u8>)> {
    v.map_values(|s| view_span(s))
}

/// Every whole-match range of `spans` lies in `subject`, ordered, on
/// character boundaries of a valid UTF-8 subject.
pub open spec fn spans_placed(subject: Seq<u8>, spans: Seq<(int, int, Seq<u8>)>) -> bool {
    forall|i: int|
        0 <= i < spans.len() ==> well_placed(subject, ((#[trigger] spans[i]).0, spans[i].1))
}

/// Every span's text is a character-aligned slice of a valid UTF-8 subject.
pub open spec fn span_texts_valid(subject: Seq<u8>, spans: Seq<(int, int, Seq<u8>)>) -> bool {
    valid_utf8(subject) ==> forall|i: int|
        0 <= i < spans.len() ==> valid_utf8((#[trigger] spans[i]).2)
}

/// Whether `pattern` matches in `text`; a failed search counts as no match.
pub fn has_match(pattern: &str, text: &[u8]) -> (r: bool)
    ensures
        r == matches_in(pattern@, text@),
{
    match pcre2_is_match(pattern, text) {
        Some(b) => b,
        None => false,
    }
}

/// Whether byte `i` of a valid UTF-8 `text` starts a character (or is its
/// end).
fn at_boundary(text: &[u8], i: usize) -> (r: bool)
    requires
        valid_utf8(text@),
        i <= text@.len(),
    ensures
        r == is_char_boundary(text@, i as int),
{
    proof {
        is_char_boundary_start_end_of_seq(text@);
        if i < text@.len() {
            is_char_boundary_iff_not_is_continuation_byte(text@, i as int);
        }
    }
    i == text.len() || !(0x80 <= text[i] && text[i] <= 0xbf)
}

/// Whether `range` lies in `text` on character boundaries; `valid` tells
/// whether `text` is valid UTF-8.
fn placed(text: &[u8], valid: bool, range: (usize, usize)) -> (r: bool)
    requires
        valid == valid_utf8(text@),
        in_bounds(text@, view_range(range)),
    ensures
        r == well_placed(text@, view_range(range)),
{
    !valid || (at_boundary(text, range.0) && at_boundary(text, range.1))
}

/// The first match of `pattern` in `text`; a failed search, or a match that
/// splits a character of a UTF-8 text, counts as none.
pub fn find(pattern: &str, text: &[u8]) -> (r: Option<(usize, usize)>)
    ensures
        view_opt_range(r) == found_in(pattern@, text@),
        r matches Some(m) ==> well_placed(text@, view_range(m)),
{
    match pcre2_find(pattern, text) {
        Some(Some(m)) => {
            let valid = utf8_str(text).is_some();
            if placed(text, valid, m) {
                Some(m)
            } else {
                None
            }
        },
        _ => None,
    }
}

/// Whether the first match of `pattern` spans the whole of `text`.
pub fn full(pattern: &str, text: &[u8]) -> (r: bool)
    ensures
        r == fully_matches(pattern@, text@),
{
    match find(pattern, text) {
        Some(m) => m.0 == 0 && m.1 == text.len(),
        None => false,
    }
}

/// The span of every match of `pattern` in `text`: the byte range of the
/// match and the bytes of its first group (or of the match itself).
pub fn spans(pattern: &str, text: &[u8]) -> (r: Result<Vec<(usize, usize, Vec<u8>)>, ParseError>)
    ensures
        match r {
            Ok(v) => spans_of(pattern@, text@) == Ok::<Seq<(int, int, Seq<u8>)>, Seq<char>>(
                view_spans(v@),
            ),
            Err(ParseError::Regex(m)) => spans_of(pattern@, text@) == Err::<
                Seq<(int, int, Seq<u8>)>,
                Seq<char>,
            >(m@),
        },
        r matches Ok(v) ==> spans_placed(text@, view_spans(v@)) && span_texts_valid(
            text@,
            view_spans(v@),
        ),
        r matches Ok(v) ==> spans_ordered(view_spans(v@)),
{
    let caps = match pcre2_captures(pattern, text) {
        Ok(c) => c,
        Err(m) => return Err(ParseError::Regex(m)),
    };
    let ghost cs = caps@.map_values(|c| view_capture(c));
    let valid = utf8_str(text).is_some();
    let mut i: usize = 0;
    while i < caps.len()
        invariant
            i <= caps@.len(),
            valid == valid_utf8(text@),
            cs == caps@.map_values(|c| view_capture(c)),
            capture_matches(pattern@, text@) == Ok::<
                Seq<(Option<(int, int)>, Option<(int, int)>)>,
                Seq<char>,
            >(cs),
            forall|k: int|
                0 <= k < caps@.len() ==> {
                    &&& (#[trigger] caps@[k]).0 is Some
                    &&& in_bounds(text@, view_range(caps@[k].0->0))
                    &&& caps@[k].1 matches Some(g) ==> in_bounds(text@, view_range(g))
                },
            forall|k: int|
                0 <= k < i ==> {
                    &&& well_placed(text@, view_range((#[trigger] caps@[k]).0->0))
                    &&& caps@[k].1 matches Some(g) ==> well_placed(text@, view_range(g))
                },
        decreases caps@.len() - i,
    {
        let whole = match caps[i].0 {
            Some(w) => w,
            None => (0, 0),
        };
        let group_ok = match caps[i].1 {
            Some(g) => placed(text, valid, g),
            None => true,
        };
        if !placed(text, valid, whole) || !group_ok {
            proof {
                assert(!captures_placed(text@, cs)) by {
                    assert(cs[i as int] == view_capture(caps@[i as int]));
                }
            }
            let msg = SPLIT_MATCH.to_owned();
            assert(msg@ == SPLIT_MATCH@);
            assert(spans_of(pattern@, text@) == Err::<Seq<(int, int, Seq<u8>)>, Seq<char>>(msg@));
            return Err(ParseError::Regex(msg));
        }
        i = i + 1;
    }
    assert(captures_placed(text@, cs)) by {
        assert forall|k: int| 0 <= k < cs.len() implies {
            &&& (#[trigger] cs[k]).0 is Some
            &&& well_placed(text@, cs[k].0->0)
            &&& cs[k].1 matches Some(g) ==> well_placed(text@, g)
        } by {
            assert(cs[k] == view_capture(caps@[k]));
        }
    }
    let mut out: Vec<(usize, usize, Vec<u8>)> = Vec::new();
    let mut i: usize = 0;
    while i < caps.len()
        invariant
            i <= caps@.len(),
            cs == caps@.map_values(|c| view_capture(c)),
            forall|k: int|
                0 <= k < caps@.len() ==> {
                    &&& (#[trigger] caps@[k]).0 is Some
                    &&& well_placed(text@, view_range(caps@[k].0->0))
                    &&& caps@[k].1 matches Some(g) ==> well_placed(text@, view_range(g))
                },
            out@.len() == i,
            forall|k: int| 0 <= k < i ==> view_span(#[trigger] out@[k]) == span_of(text@, cs[k]),
            forall|k: int| 0 <= k < i ==> valid_utf8(text@) ==> valid_utf8((#[trigger] out@[k]).2@),
        decreases caps@.len() - i,
    {
        let whole = match caps[i].0 {
            Some(w) => w,
            None => (0, 0),
        };
        let value = match caps[i].1 {
            Some(g) => g,
            None => whole,
        };
        let bytes = vstd::slice::slice_to_vec(&text[value.0..value.1]);
        proof {
            if valid_utf8(text@) {
                utf8_slice_valid(text@, value.0 as int, value.1 as int);
            }
        }
        out.push((whole.0, whole.1, bytes));
        i = i + 1;
    }
    proof {
        assert(view_spans(out@) =~= cs.map_values(|c| span_of(text@, c)));
        assert forall|a: int, b: int| 0 <= a < b < view_spans(out@).len() implies (#[trigger] view_spans(
            out@,
        )[a]).1 <= (#[trigger] view_spans(out@)[b]).0 by {
            assert(view_spans(out@)[a] == span_of(text@, cs[a]));
            assert(view_spans(out@)[b] == span_of(text@, cs[b]));
            assert(cs[a] == view_capture(caps@[a]));
            assert(cs[b] == view_capture(caps@[b]));
        }
    }
    Ok(out)
}

/// The position after an ASCII byte at a character boundary is a
/// character boundary.
pub proof fn ascii_next_boundary(b: Seq<u8>, i: int)
    requires
        valid_utf8(b),
        0 <= i < b.len(),
        is_char_boundary(b, i),
        b[i] < 0x80,
    ensures
        is_char_boundary(b, i + 1),
{
    broadcast use group_utf8_lib;

    valid_utf8_split(b, i);
    let s = b.subrange(i, b.len() as int);
    assert(s[0] == b[i]);
    assert(length_of_first_scalar(s) == 1);
    assert(is_char_boundary(s, 1)) by {
        reveal_with_fuel(is_char_boundary, 2);
        is_char_boundary_start_end_of_seq(pop_first_scalar(s));
    }
    if i + 1 < b.len() {
        is_char_boundary_iff_not_is_continuation_byte(s, 1);
        is_char_boundary_iff_not_is_continuation_byte(b, i + 1);
        assert(s[1] == b[i + 1]);
    } else {
        is_char_boundary_start_end_of_seq(b);
    }
}

/// A slice of valid UTF-8 between two character boundaries is valid UTF-8.
pub proof fn utf8_slice_valid(s: Seq<u8>, a: int, b: int)
    requires
        valid_utf8(s),
        0 <= a <= b <= s.len(),
        is_char_boundary(s, a),
        is_char_boundary(s, b),
    ensures
        valid_utf8(s.subrange(a, b)),
{
    broadcast use group_utf8_lib;
    valid_utf8_split(s, a);
    let tail = s.subrange(a, s.len() as int);
    assert(is_char_boundary(tail, b - a)) by {
        if b == s.len() {
            is_char_boundary_start_end_of_seq(tail);
        } else {
            is_char_boundary_iff_not_is_continuation_byte(s, b);
            is_char_boundary_iff_not_is_continuation_byte(tail, b - a);
            assert(tail[b - a] == s[b]);
        }
    }
    valid_utf8_split(tail, b - a);
    assert(tail.subrange(0, b - a) =~= s.subrange(a, b));
}


/// The message of an error.
pub open spec fn message(e: ParseError) -> Seq<char> {
    match e {
        ParseError::Regex(m) => m@,
    }
}

/// The text that valid UTF-8 bytes encode.
pub fn text_of(b: &[u8]) -> (r: String)
    requires
        valid_utf8(b@),
    ensures
        r@ == decode_utf8(b@),
{
    match utf8_str(b) {
        Some(s) => s.to_owned(),
        None => String::new(),
    }
}

} // verus!
