//! Technical labels in a title: refined audio formats, channel layouts, HDR
//! formats and Dolby Vision profiles.
use crate::details::{overlaps, Details};
use crate::fields::Record;
use crate::matching::{
    ascii_next_boundary, has_match, matches_in, message, spans, spans_of, spans_placed,
    span_texts_valid, text_of, utf8_slice_valid, view_span, view_spans, well_placed,
};
use crate::patterns::{CHANNELS_AT_START, CODEC_BEFORE, NUMBER_BEFORE, SIZE_UNIT};
use crate::text::{alphanumeric, chars_of, is_alphanumeric, push_char, same};
use crate::ParseError;
use vstd::prelude::*;
use vstd::utf8::{decode_utf8, is_char_boundary, valid_utf8};

verus! {

/// One technical pattern: the field it fills, its regular expression and
/// the value it records (the matched text when it has none).
pub struct TechnicalPattern {
    pub field: &'static str,
    pub pattern: String,
    pub value: Option<&'static str>,
}

/// A technical pattern as values: field, regular expression, fixed value.
pub type TechnicalView = (Seq<char>, Seq<char>, Option<Seq<char>>);

pub open spec fn technical_view(p: TechnicalPattern) -> TechnicalView {
    (
        p.field@,
        p.pattern@,
        match p.value {
            Some(v) => Some(v@),
            None => None,
        },
    )
}

/// The full expression of a technical pattern: not preceded by a word
/// character (by a digit, for channels), and followed by the end, a non-word
/// character or a channel layout.
pub open spec fn technical_regex(field: Seq<char>, raw: Seq<char>) -> Seq<char> {
    (if field == "channels"@ {
        r"(?<!\d)"@
    } else {
        r"(?<!\w)"@
    }) + "(?:"@ + raw + r")(?=$|\W|\d[. ]\d)"@
}

pub open spec fn entry(field: Seq<char>, raw: Seq<char>, value: Option<Seq<char>>) -> TechnicalView {
    (field, technical_regex(field, raw), value)
}

/// The technical patterns, in the order they are tried.
pub open spec fn technical_table() -> Seq<TechnicalView> {
    seq![
        entry("audio"@, r"DTS[ .:-]*HD[ .-]*MA(?:STER)?(?:[ .-]*AUDIO)?|DTS[ .-]*MA"@, Some("DTS-HD MA"@)),
        entry("audio"@, r"DTS[ .:-]*HD[ .-]*(?:HRA?|HIGH[ .-]*RESOLUTION(?:[ .-]*AUDIO)?)"@, Some("DTS-HD HRA"@)),
        entry("audio"@, r"DTS[ .:-]*X"@, Some("DTS-X"@)),
        entry("audio"@, r"DTS[ .:-]*HD"@, Some("DTS-HD"@)),
        entry("audio"@, r"HE[ .-]*AAC[ .-]*V2"@, Some("HE-AACv2"@)),
        entry("audio"@, r"HE[ .-]*AAC"@, Some("HE-AAC"@)),
        entry("audio"@, r"TRUE[ .-]*HD(?=\d[. ]\d)"@, Some("TrueHD"@)),
        entry("audio"@, r"AAC(?=\d[. ]\d)"@, Some("AAC"@)),
        entry("audio"@, r"DTS(?=\d[. ]\d)"@, Some("DTS Lossy"@)),
        entry("channels"@, r"([1-9]\d?[. -][012][. -][1-9]\d?)(?:ch)?(?!\w|[.]\d(?!\d{2,3}[pi]\b))"@, None),
        entry("hdr"@, r"HDR10(?:\+|[ .-]*PLUS)"@, Some("HDR10+"@)),
        entry("hdr"@, r"HDR10"@, Some("HDR10"@)),
        entry("hdr"@, r"HLG"@, Some("HLG"@)),
        entry("dolby_vision_profiles"@, r"(?:DV|DOVI|DOLBY[ .-]*VISION)[ .-]*(?:PROFILE|PROFIL|P)[ .-]*(\d{1,2}(?:\.\d{1,2})?)(?!\.\d(?!\d{2,3}[pi]\b))"@, None),
    ]
}

fn technical_pattern(field: &'static str, raw: &'static str, value: Option<&'static str>) -> (r:
    TechnicalPattern)
    ensures
        technical_view(r) == entry(
            field@,
            raw@,
            match value {
                Some(v) => Some(v@),
                None => None,
            },
        ),
{
    let prefix = if same(field, "channels") {
        r"(?<!\d)"
    } else {
        r"(?<!\w)"
    };
    let pattern = prefix.to_owned().concat("(?:").concat(raw).concat(r")(?=$|\W|\d[. ]\d)");
    TechnicalPattern { field, pattern, value }
}

/// The technical patterns (see `technical_table`).
pub fn technical_patterns() -> (r: Vec<TechnicalPattern>)
    ensures
        r@.map_values(|p: TechnicalPattern| technical_view(p)) == technical_table(),
{
    let mut v: Vec<TechnicalPattern> = Vec::new();
    v.push(technical_pattern("audio", r"DTS[ .:-]*HD[ .-]*MA(?:STER)?(?:[ .-]*AUDIO)?|DTS[ .-]*MA", Some("DTS-HD MA")));
    v.push(technical_pattern("audio", r"DTS[ .:-]*HD[ .-]*(?:HRA?|HIGH[ .-]*RESOLUTION(?:[ .-]*AUDIO)?)", Some("DTS-HD HRA")));
    v.push(technical_pattern("audio", r"DTS[ .:-]*X", Some("DTS-X")));
    v.push(technical_pattern("audio", r"DTS[ .:-]*HD", Some("DTS-HD")));
    v.push(technical_pattern("audio", r"HE[ .-]*AAC[ .-]*V2", Some("HE-AACv2")));
    v.push(technical_pattern("audio", r"HE[ .-]*AAC", Some("HE-AAC")));
    v.push(technical_pattern("audio", r"TRUE[ .-]*HD(?=\d[. ]\d)", Some("TrueHD")));
    v.push(technical_pattern("audio", r"AAC(?=\d[. ]\d)", Some("AAC")));
    v.push(technical_pattern("audio", r"DTS(?=\d[. ]\d)", Some("DTS Lossy")));
    v.push(technical_pattern("channels", r"([1-9]\d?[. -][012][. -][1-9]\d?)(?:ch)?(?!\w|[.]\d(?!\d{2,3}[pi]\b))", None));
    v.push(technical_pattern("hdr", r"HDR10(?:\+|[ .-]*PLUS)", Some("HDR10+")));
    v.push(technical_pattern("hdr", r"HDR10", Some("HDR10")));
    v.push(technical_pattern("hdr", r"HLG", Some("HLG")));
    v.push(technical_pattern("dolby_vision_profiles", r"(?:DV|DOVI|DOLBY[ .-]*VISION)[ .-]*(?:PROFILE|PROFIL|P)[ .-]*(\d{1,2}(?:\.\d{1,2})?)(?!\.\d(?!\d{2,3}[pi]\b))", None));
    assert(v@.map_values(|p: TechnicalPattern| technical_view(p)) =~= technical_table());
    v
}

/// A technical record as values: field, range and value.
pub type TechRecord = (Seq<char>, int, int, Option<Seq<char>>);

pub open spec fn record_view(r: Record) -> TechRecord {
    (
        r.field@,
        r.start as int,
        r.end as int,
        match r.value {
            Some(v) => Some(v@),
            None => None,
        },
    )
}

pub open spec fn record_views(v: Seq<Record>) -> Seq<TechRecord> {
    v.map_values(|r: Record| record_view(r))
}

/// A channel layout written with dots: spaces and dashes become dots.
pub open spec fn dotted(s: Seq<char>) -> Seq<char> {
    s.map_values(|c: char| if c == ' ' || c == '-' { '.' } else { c })
}

/// The number of spaces, dots and dashes from position `i` on.
pub open spec fn separator_run(t: Seq<u8>, i: int) -> int
    decreases t.len() - i,
{
    if 0 <= i < t.len() && (t[i] == 0x20 || t[i] == 0x2e || t[i] == 0x2d) {
        1 + separator_run(t, i + 1)
    } else {
        0
    }
}

/// The character before position `p` is alphanumeric.
pub open spec fn after_alphanumeric(t: Seq<u8>, p: int) -> bool {
    let cs = decode_utf8(t.subrange(0, p));
    cs.len() > 0 && alphanumeric(cs.last())
}

/// `out` already has a record of `field` overlapping `(start, end)`.
pub open spec fn overlaps_field(out: Seq<TechRecord>, field: Seq<char>, start: int, end: int) -> bool {
    exists|i: int|
        0 <= i < out.len() && (#[trigger] out[i]).0 == field && overlaps((start, end), (out[i].1, out[i].2))
}

/// `out` has an audio record ending at `p`.
pub open spec fn audio_ends_at(out: Seq<TechRecord>, p: int) -> bool {
    exists|i: int| 0 <= i < out.len() && (#[trigger] out[i]).0 == "audio"@ && out[i].2 == p
}

/// `s` with every space and dash replaced by a dot.
pub fn dotted_string(s: &str) -> (r: String)
    ensures
        r@ == dotted(s@),
{
    let cs = chars_of(s);
    let mut r = String::new();
    let mut i: usize = 0;
    while i < cs.len()
        invariant
            i <= cs@.len(),
            cs@ == s@,
            r@ == dotted(cs@.subrange(0, i as int)),
        decreases cs@.len() - i,
    {
        let c = cs[i];
        if c == ' ' || c == '-' {
            push_char(&mut r, '.');
        } else {
            push_char(&mut r, c);
        }
        assert(r@ =~= dotted(cs@.subrange(0, i + 1)));
        i = i + 1;
    }
    assert(cs@.subrange(0, i as int) =~= cs@);
    r
}

impl<'a> Details<'a> {
    /// What one match of technical pattern `p` adds to the records `out`:
    /// nothing when it is not in metadata position or overlaps a record of
    /// the same field, or — for a channel layout — when a size or rate unit
    /// follows or a number precedes it, or it sticks to a preceding
    /// alphanumeric character that is neither an audio record nor a codec;
    /// else its record, and for an audio format also a channel layout that
    /// directly follows it.
    pub open spec fn technical_step(&self, out: Seq<TechRecord>, p: TechnicalView, sp: (
        int,
        int,
        Seq<u8>,
    )) -> Result<Seq<TechRecord>, Seq<char>> {
        let t = self.text();
        let (start, end) = (sp.0, sp.1);
        if !self.metadata_at((start, end)) || overlaps_field(out, p.0, start, end) {
            Ok(out)
        } else if p.0 == "channels"@ && (matches_in(SIZE_UNIT@, t.subrange(end, t.len() as int))
            || matches_in(NUMBER_BEFORE@, t.subrange(0, start))) {
            Ok(out)
        } else if p.0 == "channels"@ && after_alphanumeric(t, start) && !audio_ends_at(out, start)
            && !matches_in(CODEC_BEFORE@, t.subrange(0, start)) {
            Ok(out)
        } else {
            let raw = match p.2 {
                Some(v) => v,
                None => decode_utf8(sp.2),
            };
            let value = if p.0 == "channels"@ {
                dotted(raw)
            } else {
                raw
            };
            let out2 = out.push((p.0, start, end, Some(value)));
            if p.0 == "audio"@ {
                let s2 = end + separator_run(t, end);
                match spans_of(CHANNELS_AT_START@, t.subrange(s2, t.len() as int)) {
                    Err(m) => Err(m),
                    Ok(cs) => if cs.len() > 0 && !matches_in(
                        SIZE_UNIT@,
                        t.subrange(s2 + cs[0].1, t.len() as int),
                    ) {
                        Ok(out2.push(("channels"@, s2, s2 + cs[0].1, Some(dotted(decode_utf8(cs[0].2))))))
                    } else {
                        Ok(out2)
                    },
                }
            } else {
                Ok(out2)
            }
        }
    }

    /// The records after the matches `ss` of pattern `p`.
    pub open spec fn technical_spans(&self, out: Seq<TechRecord>, p: TechnicalView, ss: Seq<
        (int, int, Seq<u8>),
    >) -> Result<Seq<TechRecord>, Seq<char>>
        decreases ss.len(),
    {
        if ss.len() == 0 {
            Ok(out)
        } else {
            match self.technical_spans(out, p, ss.drop_last()) {
                Err(m) => Err(m),
                Ok(o) => self.technical_step(o, p, ss.last()),
            }
        }
    }

    /// The records after every match of the patterns `ps`, in order.
    pub open spec fn technical_records(&self, ps: Seq<TechnicalView>) -> Result<Seq<TechRecord>, Seq<char>>
        decreases ps.len(),
    {
        if ps.len() == 0 {
            Ok(Seq::empty())
        } else {
            match self.technical_records(ps.drop_last()) {
                Err(m) => Err(m),
                Ok(o) => match spans_of(ps.last().1, self.text()) {
                    Err(m) => Err(m),
                    Ok(ss) => self.technical_spans(o, ps.last(), ss),
                },
            }
        }
    }

    /// The technical records of the title (see `technical_step`), or the
    /// first failed search.
    pub open spec fn technical_of(&self) -> Result<Seq<TechRecord>, Seq<char>> {
        self.technical_records(technical_table())
    }

    proof fn technical_spans_failed(&self, out: Seq<TechRecord>, p: TechnicalView, ss: Seq<(int, int, Seq<u8>)>, k: int)
        requires
            0 <= k <= ss.len(),
            self.technical_spans(out, p, ss.subrange(0, k)) is Err,
        ensures
            self.technical_spans(out, p, ss) == self.technical_spans(out, p, ss.subrange(0, k)),
        decreases ss.len() - k,
    {
        if k < ss.len() {
            assert(ss.subrange(0, k + 1).drop_last() =~= ss.subrange(0, k));
            self.technical_spans_failed(out, p, ss, k + 1);
        } else {
            assert(ss.subrange(0, k) =~= ss);
        }
    }

    proof fn technical_records_failed(&self, ps: Seq<TechnicalView>, k: int)
        requires
            0 <= k <= ps.len(),
            self.technical_records(ps.subrange(0, k)) is Err,
        ensures
            self.technical_records(ps) == self.technical_records(ps.subrange(0, k)),
        decreases ps.len() - k,
    {
        if k < ps.len() {
            assert(ps.subrange(0, k + 1).drop_last() =~= ps.subrange(0, k));
            self.technical_records_failed(ps, k + 1);
        } else {
            assert(ps.subrange(0, k) =~= ps);
        }
    }

    /// Whether the character before position `p` is alphanumeric.
    fn follows_alphanumeric(&self, p: usize) -> (r: bool)
        requires
            p <= self.text().len(),
            is_char_boundary(self.text(), p as int),
        ensures
            r == after_alphanumeric(self.text(), p as int),
    {
        let t = self.title_str().as_bytes();
        proof {
            self.text_valid();
            vstd::utf8::is_char_boundary_start_end_of_seq(t@);
            utf8_slice_valid(t@, 0, p as int);
        }
        let prefix = text_of(&t[0..p]);
        let cs = chars_of(prefix.as_str());
        if cs.len() == 0 {
            return false;
        }
        is_alphanumeric(cs[cs.len() - 1])
    }

    /// Adds to `output` what one match of `p` adds (see `technical_step`).
    fn technical_match(&self, output: &mut Vec<Record>, p: &TechnicalPattern, sp: &(usize, usize, Vec<u8>)) -> (r: Result<(), ParseError>)
        requires
            well_placed(self.text(), (sp.0 as int, sp.1 as int)),
            valid_utf8(sp.2@),
        ensures
            match r {
                Ok(()) => self.technical_step(record_views(old(output)@), technical_view(*p), view_span(*sp))
                    == Ok::<Seq<TechRecord>, Seq<char>>(record_views(final(output)@)),
                Err(e) => self.technical_step(record_views(old(output)@), technical_view(*p), view_span(*sp))
                    == Err::<Seq<TechRecord>, Seq<char>>(message(e)),
            },
    {
        let ghost pv = technical_view(*p);
        let ghost out0 = record_views(output@);
        let t = self.title_str().as_bytes();
        proof {
            self.text_valid();
        }
        let (start, end) = (sp.0, sp.1);
        if !self.metadata_position((start, end)) {
            return Ok(());
        }
        let mut i: usize = 0;
        while i < output.len()
            invariant
                i <= output@.len(),
                out0 == record_views(output@),
                out0 == record_views(old(output)@),
                output@ == old(output)@,
                pv == technical_view(*p),
                start == sp.0,
                end == sp.1,
                self.metadata_at((start as int, end as int)),
                forall|j: int|
                    0 <= j < i ==> !((#[trigger] out0[j]).0 == pv.0 && overlaps(
                        (start as int, end as int),
                        (out0[j].1, out0[j].2),
                    )),
            decreases output@.len() - i,
        {
            assert(out0[i as int] == record_view(output@[i as int]));
            if same(output[i].field.as_str(), p.field) && start < output[i].end && output[i].start < end {
                assert(overlaps_field(out0, pv.0, start as int, end as int));
                return Ok(());
            }
            i = i + 1;
        }
        assert(!overlaps_field(out0, pv.0, start as int, end as int));
        let channels = same(p.field, "channels");
        if channels {
            if has_match(SIZE_UNIT, &t[end..t.len()]) || has_match(NUMBER_BEFORE, &t[0..start]) {
                return Ok(());
            }
            if self.follows_alphanumeric(start) {
                let mut audio_before = false;
                let mut i: usize = 0;
                while i < output.len()
                    invariant
                        i <= output@.len(),
                        out0 == record_views(output@),
                        audio_before == audio_ends_at(out0.subrange(0, i as int), start as int),
                    decreases output@.len() - i,
                {
                    assert(out0[i as int] == record_view(output@[i as int]));
                    let ghost before = audio_before;
                    if same(output[i].field.as_str(), "audio") && output[i].end == start {
                        audio_before = true;
                    }
                    proof {
                        let s1 = out0.subrange(0, i + 1);
                        let s0 = out0.subrange(0, i as int);
                        if audio_ends_at(s1, start as int) && !audio_before {
                            let j = choose|j: int| 0 <= j < s1.len() && (#[trigger] s1[j]).0 == "audio"@ && s1[j].2 == start;
                            assert(s0[j] == s1[j]);
                        }
                        if before {
                            let j = choose|j: int| 0 <= j < s0.len() && (#[trigger] s0[j]).0 == "audio"@ && s0[j].2 == start;
                            assert(s1[j] == s0[j]);
                        }
                        if audio_before && !before {
                            assert(s1[i as int] == out0[i as int]);
                        }
                    }
                    i = i + 1;
                }
                assert(out0.subrange(0, i as int) =~= out0);
                if !audio_before && !has_match(CODEC_BEFORE, &t[0..start]) {
                    return Ok(());
                }
            }
        }
        let raw = match p.value {
            Some(v) => v.to_owned(),
            None => text_of(sp.2.as_slice()),
        };
        let value = if channels {
            dotted_string(raw.as_str())
        } else {
            raw
        };
        output.push(Record { field: p.field.to_owned(), start, end, value: Some(value) });
        let ghost out2 = record_views(output@);
        assert(out2 =~= out0.push((pv.0, start as int, end as int, Some(value@))));
        if same(p.field, "audio") {
            // skip the separators after the audio format
            let mut s2 = end;
            proof {
                vstd::utf8::is_char_boundary_start_end_of_seq(t@);
            }
            while s2 < t.len() && (t[s2] == 0x20 || t[s2] == 0x2e || t[s2] == 0x2d)
                invariant
                    end <= s2 <= t@.len(),
                    s2 + separator_run(t@, s2 as int) == end + separator_run(t@, end as int),
                    valid_utf8(t@),
                    is_char_boundary(t@, s2 as int),
                decreases t@.len() - s2,
            {
                proof {
                    ascii_next_boundary(t@, s2 as int);
                }
                s2 = s2 + 1;
            }
            proof {
                utf8_slice_valid(t@, s2 as int, t@.len() as int);
            }
            let suffix = &t[s2..t.len()];
            let cs = match spans(CHANNELS_AT_START, suffix) {
                Ok(v) => v,
                Err(e) => return Err(e),
            };
            if cs.len() > 0 {
                assert(view_spans(cs@)[0] == view_span(cs@[0]));
                assert(well_placed(suffix@, (view_spans(cs@)[0].0, view_spans(cs@)[0].1)));
                let length = cs[0].1;
                if !has_match(SIZE_UNIT, &t[s2 + length..t.len()]) {
                    let v = dotted_string(text_of(cs[0].2.as_slice()).as_str());
                    output.push(Record {
                        field: "channels".to_owned(),
                        start: s2,
                        end: s2 + length,
                        value: Some(v),
                    });
                    assert(record_views(output@) =~= out2.push(
                        ("channels"@, s2 as int, s2 + length, Some(v@)),
                    ));
                }
            }
        }
        Ok(())
    }

    /// The technical records of the title (see `technical_of`); a failed
    /// search is the error.
    pub fn technical_matches(&self) -> (r: Result<Vec<Record>, ParseError>)
        ensures
            match r {
                Ok(v) => self.technical_of() == Ok::<Seq<TechRecord>, Seq<char>>(record_views(v@)),
                Err(e) => self.technical_of() == Err::<Seq<TechRecord>, Seq<char>>(message(e)),
            },
    {
        let table = technical_patterns();
        let ghost tv = table@.map_values(|p: TechnicalPattern| technical_view(p));
        let t = self.title_str().as_bytes();
        proof {
            self.text_valid();
        }
        let mut output: Vec<Record> = Vec::new();
        let mut k: usize = 0;
        assert(tv.subrange(0, 0) =~= Seq::<TechnicalView>::empty());
        assert(record_views(output@) =~= Seq::<TechRecord>::empty());
        while k < table.len()
            invariant
                k <= table@.len(),
                tv.len() == table@.len(),
                tv == table@.map_values(|p: TechnicalPattern| technical_view(p)),
                tv == technical_table(),
                t@ == self.text(),
                valid_utf8(t@),
                self.technical_records(tv.subrange(0, k as int)) == Ok::<Seq<TechRecord>, Seq<char>>(
                    record_views(output@),
                ),
            decreases table@.len() - k,
        {
            let ghost pv = tv[k as int];
            assert(pv == technical_view(table@[k as int]));
            assert(tv.subrange(0, k + 1).drop_last() =~= tv.subrange(0, k as int));
            assert(tv.subrange(0, k + 1).last() == pv);
            let ghost o = record_views(output@);
            let ss = match spans(table[k].pattern.as_str(), t) {
                Ok(v) => v,
                Err(e) => {
                    proof {
                        self.technical_records_failed(tv, k + 1);
                    }
                    return Err(e);
                },
            };
            let ghost sv = view_spans(ss@);
            assert(spans_of(pv.1, t@) == Ok::<Seq<(int, int, Seq<u8>)>, Seq<char>>(sv));
            let mut i: usize = 0;
            assert(sv.subrange(0, 0) =~= Seq::<(int, int, Seq<u8>)>::empty());
            while i < ss.len()
                invariant
                    i <= ss@.len(),
                    tv.len() == table@.len(),
                    tv == technical_table(),
                    pv == tv[k as int],
                    tv.subrange(0, k + 1).drop_last() == tv.subrange(0, k as int),
                    tv.subrange(0, k + 1).last() == pv,
                    self.technical_records(tv.subrange(0, k as int)) == Ok::<Seq<TechRecord>, Seq<char>>(o),
                    spans_of(pv.1, t@) == Ok::<Seq<(int, int, Seq<u8>)>, Seq<char>>(sv),
                    sv == view_spans(ss@),
                    spans_placed(t@, sv),
                    span_texts_valid(t@, sv),
                    t@ == self.text(),
                    valid_utf8(t@),
                    k < table@.len(),
                    pv == technical_view(table@[k as int]),
                    self.technical_spans(o, pv, sv.subrange(0, i as int)) == Ok::<Seq<TechRecord>, Seq<char>>(
                        record_views(output@),
                    ),
                decreases ss@.len() - i,
            {
                assert(sv.subrange(0, i + 1).drop_last() =~= sv.subrange(0, i as int));
                assert(sv[i as int] == view_span(ss@[i as int]));
                assert(well_placed(t@, (sv[i as int].0, sv[i as int].1)));
                match self.technical_match(&mut output, &table[k], &ss[i]) {
                    Ok(()) => {},
                    Err(e) => {
                        proof {
                            self.technical_spans_failed(o, pv, sv, i + 1);
                            assert(sv.subrange(0, sv.len() as int) =~= sv);
                            self.technical_records_failed(tv, k + 1);
                        }
                        return Err(e);
                    },
                }
                i = i + 1;
            }
            assert(sv.subrange(0, i as int) =~= sv);
            k = k + 1;
        }
        assert(tv.subrange(0, k as int) =~= tv);
        Ok(output)
    }
}

} // verus!
