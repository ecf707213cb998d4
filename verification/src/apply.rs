//! The whole detailed-metadata pass over one parse result: languages,
//! technical labels, SDH-annotated groups, Dolby Vision, HDTV sources,
//! editions and, on request, language names.
use crate::details::{overlap, overlaps, Details};
use crate::fields::{
    field_strings, field_text, set_strings, string_list, strings, FieldValue, FieldView, Fields,
    Record,
};
use crate::language::{display_name, language_name, regional, regional_language, Lexicon, LanguageData};
use crate::languages::{field_of, languages_within};
use crate::matching::{
    full, fully_matches, has_match, matches_in, message, spans, spans_or_empty, spans_placed,
    span_texts_valid, text_of, view_span, view_spans, well_placed,
};
use crate::patterns::{GROUP_ANNOTATION, GROUP_ANNOTATION_WORD, REGIONAL_CODE};
use crate::technical::{record_view, record_views, TechRecord};
use crate::text::{list_contains, same, starts_with, view_strings};
use crate::ParseError;
use vstd::prelude::*;
use vstd::string::StringSliceAdditionalSpecFns;
use vstd::utf8::{decode_utf8, encode_utf8, encode_utf8_valid_utf8, valid_utf8};

verus! {

/// A language found at the very start of a group name, followed only by an
/// SDH or forced annotation, whose regional form is one of the subtitle
/// languages.
pub open spec fn annotation_language(
    data: LanguageData,
    group: Seq<u8>,
    subtitles: Seq<Seq<char>>,
    start: int,
    end: int,
    code: Seq<char>,
) -> bool {
    &&& start == 0
    &&& fully_matches(GROUP_ANNOTATION@, group.subrange(end, group.len() as int))
    &&& regional(data, code) matches Some(c) && subtitles.contains(c)
}

/// Some match of the `k`-th language pattern in `group` is such a language.
pub open spec fn pattern_annotates(lexicon: Lexicon, group: Seq<u8>, subtitles: Seq<Seq<char>>, k: int) -> bool {
    let p = lexicon.patterns@[k];
    let ss = spans_or_empty(p.1@, group);
    exists|i: int|
        0 <= i < ss.len() && annotation_language(lexicon.data, group, subtitles, (#[trigger] ss[i]).0, ss[i].1, p.0@)
}

/// A release group that is only a subtitle language and an SDH or forced
/// annotation: the subtitle languages are known, the group holds an SDH or
/// forced word, and a language pattern or a regional code at its start names
/// one of them.
pub open spec fn annotation_group(lexicon: Lexicon, group: Seq<u8>, subtitles: Seq<Seq<char>>) -> bool {
    let cs = spans_or_empty(REGIONAL_CODE@, group);
    &&& subtitles.len() > 0
    &&& matches_in(GROUP_ANNOTATION_WORD@, group)
    &&& {
        ||| exists|k: int|
            0 <= k < lexicon.patterns@.len() && #[trigger] pattern_annotates(lexicon, group, subtitles, k)
        ||| exists|i: int|
            0 <= i < cs.len() && annotation_language(
                lexicon.data,
                group,
                subtitles,
                (#[trigger] cs[i]).0,
                cs[i].1,
                decode_utf8(cs[i].2),
            )
    }
}

fn annotation_language_at(
    lexicon: &Lexicon,
    group: &[u8],
    subtitles: &[String],
    start: usize,
    end: usize,
    code: &str,
) -> (r: bool)
    requires
        end <= group@.len(),
    ensures
        r == annotation_language(lexicon.data, group@, view_strings(subtitles@), start as int, end as int, code@),
{
    if start != 0 || !full(GROUP_ANNOTATION, &group[end..group.len()]) {
        return false;
    }
    match regional_language(code, &lexicon.data) {
        Some(c) => list_contains(subtitles, c.as_str()),
        None => false,
    }
}

/// Whether `group` is only a subtitle language with an SDH or forced
/// annotation (see `annotation_group`); failed searches count as no match.
pub fn subtitle_annotation_group(group: &str, subtitles: &[String], lexicon: &Lexicon) -> (r: bool)
    ensures
        r == annotation_group(*lexicon, group.spec_bytes(), view_strings(subtitles@)),
{
    let g = group.as_bytes();
    proof {
        encode_utf8_valid_utf8(group@);
    }
    if subtitles.len() == 0 || !has_match(GROUP_ANNOTATION_WORD, g) {
        return false;
    }
    let patterns = &lexicon.patterns;
    let mut k: usize = 0;
    while k < patterns.len()
        invariant
            k <= patterns@.len(),
            patterns@ == lexicon.patterns@,
            g@ == group.spec_bytes(),
            subtitles@.len() > 0,
            matches_in(GROUP_ANNOTATION_WORD@, g@),
            forall|j: int| 0 <= j < k ==> !#[trigger] pattern_annotates(*lexicon, g@, view_strings(subtitles@), j),
        decreases patterns@.len() - k,
    {
        let ss = match spans(patterns[k].1.as_str(), g) {
            Ok(v) => v,
            Err(_) => Vec::new(),
        };
        let ghost sv = view_spans(ss@);
        assert(sv == spans_or_empty(patterns@[k as int].1@, g@));
        let mut i: usize = 0;
        while i < ss.len()
            invariant
                i <= ss@.len(),
                k < patterns@.len(),
                patterns@ == lexicon.patterns@,
                g@ == group.spec_bytes(),
                subtitles@.len() > 0,
                matches_in(GROUP_ANNOTATION_WORD@, g@),
                sv == view_spans(ss@),
                sv == spans_or_empty(patterns@[k as int].1@, g@),
                spans_placed(g@, sv),
                forall|j: int|
                    0 <= j < i ==> !annotation_language(
                        lexicon.data,
                        g@,
                        view_strings(subtitles@),
                        (#[trigger] sv[j]).0,
                        sv[j].1,
                        patterns@[k as int].0@,
                    ),
            decreases ss@.len() - i,
        {
            assert(sv[i as int] == view_span(ss@[i as int]));
            assert(well_placed(g@, (sv[i as int].0, sv[i as int].1)));
            if annotation_language_at(lexicon, g, subtitles, ss[i].0, ss[i].1, patterns[k].0.as_str()) {
                assert(pattern_annotates(*lexicon, g@, view_strings(subtitles@), k as int));
                assert(annotation_group(*lexicon, g@, view_strings(subtitles@)));
                return true;
            }
            i = i + 1;
        }
        k = k + 1;
    }
    let cs = match spans(REGIONAL_CODE, g) {
        Ok(v) => v,
        Err(_) => Vec::new(),
    };
    let ghost cv = view_spans(cs@);
    assert(cv == spans_or_empty(REGIONAL_CODE@, g@));
    let mut i: usize = 0;
    while i < cs.len()
        invariant
            i <= cs@.len(),
            cv == view_spans(cs@),
            cv == spans_or_empty(REGIONAL_CODE@, g@),
            spans_placed(g@, cv),
            span_texts_valid(g@, cv),
            valid_utf8(g@),
            g@ == group.spec_bytes(),
            subtitles@.len() > 0,
            matches_in(GROUP_ANNOTATION_WORD@, g@),
            forall|j: int| 0 <= j < lexicon.patterns@.len() ==> !#[trigger] pattern_annotates(*lexicon, g@, view_strings(subtitles@), j),
            forall|j: int|
                0 <= j < i ==> !annotation_language(
                    lexicon.data,
                    g@,
                    view_strings(subtitles@),
                    (#[trigger] cv[j]).0,
                    cv[j].1,
                    decode_utf8(cv[j].2),
                ),
        decreases cs@.len() - i,
    {
        assert(cv[i as int] == view_span(cs@[i as int]));
        assert(well_placed(g@, (cv[i as int].0, cv[i as int].1)));
        let code = text_of(cs[i].2.as_slice());
        if annotation_language_at(lexicon, g, subtitles, cs[i].0, cs[i].1, code.as_str()) {
            assert(annotation_language(
                lexicon.data,
                g@,
                view_strings(subtitles@),
                cv[i as int].0,
                cv[i as int].1,
                decode_utf8(cv[i as int].2),
            ));
            assert(annotation_group(*lexicon, g@, view_strings(subtitles@)));
            return true;
        }
        i = i + 1;
    }
    false
}


// ------------------------------------------------------------ the result

/// `technical` holds a record for `field`.
pub open spec fn has_field_change(t: Seq<TechRecord>, field: Seq<char>) -> bool {
    exists|i: int| 0 <= i < t.len() && (#[trigger] t[i]).0 == field
}

/// A technical record for `field` overlaps `span`.
pub open spec fn changed_at(t: Seq<TechRecord>, field: Seq<char>, span: (int, int)) -> bool {
    exists|i: int| 0 <= i < t.len() && (#[trigger] t[i]).0 == field && overlaps(span, (t[i].1, t[i].2))
}

/// The record's value is the string `v`.
pub open spec fn value_is(r: Record, v: Seq<char>) -> bool {
    match r.value {
        Some(s) => s@ == v,
        None => false,
    }
}

/// The string values of the records for `field` that no technical record
/// for it overlaps, in order.
pub open spec fn kept_values(rs: Seq<Record>, t: Seq<TechRecord>, field: Seq<char>) -> Seq<Seq<char>>
    decreases rs.len(),
{
    if rs.len() == 0 {
        Seq::empty()
    } else {
        let r = kept_values(rs.drop_last(), t, field);
        let x = rs.last();
        if x.field@ == field && !changed_at(t, field, (x.start as int, x.end as int)) {
            match x.value {
                Some(v) => r.push(v@),
                None => r,
            }
        } else {
            r
        }
    }
}

/// Some record for `field` has the value `v`.
pub open spec fn recorded_value(rs: Seq<Record>, field: Seq<char>, v: Seq<char>) -> bool {
    exists|i: int| 0 <= i < rs.len() && (#[trigger] rs[i]).field@ == field && value_is(rs[i], v)
}

/// The `values` that no record for `field` has, in order.
pub open spec fn unrecorded_values(values: Seq<Seq<char>>, rs: Seq<Record>, field: Seq<char>) -> Seq<Seq<char>>
    decreases values.len(),
{
    if values.len() == 0 {
        Seq::empty()
    } else {
        let r = unrecorded_values(values.drop_last(), rs, field);
        if recorded_value(rs, field, values.last()) {
            r
        } else {
            r.push(values.last())
        }
    }
}

/// The values of the technical records for `field`, in order.
pub open spec fn change_values(t: Seq<TechRecord>, field: Seq<char>) -> Seq<Seq<char>>
    decreases t.len(),
{
    if t.len() == 0 {
        Seq::empty()
    } else {
        let r = change_values(t.drop_last(), field);
        if t.last().0 == field {
            match t.last().3 {
                Some(v) => r.push(v),
                None => r,
            }
        } else {
            r
        }
    }
}

/// Where the technical pass found `field`, the field becomes: the earlier
/// records' values it did not overlap, then the values already there that
/// no record explains, then the technical values, without repeats.
pub open spec fn merge_field(
    rs: Seq<Record>,
    t: Seq<TechRecord>,
    fields: Map<Seq<char>, FieldView>,
    field: Seq<char>,
) -> Map<Seq<char>, FieldView> {
    if has_field_change(t, field) {
        fields.insert(
            field,
            string_list(
                kept_values(rs, t, field) + unrecorded_values(
                    field_strings(field_of(fields, field)),
                    rs,
                    field,
                ) + change_values(t, field),
            ),
        )
    } else {
        fields
    }
}

/// A release group that is only an annotated subtitle language is no group.
pub open spec fn without_annotation_group(lexicon: Lexicon, f: Map<Seq<char>, FieldView>) -> Map<
    Seq<char>,
    FieldView,
> {
    match field_text(field_of(f, "group"@)) {
        Some(g) => if annotation_group(
            lexicon,
            encode_utf8(g),
            field_strings(field_of(f, "subtitle_languages"@)),
        ) {
            f.remove("group"@)
        } else {
            f
        },
        None => f,
    }
}

/// Dolby Vision profiles imply the `DV` HDR format.
pub open spec fn with_dolby_vision(f: Map<Seq<char>, FieldView>) -> Map<Seq<char>, FieldView> {
    if field_strings(field_of(f, "dolby_vision_profiles"@)).len() > 0 {
        f.insert("hdr"@, string_list(field_strings(field_of(f, "hdr"@)).push("DV"@)))
    } else {
        f
    }
}

/// A record of an `HDTV` quality.
pub open spec fn hdtv_source(r: Record) -> bool {
    r.field@ == "quality"@ && value_is(r, "HDTV"@)
}

/// A DTS-HD audio record that covers the record `r`.
pub open spec fn dts_hd_covers(x: TechRecord, r: Record) -> bool {
    &&& x.0 == "audio"@
    &&& match x.3 {
        Some(v) => "DTS-HD"@.is_prefix_of(v),
        None => false,
    }
    &&& x.1 <= r.start
    &&& r.end <= x.2
}

/// The `HDTV` quality was read only out of DTS-HD audio labels: there is an
/// HDTV record and each lies within such a label.
pub open spec fn hdtv_from_audio(rs: Seq<Record>, t: Seq<TechRecord>) -> bool {
    &&& exists|i: int| 0 <= i < rs.len() && hdtv_source(#[trigger] rs[i])
    &&& forall|i: int|
        0 <= i < rs.len() && hdtv_source(#[trigger] rs[i]) ==> exists|j: int|
            0 <= j < t.len() && dts_hd_covers(#[trigger] t[j], rs[i])
}

/// An `HDTV` quality read out of a DTS-HD label is dropped.
pub open spec fn without_hdtv(rs: Seq<Record>, t: Seq<TechRecord>, f: Map<Seq<char>, FieldView>) -> Map<
    Seq<char>,
    FieldView,
> {
    if field_text(field_of(f, "quality"@)) == Some("HDTV"@) && hdtv_from_audio(rs, t) {
        f.remove("quality"@)
    } else {
        f
    }
}

/// The edition `edition` sets the flag `field`.
pub open spec fn edition_flag(f: Map<Seq<char>, FieldView>, edition: Seq<char>, field: Seq<char>) -> Map<
    Seq<char>,
    FieldView,
> {
    if field_text(field_of(f, "edition"@)) == Some(edition) {
        f.insert(field, FieldView::Flag(true))
    } else {
        f
    }
}

/// The extended and remastered editions set their flags.
pub open spec fn with_editions(f: Map<Seq<char>, FieldView>) -> Map<Seq<char>, FieldView> {
    edition_flag(
        edition_flag(f, "Extended Edition"@, "extended"@),
        "Remastered"@,
        "remastered"@,
    )
}

/// The names of the codes that have one, in order.
pub open spec fn names_of(data: LanguageData, codes: Seq<Seq<char>>) -> Seq<Seq<char>>
    decreases codes.len(),
{
    if codes.len() == 0 {
        Seq::empty()
    } else {
        let r = names_of(data, codes.drop_last());
        match display_name(data, codes.last()) {
            Some(n) => r.push(n),
            None => r,
        }
    }
}

/// `field` with its codes replaced by their names.
pub open spec fn translated_field(data: LanguageData, f: Map<Seq<char>, FieldView>, field: Seq<char>) -> Map<
    Seq<char>,
    FieldView,
> {
    f.insert(field, string_list(names_of(data, field_strings(field_of(f, field)))))
}

/// Both language fields with their codes replaced by their names.
pub open spec fn translated(data: LanguageData, f: Map<Seq<char>, FieldView>) -> Map<Seq<char>, FieldView> {
    translated_field(data, translated_field(data, f, "audio_languages"@), "subtitle_languages"@)
}

impl<'a> Details<'a> {
    /// What follows language detection, given the technical records.
    pub open spec fn finished(
        &self,
        f: Map<Seq<char>, FieldView>,
        t: Seq<TechRecord>,
        translate: bool,
    ) -> Map<Seq<char>, FieldView> {
        let rs = self.records();
        let f2 = without_annotation_group(self.lexicon(), f);
        let f3 = merge_field(
            rs,
            t,
            merge_field(rs, t, merge_field(rs, t, merge_field(rs, t, f2, "audio"@), "channels"@), "hdr"@),
            "dolby_vision_profiles"@,
        );
        let f4 = with_editions(without_hdtv(rs, t, with_dolby_vision(f3)));
        if translate {
            translated(self.lexicon().data, f4)
        } else {
            f4
        }
    }

    /// The whole pass over `f`: technical records, languages, then the rest
    /// (see `finished`); or the first failed search.
    pub open spec fn apply_of(&self, f: Map<Seq<char>, FieldView>, translate: bool) -> Result<
        Map<Seq<char>, FieldView>,
        Seq<char>,
    > {
        match self.technical_of() {
            Err(m) => Err(m),
            Ok(t) => match self.languages_of(f, t) {
                Err(m) => Err(m),
                Ok(f1) => Ok(self.finished(f1, t, translate)),
            },
        }
    }
}

} // verus!

verus! {

fn field_changed(technical: &[Record], field: &str) -> (r: bool)
    ensures
        r == has_field_change(record_views(technical@), field@),
{
    let ghost t = record_views(technical@);
    let mut i: usize = 0;
    while i < technical.len()
        invariant
            i <= technical@.len(),
            t == record_views(technical@),
            forall|j: int| 0 <= j < i ==> (#[trigger] t[j]).0 != field@,
        decreases technical@.len() - i,
    {
        if same(technical[i].field.as_str(), field) {
            assert(t[i as int].0 == field@);
            return true;
        }
        i = i + 1;
    }
    false
}

fn changed_at_span(technical: &[Record], field: &str, start: usize, end: usize) -> (r: bool)
    ensures
        r == changed_at(record_views(technical@), field@, (start as int, end as int)),
{
    let ghost t = record_views(technical@);
    let mut i: usize = 0;
    while i < technical.len()
        invariant
            i <= technical@.len(),
            t == record_views(technical@),
            forall|j: int|
                0 <= j < i ==> !((#[trigger] t[j]).0 == field@ && overlaps(
                    (start as int, end as int),
                    (t[j].1, t[j].2),
                )),
        decreases technical@.len() - i,
    {
        let x = &technical[i];
        assert(t[i as int] == record_view(technical@[i as int]));
        if same(x.field.as_str(), field) && overlap((start, end), (x.start, x.end)) {
            return true;
        }
        i = i + 1;
    }
    false
}

fn record_has_value(r: &Record, v: &str) -> (b: bool)
    ensures
        b == value_is(*r, v@),
{
    match &r.value {
        Some(s) => same(s.as_str(), v),
        None => false,
    }
}

fn recorded_with(records: &[Record], field: &str, v: &str) -> (r: bool)
    ensures
        r == recorded_value(records@, field@, v@),
{
    let mut i: usize = 0;
    while i < records.len()
        invariant
            i <= records@.len(),
            forall|j: int|
                0 <= j < i ==> !((#[trigger] records@[j]).field@ == field@ && value_is(records@[j], v@)),
        decreases records@.len() - i,
    {
        if same(records[i].field.as_str(), field) && record_has_value(&records[i], v) {
            return true;
        }
        i = i + 1;
    }
    false
}

fn kept_record_values(records: &[Record], technical: &[Record], field: &str) -> (r: Vec<String>)
    ensures
        view_strings(r@) == kept_values(records@, record_views(technical@), field@),
{
    let ghost t = record_views(technical@);
    let mut out: Vec<String> = Vec::new();
    let mut i: usize = 0;
    while i < records.len()
        invariant
            i <= records@.len(),
            t == record_views(technical@),
            view_strings(out@) == kept_values(records@.subrange(0, i as int), t, field@),
        decreases records@.len() - i,
    {
        let x = &records[i];
        assert(records@.subrange(0, i + 1).drop_last() =~= records@.subrange(0, i as int));
        assert(records@.subrange(0, i + 1).last() == records@[i as int]);
        if same(x.field.as_str(), field) && !changed_at_span(technical, field, x.start, x.end) {
            if let Some(v) = &x.value {
                out.push(v.clone());
            }
        }
        assert(view_strings(out@) =~= kept_values(records@.subrange(0, i + 1), t, field@));
        i = i + 1;
    }
    assert(records@.subrange(0, i as int) =~= records@);
    out
}

fn unrecorded_strings(values: &Vec<String>, records: &[Record], field: &str) -> (r: Vec<String>)
    ensures
        view_strings(r@) == unrecorded_values(view_strings(values@), records@, field@),
{
    let ghost vs = view_strings(values@);
    let mut out: Vec<String> = Vec::new();
    let mut i: usize = 0;
    while i < values.len()
        invariant
            i <= values@.len(),
            vs == view_strings(values@),
            view_strings(out@) == unrecorded_values(vs.subrange(0, i as int), records@, field@),
        decreases values@.len() - i,
    {
        assert(vs.subrange(0, i + 1).drop_last() =~= vs.subrange(0, i as int));
        assert(vs.subrange(0, i + 1).last() == values@[i as int]@);
        if !recorded_with(records, field, values[i].as_str()) {
            out.push(values[i].clone());
        }
        assert(view_strings(out@) =~= unrecorded_values(vs.subrange(0, i + 1), records@, field@));
        i = i + 1;
    }
    assert(vs.subrange(0, i as int) =~= vs);
    out
}

fn technical_values(technical: &[Record], field: &str) -> (r: Vec<String>)
    ensures
        view_strings(r@) == change_values(record_views(technical@), field@),
{
    let ghost t = record_views(technical@);
    let mut out: Vec<String> = Vec::new();
    let mut i: usize = 0;
    while i < technical.len()
        invariant
            i <= technical@.len(),
            t == record_views(technical@),
            view_strings(out@) == change_values(t.subrange(0, i as int), field@),
        decreases technical@.len() - i,
    {
        assert(t.subrange(0, i + 1).drop_last() =~= t.subrange(0, i as int));
        assert(t.subrange(0, i + 1).last() == record_view(technical@[i as int]));
        let x = &technical[i];
        if same(x.field.as_str(), field) {
            if let Some(v) = &x.value {
                out.push(v.clone());
            }
        }
        assert(view_strings(out@) =~= change_values(t.subrange(0, i + 1), field@));
        i = i + 1;
    }
    assert(t.subrange(0, i as int) =~= t);
    out
}

/// Rewrites `field` from the technical records (see `merge_field`).
pub fn merge_technical(result: &mut Fields, records: &[Record], technical: &[Record], field: &str)
    ensures
        final(result)@ == merge_field(records@, record_views(technical@), old(result)@, field@),
{
    if !field_changed(technical, field) {
        return;
    }
    let mut values = kept_record_values(records, technical, field);
    let existing = strings(result.get(field));
    let mut extra = unrecorded_strings(&existing, records, field);
    let mut changes = technical_values(technical, field);
    let ghost a = view_strings(values@);
    let ghost b = view_strings(extra@);
    let ghost c = view_strings(changes@);
    values.append(&mut extra);
    values.append(&mut changes);
    assert(view_strings(values@) =~= a + b + c);
    set_strings(result, field, values);
}

/// Drops the group when it is only an annotated subtitle language (see
/// `without_annotation_group`).
pub fn drop_annotation_group(result: &mut Fields, lexicon: &Lexicon)
    ensures
        final(result)@ == without_annotation_group(*lexicon, old(result)@),
{
    let subtitles = strings(result.get("subtitle_languages"));
    let drop = match result.get("group") {
        Some(v) => match v.as_text() {
            Some(g) => subtitle_annotation_group(g.as_str(), subtitles.as_slice(), lexicon),
            None => false,
        },
        None => false,
    };
    if drop {
        result.remove("group");
    }
}

/// Adds `DV` to the HDR formats when Dolby Vision profiles were found.
pub fn add_dolby_vision(result: &mut Fields)
    ensures
        final(result)@ == with_dolby_vision(old(result)@),
{
    if strings(result.get("dolby_vision_profiles")).len() > 0 {
        let mut hdr = strings(result.get("hdr"));
        let ghost before = view_strings(hdr@);
        let dv = "DV".to_owned();
        hdr.push(dv);
        assert(view_strings(hdr@) =~= before.push("DV"@));
        set_strings(result, "hdr", hdr);
    }
}

fn covered_by_dts_hd(r: &Record, technical: &[Record]) -> (b: bool)
    ensures
        b == exists|j: int|
            0 <= j < technical@.len() && dts_hd_covers(#[trigger] record_views(technical@)[j], *r),
{
    let ghost t = record_views(technical@);
    let mut j: usize = 0;
    while j < technical.len()
        invariant
            j <= technical@.len(),
            t == record_views(technical@),
            forall|k: int| 0 <= k < j ==> !dts_hd_covers(#[trigger] t[k], *r),
        decreases technical@.len() - j,
    {
        let x = &technical[j];
        assert(t[j as int] == record_view(technical@[j as int]));
        let dts = match &x.value {
            Some(v) => starts_with(v.as_str(), "DTS-HD"),
            None => false,
        };
        if same(x.field.as_str(), "audio") && dts && x.start <= r.start && r.end <= x.end {
            return true;
        }
        j = j + 1;
    }
    false
}

fn hdtv_only_from_audio(records: &[Record], technical: &[Record]) -> (b: bool)
    ensures
        b == hdtv_from_audio(records@, record_views(technical@)),
{
    let ghost t = record_views(technical@);
    let mut any = false;
    let mut i: usize = 0;
    while i < records.len()
        invariant
            i <= records@.len(),
            t == record_views(technical@),
            any == exists|k: int| 0 <= k < i && hdtv_source(#[trigger] records@[k]),
            forall|k: int|
                0 <= k < i && hdtv_source(#[trigger] records@[k]) ==> exists|j: int|
                    0 <= j < t.len() && dts_hd_covers(#[trigger] t[j], records@[k]),
        decreases records@.len() - i,
    {
        let r = &records[i];
        let source = same(r.field.as_str(), "quality") && record_has_value(r, "HDTV");
        if source {
            if !covered_by_dts_hd(r, technical) {
                return false;
            }
            any = true;
        }
        i = i + 1;
    }
    any
}

/// Drops an `HDTV` quality read out of DTS-HD labels (see `without_hdtv`).
pub fn drop_audio_hdtv(result: &mut Fields, records: &[Record], technical: &[Record])
    ensures
        final(result)@ == without_hdtv(records@, record_views(technical@), old(result)@),
{
    let hdtv = match result.get("quality") {
        Some(v) => match v.as_text() {
            Some(q) => same(q.as_str(), "HDTV"),
            None => false,
        },
        None => false,
    };
    if hdtv && hdtv_only_from_audio(records, technical) {
        result.remove("quality");
    }
}

fn flag_edition(result: &mut Fields, edition: &str, field: &str)
    ensures
        final(result)@ == edition_flag(old(result)@, edition@, field@),
{
    let hit = match result.get("edition") {
        Some(v) => match v.as_text() {
            Some(e) => same(e.as_str(), edition),
            None => false,
        },
        None => false,
    };
    if hit {
        result.insert(field, FieldValue::Flag(true));
    }
}

/// Sets the `extended` and `remastered` flags from the edition.
pub fn mark_editions(result: &mut Fields)
    ensures
        final(result)@ == with_editions(old(result)@),
{
    flag_edition(result, "Extended Edition", "extended");
    flag_edition(result, "Remastered", "remastered");
}

fn language_names(codes: &Vec<String>, data: &LanguageData) -> (r: Vec<String>)
    ensures
        view_strings(r@) == names_of(*data, view_strings(codes@)),
{
    let ghost cs = view_strings(codes@);
    let mut out: Vec<String> = Vec::new();
    let mut i: usize = 0;
    while i < codes.len()
        invariant
            i <= codes@.len(),
            cs == view_strings(codes@),
            view_strings(out@) == names_of(*data, cs.subrange(0, i as int)),
        decreases codes@.len() - i,
    {
        assert(cs.subrange(0, i + 1).drop_last() =~= cs.subrange(0, i as int));
        assert(cs.subrange(0, i + 1).last() == codes@[i as int]@);
        if let Some(n) = language_name(codes[i].as_str(), data) {
            out.push(n);
        }
        assert(view_strings(out@) =~= names_of(*data, cs.subrange(0, i + 1)));
        i = i + 1;
    }
    assert(cs.subrange(0, i as int) =~= cs);
    out
}

fn translate_field(result: &mut Fields, data: &LanguageData, field: &str)
    ensures
        final(result)@ == translated_field(*data, old(result)@, field@),
{
    let codes = strings(result.get(field));
    let names = language_names(&codes, data);
    set_strings(result, field, names);
}

/// Replaces the language codes of both language fields by their names.
pub fn translate_languages(result: &mut Fields, data: &LanguageData)
    ensures
        final(result)@ == translated(*data, old(result)@),
{
    translate_field(result, data, "audio_languages");
    translate_field(result, data, "subtitle_languages");
}

impl<'a> Details<'a> {
    /// The detailed-metadata pass over one parse result (see `apply_of`): on
    /// success the result is what `apply_of` gives; on a failed search the
    /// error is returned and the result is left as it was.
    pub fn apply(&self, result: &mut Fields, translate: bool) -> (r: Result<(), ParseError>)
        requires
            languages_within(self.records(), self.text().len() as int),
        ensures
            match r {
                Ok(()) => self.apply_of(old(result)@, translate) == Ok::<
                    Map<Seq<char>, FieldView>,
                    Seq<char>,
                >(final(result)@),
                Err(e) => self.apply_of(old(result)@, translate) == Err::<
                    Map<Seq<char>, FieldView>,
                    Seq<char>,
                >(message(e)) && final(result)@ == old(result)@,
            },
    {
        let technical = match self.technical_matches() {
            Ok(v) => v,
            Err(e) => return Err(e),
        };
        match self.languages(result, technical.as_slice()) {
            Ok(()) => {},
            Err(e) => return Err(e),
        }
        let records = self.record_list();
        drop_annotation_group(result, self.lexicon_ref());
        merge_technical(result, records, technical.as_slice(), "audio");
        merge_technical(result, records, technical.as_slice(), "channels");
        merge_technical(result, records, technical.as_slice(), "hdr");
        merge_technical(result, records, technical.as_slice(), "dolby_vision_profiles");
        add_dolby_vision(result);
        drop_audio_hdtv(result, records, technical.as_slice());
        mark_editions(result);
        if translate {
            translate_languages(result, &self.lexicon_ref().data);
        }
        Ok(())
    }
}
} // verus!
