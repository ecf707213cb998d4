//! Audio and subtitle languages: the languages found by earlier handlers,
//! release markers, explicit regional codes and labelled language names,
//! each given its role and its regional form.
use crate::blocks::view_blocks;
use crate::details::{overlaps, Details};
use crate::fields::{field_strings, set_strings, strings, FieldView, Fields, Record, string_list};
use crate::language::{regional, regional_language};
use crate::matching::{
    has_match, matches_in, message, spans, spans_of, spans_placed, span_texts_valid, text_of,
    view_span, view_spans, well_placed,
};
use crate::patterns::{
    BRAZILIAN, REGIONAL_CODE, RELEASE_MARKER, SIMPLIFIED, SUBBED, SUBTITLE_FILE, TRADITIONAL,
    UPPER_CODE,
};
use crate::technical::{record_views, TechRecord};
use crate::text::{
    contains_char, lower_case, same, split_dash, split_dash_nonempty, split_on_dash,
    to_lower, to_upper, upper_case, view_strings,
};
use crate::ParseError;
use vstd::prelude::*;
use vstd::utf8::{decode_utf8, valid_utf8};

verus! {

/// A language found at a byte range: `(start, end, code)`.
pub type Entry = (int, int, Seq<char>);

pub open spec fn entry_view(e: (usize, usize, String)) -> Entry {
    (e.0 as int, e.1 as int, e.2@)
}

pub open spec fn entry_views(v: Seq<(usize, usize, String)>) -> Seq<Entry> {
    v.map_values(|e: (usize, usize, String)| entry_view(e))
}

/// The value of field `k`, if present.
pub open spec fn field_of(m: Map<Seq<char>, FieldView>, k: Seq<char>) -> Option<FieldView> {
    if m.contains_key(k) {
        Some(m[k])
    } else {
        None
    }
}

/// The languages records with a string value, as entries.
pub open spec fn detected_of(rs: Seq<Record>) -> Seq<Entry>
    decreases rs.len(),
{
    if rs.len() == 0 {
        Seq::empty()
    } else {
        let d = detected_of(rs.drop_last());
        let r = rs.last();
        if r.field@ == "languages"@ && r.value is Some {
            d.push((r.start as int, r.end as int, r.value->0@))
        } else {
            d
        }
    }
}

/// The language of an upper-cased release marker.
pub open spec fn marker_code(m: Seq<char>) -> Seq<char> {
    if m == "VFQ"@ || m == "VOQ"@ || m == "VQ"@ {
        "fr-CA"@
    } else if m == "VFB"@ {
        "fr-BE"@
    } else if m == "VFF"@ || m == "TRUEFRENCH"@ {
        "fr-FR"@
    } else if m == "VOSTFR"@ || m == "SUBFRENCH"@ || m == "FRENCH"@ {
        "fr"@
    } else if m == "VOSTA"@ || m == "ENGSUB"@ || m == "ESUB"@ || m == "ESUBS"@ {
        "en"@
    } else {
        "multi"@
    }
}

/// The two-letter code `de` written in any case.
pub open spec fn is_de(text: Seq<u8>) -> bool {
    text.len() == 2 && (text[0] == 0x64 || text[0] == 0x44) && (text[1] == 0x65 || text[1] == 0x45)
}

/// The code `DE` in capitals.
pub open spec fn is_upper_de(text: Seq<u8>) -> bool {
    text.len() == 2 && text[0] == 0x44 && text[1] == 0x45
}

/// A code refined by the text that named it: traditional or simplified
/// Chinese, Brazilian Portuguese.
pub open spec fn refined_code(code: Seq<char>, text: Seq<u8>) -> Seq<char> {
    if code == "zh"@ && matches_in(TRADITIONAL@, text) {
        "zh-Hant"@
    } else if code == "zh"@ && matches_in(SIMPLIFIED@, text) {
        "zh-Hans"@
    } else if code == "pt"@ && matches_in(BRAZILIAN@, text) {
        "pt-BR"@
    } else {
        code
    }
}

/// Position `(start, end)` of key `a` comes after that of `b`.
pub open spec fn entry_after(a: Entry, b: Entry) -> bool {
    a.0 > b.0 || (a.0 == b.0 && a.1 > b.1)
}

/// Where `x` goes in `s`: before the first entry that comes after it.
pub open spec fn place(s: Seq<Entry>, x: Entry) -> int
    decreases s.len(),
{
    if s.len() == 0 {
        0
    } else if entry_after(s[0], x) {
        0
    } else {
        1 + place(s.drop_first(), x)
    }
}

/// `s` stably sorted by position.
pub open spec fn sort_entries(s: Seq<Entry>) -> Seq<Entry>
    decreases s.len(),
{
    if s.len() == 0 {
        s
    } else {
        let r = sort_entries(s.drop_last());
        r.insert(place(r, s.last()), s.last())
    }
}

/// The entries of `d` that overlap no entry of `ex`.
pub open spec fn not_overlapped(d: Seq<Entry>, ex: Seq<Entry>) -> Seq<Entry>
    decreases d.len(),
{
    if d.len() == 0 {
        Seq::empty()
    } else {
        let r = not_overlapped(d.drop_last(), ex);
        if exists|i: int| 0 <= i < ex.len() && overlaps((d.last().0, d.last().1), ((#[trigger] ex[i]).0, ex[i].1)) {
            r
        } else {
            r.push(d.last())
        }
    }
}

/// Every entry to classify, in title order: the detected entries that no
/// explicit entry overlaps, and the explicit entries.
pub open spec fn merged(d: Seq<Entry>, ex: Seq<Entry>) -> Seq<Entry> {
    sort_entries(not_overlapped(d, ex) + ex)
}

/// The language subtag of a code, lower-cased.
pub open spec fn base_of(code: Seq<char>) -> Seq<char> {
    lower_case(split_dash(code)[0])
}

/// `values` without the bare codes whose language has a regional form among
/// them.
pub open spec fn without_bare(values: Seq<Seq<char>>, all: Seq<Seq<char>>) -> Seq<Seq<char>>
    decreases values.len(),
{
    if values.len() == 0 {
        Seq::empty()
    } else {
        let r = without_bare(values.drop_last(), all);
        let v = values.last();
        if v.contains('-') || !(exists|i: int|
            0 <= i < all.len() && (#[trigger] all[i]).contains('-') && base_of(all[i]) == lower_case(v))
        {
            r.push(v)
        } else {
            r
        }
    }
}

/// The regional forms of the known codes of `values`, in order.
pub open spec fn regional_forms(data: crate::language::LanguageData, values: Seq<Seq<char>>) -> Seq<Seq<char>>
    decreases values.len(),
{
    if values.len() == 0 {
        Seq::empty()
    } else {
        let r = regional_forms(data, values.drop_last());
        match regional(data, values.last()) {
            Some(c) => r.push(c),
            None => r,
        }
    }
}

/// The final codes of one role: bare codes dropped when a regional form of
/// their language is present, the rest in regional form.
pub open spec fn final_codes(data: crate::language::LanguageData, values: Seq<Seq<char>>) -> Seq<Seq<char>> {
    regional_forms(data, without_bare(values, values))
}

impl<'a> Details<'a> {
    /// What one release marker adds to the explicit entries: nothing out of
    /// metadata position, nor for a bare FRENCH that is unlabelled and stands
    /// in the title proper, in a subbed release or in a trailing unclosed
    /// block; both French variants for VF2 and FR2; else its language.
    pub open spec fn marker_step(&self, ex: Seq<Entry>, sp: (int, int, Seq<u8>)) -> Seq<Entry> {
        let t = self.text();
        let (start, end) = (sp.0, sp.1);
        if !self.metadata_at((start, end)) {
            ex
        } else {
            let m = upper_case(decode_utf8(sp.2));
            if m == "FRENCH"@ && !self.labelled_span((start, end)) && (start < self.title_end()
                || matches_in(SUBBED@, t) || exists|k: int|
                0 <= k < self.blocks().len() && (#[trigger] self.blocks()[k]).0 < start
                    && self.blocks()[k].1 == t.len()) {
                ex
            } else if m == "VF2"@ || m == "FR2"@ {
                ex.push((start, end, "fr-FR"@)).push((start, end, "fr-CA"@))
            } else {
                ex.push((start, end, marker_code(m)))
            }
        }
    }

    pub open spec fn marker_fold(&self, ex: Seq<Entry>, ss: Seq<(int, int, Seq<u8>)>) -> Seq<Entry>
        decreases ss.len(),
    {
        if ss.len() == 0 {
            ex
        } else {
            self.marker_step(self.marker_fold(ex, ss.drop_last()), ss.last())
        }
    }

    /// The explicit entries after the release markers.
    pub open spec fn markers_of(&self, ex: Seq<Entry>) -> Result<Seq<Entry>, Seq<char>> {
        match spans_of(RELEASE_MARKER@, self.text()) {
            Ok(ss) => Ok(self.marker_fold(ex, ss)),
            Err(m) => Err(m),
        }
    }

    /// What one regional code adds: itself when it is known and in metadata
    /// position.
    pub open spec fn regional_step(&self, ex: Seq<Entry>, sp: (int, int, Seq<u8>)) -> Seq<Entry> {
        if regional(self.lexicon().data, decode_utf8(sp.2)) is Some && self.metadata_at((sp.0, sp.1)) {
            ex.push((sp.0, sp.1, decode_utf8(sp.2)))
        } else {
            ex
        }
    }

    pub open spec fn regional_fold(&self, ex: Seq<Entry>, ss: Seq<(int, int, Seq<u8>)>) -> Seq<Entry>
        decreases ss.len(),
    {
        if ss.len() == 0 {
            ex
        } else {
            self.regional_step(self.regional_fold(ex, ss.drop_last()), ss.last())
        }
    }

    /// The explicit entries after the regional codes.
    pub open spec fn regionals_of(&self, ex: Seq<Entry>) -> Result<Seq<Entry>, Seq<char>> {
        match spans_of(REGIONAL_CODE@, self.text()) {
            Ok(ss) => Ok(self.regional_fold(ex, ss)),
            Err(m) => Err(m),
        }
    }

    /// What one match of a language's pattern adds: the language, when the
    /// match overlaps no technical record, has a role or a label, stands in
    /// metadata position, and overlaps no entry found so far.
    pub open spec fn named_step(
        &self,
        ex: Seq<Entry>,
        det: Seq<Entry>,
        technical: Seq<TechRecord>,
        code: Seq<char>,
        sp: (int, int, Seq<u8>),
    ) -> Seq<Entry> {
        let span = (sp.0, sp.1);
        let found = det + ex;
        if exists|i: int| 0 <= i < technical.len() && overlaps(span, ((#[trigger] technical[i]).1, technical[i].2)) {
            ex
        } else if (self.subtitle_role_of(span) || self.labelled_span(span)) && self.metadata_at(span)
            && !(exists|i: int| 0 <= i < found.len() && overlaps(span, ((#[trigger] found[i]).0, found[i].1))) {
            ex.push((sp.0, sp.1, code))
        } else {
            ex
        }
    }

    pub open spec fn named_fold(
        &self,
        ex: Seq<Entry>,
        det: Seq<Entry>,
        technical: Seq<TechRecord>,
        code: Seq<char>,
        ss: Seq<(int, int, Seq<u8>)>,
    ) -> Seq<Entry>
        decreases ss.len(),
    {
        if ss.len() == 0 {
            ex
        } else {
            self.named_step(self.named_fold(ex, det, technical, code, ss.drop_last()), det, technical, code, ss.last())
        }
    }

    /// The explicit entries after the matches of the first `k` language
    /// patterns.
    pub open spec fn named_of(&self, ex: Seq<Entry>, det: Seq<Entry>, technical: Seq<TechRecord>, k: int) -> Result<
        Seq<Entry>,
        Seq<char>,
    >
        decreases k,
    {
        if k <= 0 {
            Ok(ex)
        } else {
            match self.named_of(ex, det, technical, k - 1) {
                Err(m) => Err(m),
                Ok(e) => {
                    let p = self.lexicon().patterns@[k - 1];
                    match spans_of(p.1@, self.text()) {
                        Err(m) => Err(m),
                        Ok(ss) => Ok(self.named_fold(e, det, technical, p.0@, ss)),
                    }
                },
            }
        }
    }

    /// The explicit entries: release markers, regional codes, then languages
    /// named by their patterns.
    pub open spec fn explicit_of(&self, det: Seq<Entry>, technical: Seq<TechRecord>) -> Result<Seq<Entry>, Seq<char>> {
        match self.markers_of(Seq::empty()) {
            Err(m) => Err(m),
            Ok(e1) => match self.regionals_of(e1) {
                Err(m) => Err(m),
                Ok(e2) => self.named_of(e2, det, technical, self.lexicon().patterns@.len() as int),
            },
        }
    }
}

} // verus!

verus! {
impl<'a> Details<'a> {
    /// The code of an entry as it is classified: refined by its text, kept
    /// among the subtitle languages when it has the subtitle role and among
    /// the audio languages otherwise.
    pub open spec fn classify(&self, acc: (Seq<Seq<char>>, Seq<Seq<char>>), e: Entry) -> (Seq<Seq<char>>, Seq<Seq<char>>) {
        let code = refined_code(e.2, self.text().subrange(e.0, e.1));
        if self.subtitle_role_of((e.0, e.1)) {
            (acc.0, acc.1.push(code))
        } else {
            (acc.0.push(code), acc.1)
        }
    }

    /// A `de` that may be the German word rather than the language: written
    /// as `de`, unlabelled, without a role, and not standing alone between
    /// dots after the title proper.
    pub open spec fn dubious_de(&self, e: Entry) -> bool {
        let t = self.text();
        let span = (e.0, e.1);
        &&& e.2 == "de"@
        &&& is_de(t.subrange(e.0, e.1))
        &&& !self.labelled_span(span)
        &&& !self.subtitle_role_of(span)
        &&& !(e.0 >= self.title_end() && e.0 > 0 && t[e.0 - 1] == 0x2e && e.1 < t.len() && t[e.1] == 0x2e)
    }

    /// What one entry adds to the audio and subtitle languages: nothing when
    /// excluded, nor for a dubious `de` unless it is a capital `DE` in a title
    /// with at least three capital two- or three-letter words; else its
    /// classified code.
    pub open spec fn role_step(&self, acc: (Seq<Seq<char>>, Seq<Seq<char>>), e: Entry) -> Result<
        (Seq<Seq<char>>, Seq<Seq<char>>),
        Seq<char>,
    > {
        let t = self.text();
        if self.excluded_at((e.0, e.1)) {
            Ok(acc)
        } else if self.dubious_de(e) {
            if is_upper_de(t.subrange(e.0, e.1)) {
                match spans_of(UPPER_CODE@, t) {
                    Err(m) => Err(m),
                    Ok(ss) => if ss.len() >= 3 {
                        Ok(self.classify(acc, e))
                    } else {
                        Ok(acc)
                    },
                }
            } else {
                Ok(acc)
            }
        } else {
            Ok(self.classify(acc, e))
        }
    }

    pub open spec fn role_fold(&self, acc: (Seq<Seq<char>>, Seq<Seq<char>>), es: Seq<Entry>) -> Result<
        (Seq<Seq<char>>, Seq<Seq<char>>),
        Seq<char>,
    >
        decreases es.len(),
    {
        if es.len() == 0 {
            Ok(acc)
        } else {
            match self.role_fold(acc, es.drop_last()) {
                Err(m) => Err(m),
                Ok(a) => self.role_step(a, es.last()),
            }
        }
    }

    /// A code among the detected codes or the languages of the explicit
    /// entries.
    pub open spec fn recorded(det: Seq<Entry>, ex: Seq<Entry>, c: Seq<char>) -> bool {
        ||| exists|i: int| 0 <= i < det.len() && (#[trigger] det[i]).2 == c
        ||| exists|i: int| 0 <= i < ex.len() && base_of((#[trigger] ex[i]).2) == c
    }

    /// The earlier parser's languages that no entry records: subtitle
    /// languages for a subtitle file, audio languages otherwise.
    pub open spec fn unrecorded_fold(
        &self,
        acc: (Seq<Seq<char>>, Seq<Seq<char>>),
        det: Seq<Entry>,
        ex: Seq<Entry>,
        codes: Seq<Seq<char>>,
    ) -> (Seq<Seq<char>>, Seq<Seq<char>>)
        decreases codes.len(),
    {
        if codes.len() == 0 {
            acc
        } else {
            let a = self.unrecorded_fold(acc, det, ex, codes.drop_last());
            let c = codes.last();
            if Self::recorded(det, ex, c) {
                a
            } else if matches_in(SUBTITLE_FILE@, self.text()) {
                (a.0, a.1.push(c))
            } else {
                (a.0.push(c), a.1)
            }
        }
    }

    /// The result after language detection: `languages` replaced by
    /// `audio_languages` and `subtitle_languages` in regional form, or the
    /// first failed search.
    pub open spec fn languages_of(&self, fields: Map<Seq<char>, FieldView>, technical: Seq<TechRecord>) -> Result<
        Map<Seq<char>, FieldView>,
        Seq<char>,
    > {
        let det = detected_of(self.records());
        match self.explicit_of(det, technical) {
            Err(m) => Err(m),
            Ok(ex) => match self.role_fold(
                (Seq::empty(), field_strings(field_of(fields, "subtitle_languages"@))),
                merged(det, ex),
            ) {
                Err(m) => Err(m),
                Ok(acc) => {
                    let acc2 = self.unrecorded_fold(acc, det, ex, field_strings(field_of(fields, "languages"@)));
                    Ok(
                        fields.remove("languages"@).insert(
                            "audio_languages"@,
                            string_list(final_codes(self.lexicon().data, acc2.0)),
                        ).insert(
                            "subtitle_languages"@,
                            string_list(final_codes(self.lexicon().data, acc2.1)),
                        ),
                    )
                },
            },
        }
    }
}

} // verus!

verus! {

/// The language of an upper-cased release marker (see `marker_code`).
fn marker_language(m: &str) -> (r: &'static str)
    ensures
        r@ == marker_code(m@),
{
    if same(m, "VFQ") || same(m, "VOQ") || same(m, "VQ") {
        "fr-CA"
    } else if same(m, "VFB") {
        "fr-BE"
    } else if same(m, "VFF") || same(m, "TRUEFRENCH") {
        "fr-FR"
    } else if same(m, "VOSTFR") || same(m, "SUBFRENCH") || same(m, "FRENCH") {
        "fr"
    } else if same(m, "VOSTA") || same(m, "ENGSUB") || same(m, "ESUB") || same(m, "ESUBS") {
        "en"
    } else {
        "multi"
    }
}

impl<'a> Details<'a> {
    /// The languages records with a string value, as entries.
    fn detected_languages(&self) -> (r: Vec<(usize, usize, String)>)
        ensures
            entry_views(r@) == detected_of(self.records()),
    {
        let rs = self.record_list();
        let mut out: Vec<(usize, usize, String)> = Vec::new();
        let mut i: usize = 0;
        while i < rs.len()
            invariant
                i <= rs@.len(),
                rs@ == self.records(),
                entry_views(out@) == detected_of(rs@.subrange(0, i as int)),
            decreases rs@.len() - i,
        {
            assert(rs@.subrange(0, i + 1).drop_last() =~= rs@.subrange(0, i as int));
            let r = &rs[i];
            if same(r.field.as_str(), "languages") {
                match &r.value {
                    Some(v) => {
                        let ghost before = entry_views(out@);
                        out.push((r.start, r.end, v.clone()));
                        assert(entry_views(out@) =~= before.push((r.start as int, r.end as int, v@)));
                    },
                    None => {},
                }
            }
            i = i + 1;
        }
        assert(rs@.subrange(0, i as int) =~= rs@);
        out
    }

    /// Whether an unclosed block opens before `p`.
    fn unclosed_block_before(&self, p: usize) -> (r: bool)
        ensures
            r == exists|k: int|
                0 <= k < self.blocks().len() && (#[trigger] self.blocks()[k]).0 < p && self.blocks()[k].1
                    == self.text().len(),
    {
        let blocks = self.block_list();
        let len = self.title_str().as_bytes().len();
        let mut k: usize = 0;
        while k < blocks.len()
            invariant
                k <= blocks@.len(),
                view_blocks(blocks@) == self.blocks(),
                len == self.text().len(),
                forall|j: int|
                    0 <= j < k ==> !((#[trigger] self.blocks()[j]).0 < p && self.blocks()[j].1 == len),
            decreases blocks@.len() - k,
        {
            assert(self.blocks()[k as int] == (blocks@[k as int].0 as int, blocks@[k as int].1 as int));
            if blocks[k].0 < p && blocks[k].1 == len {
                return true;
            }
            k = k + 1;
        }
        false
    }

    /// Adds the release markers' languages (see `markers_of`).
    fn add_markers(&self, ex: &mut Vec<(usize, usize, String)>) -> (r: Result<(), ParseError>)
        requires
            entries_within(entry_views(old(ex)@), self.text().len() as int),
        ensures
            entries_within(entry_views(final(ex)@), self.text().len() as int),
            match r {
                Ok(()) => self.markers_of(entry_views(old(ex)@)) == Ok::<Seq<Entry>, Seq<char>>(entry_views(final(ex)@)),
                Err(e) => self.markers_of(entry_views(old(ex)@)) == Err::<Seq<Entry>, Seq<char>>(message(e)),
            },
    {
        let t = self.title_str().as_bytes();
        proof {
            self.text_valid();
        }
        let ss = match spans(RELEASE_MARKER, t) {
            Ok(v) => v,
            Err(e) => return Err(e),
        };
        let ghost sv = view_spans(ss@);
        let ghost e0 = entry_views(ex@);
        let mut i: usize = 0;
        assert(sv.subrange(0, 0) =~= Seq::<(int, int, Seq<u8>)>::empty());
        while i < ss.len()
            invariant
                i <= ss@.len(),
                sv == view_spans(ss@),
                spans_of(RELEASE_MARKER@, t@) == Ok::<Seq<(int, int, Seq<u8>)>, Seq<char>>(sv),
                spans_placed(t@, sv),
                span_texts_valid(t@, sv),
                t@ == self.text(),
                valid_utf8(t@),
                entry_views(ex@) == self.marker_fold(e0, sv.subrange(0, i as int)),
                entries_within(entry_views(ex@), t@.len() as int),
            decreases ss@.len() - i,
        {
            assert(sv.subrange(0, i + 1).drop_last() =~= sv.subrange(0, i as int));
            assert(sv[i as int] == view_span(ss@[i as int]));
            assert(well_placed(t@, (sv[i as int].0, sv[i as int].1)));
            let (start, end) = (ss[i].0, ss[i].1);
            let ghost before = entry_views(ex@);
            if self.metadata_position((start, end)) {
                let marker = to_upper(text_of(ss[i].2.as_slice()).as_str());
                let skip = same(marker.as_str(), "FRENCH") && !self.labelled((start, end)) && (start
                    < self.end_of_title() || has_match(SUBBED, t) || self.unclosed_block_before(start));
                if skip {
                } else if same(marker.as_str(), "VF2") || same(marker.as_str(), "FR2") {
                    ex.push((start, end, "fr-FR".to_owned()));
                    ex.push((start, end, "fr-CA".to_owned()));
                    assert(entry_views(ex@) =~= before.push((start as int, end as int, "fr-FR"@)).push(
                        (start as int, end as int, "fr-CA"@),
                    ));
                } else {
                    ex.push((start, end, marker_language(marker.as_str()).to_owned()));
                    assert(entry_views(ex@) =~= before.push(
                        (start as int, end as int, marker_code(marker@)),
                    ));
                }
            }
            i = i + 1;
        }
        assert(sv.subrange(0, i as int) =~= sv);
        Ok(())
    }

    /// Adds the known regional codes in metadata position (see
    /// `regionals_of`).
    fn add_regional_codes(&self, ex: &mut Vec<(usize, usize, String)>) -> (r: Result<(), ParseError>)
        requires
            entries_within(entry_views(old(ex)@), self.text().len() as int),
        ensures
            entries_within(entry_views(final(ex)@), self.text().len() as int),
            match r {
                Ok(()) => self.regionals_of(entry_views(old(ex)@)) == Ok::<Seq<Entry>, Seq<char>>(entry_views(final(ex)@)),
                Err(e) => self.regionals_of(entry_views(old(ex)@)) == Err::<Seq<Entry>, Seq<char>>(message(e)),
            },
    {
        let t = self.title_str().as_bytes();
        proof {
            self.text_valid();
        }
        let ss = match spans(REGIONAL_CODE, t) {
            Ok(v) => v,
            Err(e) => return Err(e),
        };
        let ghost sv = view_spans(ss@);
        let ghost e0 = entry_views(ex@);
        let mut i: usize = 0;
        assert(sv.subrange(0, 0) =~= Seq::<(int, int, Seq<u8>)>::empty());
        while i < ss.len()
            invariant
                i <= ss@.len(),
                sv == view_spans(ss@),
                spans_of(REGIONAL_CODE@, t@) == Ok::<Seq<(int, int, Seq<u8>)>, Seq<char>>(sv),
                spans_placed(t@, sv),
                span_texts_valid(t@, sv),
                t@ == self.text(),
                valid_utf8(t@),
                entry_views(ex@) == self.regional_fold(e0, sv.subrange(0, i as int)),
                entries_within(entry_views(ex@), t@.len() as int),
            decreases ss@.len() - i,
        {
            assert(sv.subrange(0, i + 1).drop_last() =~= sv.subrange(0, i as int));
            assert(sv[i as int] == view_span(ss@[i as int]));
            assert(well_placed(t@, (sv[i as int].0, sv[i as int].1)));
            let (start, end) = (ss[i].0, ss[i].1);
            let ghost before = entry_views(ex@);
            let code = text_of(ss[i].2.as_slice());
            if regional_language(code.as_str(), &self.lexicon_ref().data).is_some()
                && self.metadata_position((start, end)) {
                ex.push((start, end, code));
                assert(entry_views(ex@) =~= before.push((start as int, end as int, decode_utf8(sv[i as int].2))));
            }
            i = i + 1;
        }
        assert(sv.subrange(0, i as int) =~= sv);
        Ok(())
    }
}

/// Whether `(start, end)` overlaps the range of some entry of `es`.
fn overlaps_entry(es: &Vec<(usize, usize, String)>, start: usize, end: usize) -> (r: bool)
    ensures
        r == exists|i: int|
            0 <= i < entry_views(es@).len() && overlaps(
                (start as int, end as int),
                ((#[trigger] entry_views(es@)[i]).0, entry_views(es@)[i].1),
            ),
{
    let ghost ev = entry_views(es@);
    let mut i: usize = 0;
    while i < es.len()
        invariant
            i <= es@.len(),
            ev == entry_views(es@),
            forall|j: int|
                0 <= j < i ==> !overlaps((start as int, end as int), ((#[trigger] ev[j]).0, ev[j].1)),
        decreases es@.len() - i,
    {
        assert(ev[i as int] == entry_view(es@[i as int]));
        if start < es[i].1 && es[i].0 < end {
            assert(overlaps((start as int, end as int), (ev[i as int].0, ev[i as int].1)));
            return true;
        }
        i = i + 1;
    }
    false
}

/// Whether `(start, end)` overlaps some technical record.
fn overlaps_record(rs: &[Record], start: usize, end: usize) -> (r: bool)
    ensures
        r == exists|i: int|
            0 <= i < record_views(rs@).len() && overlaps(
                (start as int, end as int),
                ((#[trigger] record_views(rs@)[i]).1, record_views(rs@)[i].2),
            ),
{
    let ghost rv = record_views(rs@);
    let mut i: usize = 0;
    while i < rs.len()
        invariant
            i <= rs@.len(),
            rv == record_views(rs@),
            forall|j: int|
                0 <= j < i ==> !overlaps((start as int, end as int), ((#[trigger] rv[j]).1, rv[j].2)),
        decreases rs@.len() - i,
    {
        assert(rv[i as int].1 == rs@[i as int].start && rv[i as int].2 == rs@[i as int].end);
        if start < rs[i].end && rs[i].start < end {
            assert(overlaps((start as int, end as int), (rv[i as int].1, rv[i as int].2)));
            return true;
        }
        i = i + 1;
    }
    false
}

} // verus!

verus! {

impl<'a> Details<'a> {
    proof fn named_failed(&self, ex: Seq<Entry>, det: Seq<Entry>, technical: Seq<TechRecord>, k: int, n: int)
        requires
            0 <= k <= n,
            self.named_of(ex, det, technical, k) is Err,
        ensures
            self.named_of(ex, det, technical, n) == self.named_of(ex, det, technical, k),
        decreases n - k,
    {
        if k < n {
            self.named_failed(ex, det, technical, k, n - 1);
        }
    }

    /// Adds the languages named by their patterns (see `named_of`).
    fn add_named_languages(
        &self,
        det: &Vec<(usize, usize, String)>,
        technical: &[Record],
        ex: &mut Vec<(usize, usize, String)>,
    ) -> (r: Result<(), ParseError>)
        requires
            entries_within(entry_views(old(ex)@), self.text().len() as int),
        ensures
            entries_within(entry_views(final(ex)@), self.text().len() as int),
            match r {
                Ok(()) => self.named_of(
                    entry_views(old(ex)@),
                    entry_views(det@),
                    record_views(technical@),
                    self.lexicon().patterns@.len() as int,
                ) == Ok::<Seq<Entry>, Seq<char>>(entry_views(final(ex)@)),
                Err(e) => self.named_of(
                    entry_views(old(ex)@),
                    entry_views(det@),
                    record_views(technical@),
                    self.lexicon().patterns@.len() as int,
                ) == Err::<Seq<Entry>, Seq<char>>(message(e)),
            },
    {
        let t = self.title_str().as_bytes();
        proof {
            self.text_valid();
        }
        let ghost e0 = entry_views(ex@);
        let ghost dv = entry_views(det@);
        let ghost tv = record_views(technical@);
        let patterns = &self.lexicon_ref().patterns;
        let mut k: usize = 0;
        while k < patterns.len()
            invariant
                k <= patterns@.len(),
                patterns@ == self.lexicon().patterns@,
                t@ == self.text(),
                valid_utf8(t@),
                dv == entry_views(det@),
                tv == record_views(technical@),
                self.named_of(e0, dv, tv, k as int) == Ok::<Seq<Entry>, Seq<char>>(entry_views(ex@)),
                e0 == entry_views(old(ex)@),
                entries_within(entry_views(ex@), t@.len() as int),
            decreases patterns@.len() - k,
        {
            let ghost before_k = entry_views(ex@);
            let code = &patterns[k].0;
            let ss = match spans(patterns[k].1.as_str(), t) {
                Ok(v) => v,
                Err(e) => {
                    proof {
                        assert(self.named_of(e0, dv, tv, k + 1) == Err::<Seq<Entry>, Seq<char>>(message(e)));
                        self.named_failed(e0, dv, tv, k + 1, patterns@.len() as int);
                    }
                    return Err(e);
                },
            };
            let ghost sv = view_spans(ss@);
            let mut i: usize = 0;
            assert(sv.subrange(0, 0) =~= Seq::<(int, int, Seq<u8>)>::empty());
            while i < ss.len()
                invariant
                    i <= ss@.len(),
                    sv == view_spans(ss@),
                    spans_placed(t@, sv),
                    t@ == self.text(),
                    dv == entry_views(det@),
                    tv == record_views(technical@),
                    entry_views(ex@) == self.named_fold(before_k, dv, tv, code@, sv.subrange(0, i as int)),
                    entries_within(entry_views(ex@), t@.len() as int),
                decreases ss@.len() - i,
            {
                assert(sv.subrange(0, i + 1).drop_last() =~= sv.subrange(0, i as int));
                assert(sv[i as int] == view_span(ss@[i as int]));
                assert(well_placed(t@, (sv[i as int].0, sv[i as int].1)));
                let (start, end) = (ss[i].0, ss[i].1);
                let ghost before = entry_views(ex@);
                if !overlaps_record(technical, start, end) {
                    if (self.subtitle_role((start, end)) || self.labelled((start, end)))
                        && self.metadata_position((start, end)) && !overlaps_entry(det, start, end)
                        && !overlaps_entry(ex, start, end) {
                        ex.push((start, end, code.clone()));
                        assert(entry_views(ex@) =~= before.push((start as int, end as int, code@)));
                    }
                    proof {
                        let found = dv + before;
                        let sp = (start as int, end as int);
                        assert((exists|j: int| 0 <= j < found.len() && overlaps(sp, ((#[trigger] found[j]).0, found[j].1)))
                            == ((exists|j: int| 0 <= j < dv.len() && overlaps(sp, ((#[trigger] dv[j]).0, dv[j].1)))
                            || (exists|j: int| 0 <= j < before.len() && overlaps(sp, ((#[trigger] before[j]).0, before[j].1))))) by {
                            if exists|j: int| 0 <= j < found.len() && overlaps(sp, ((#[trigger] found[j]).0, found[j].1)) {
                                let j = choose|j: int| 0 <= j < found.len() && overlaps(sp, ((#[trigger] found[j]).0, found[j].1));
                                if j < dv.len() {
                                    assert(found[j] == dv[j]);
                                } else {
                                    assert(found[j] == before[j - dv.len()]);
                                }
                            }
                            if exists|j: int| 0 <= j < dv.len() && overlaps(sp, ((#[trigger] dv[j]).0, dv[j].1)) {
                                let j = choose|j: int| 0 <= j < dv.len() && overlaps(sp, ((#[trigger] dv[j]).0, dv[j].1));
                                assert(found[j] == dv[j]);
                            }
                            if exists|j: int| 0 <= j < before.len() && overlaps(sp, ((#[trigger] before[j]).0, before[j].1)) {
                                let j = choose|j: int| 0 <= j < before.len() && overlaps(sp, ((#[trigger] before[j]).0, before[j].1));
                                assert(found[j + dv.len()] == before[j]);
                            }
                        }
                    }
                }
                i = i + 1;
            }
            assert(sv.subrange(0, i as int) =~= sv);
            assert(spans_of(patterns@[k as int].1@, self.text()) == Ok::<Seq<(int, int, Seq<u8>)>, Seq<char>>(sv));
            k = k + 1;
        }
        Ok(())
    }
}

} // verus!

verus! {

fn copy_entry(e: &(usize, usize, String)) -> (r: (usize, usize, String))
    ensures
        entry_view(r) == entry_view(*e),
{
    (e.0, e.1, e.2.clone())
}

/// `v` stably sorted by position (see `sort_entries`).
fn sort_by_position(v: &Vec<(usize, usize, String)>) -> (r: Vec<(usize, usize, String)>)
    ensures
        entry_views(r@) == sort_entries(entry_views(v@)),
{
    let ghost vv = entry_views(v@);
    let mut out: Vec<(usize, usize, String)> = Vec::new();
    let mut i: usize = 0;
    assert(vv.subrange(0, 0) =~= Seq::<Entry>::empty());
    while i < v.len()
        invariant
            i <= v@.len(),
            vv == entry_views(v@),
            entry_views(out@) == sort_entries(vv.subrange(0, i as int)),
        decreases v@.len() - i,
    {
        let x = copy_entry(&v[i]);
        let ghost xv = entry_view(x);
        assert(xv == vv[i as int]);
        let ghost ov = entry_views(out@);
        let mut p: usize = 0;
        assert(ov.subrange(0, ov.len() as int) =~= ov);
        while p < out.len() && !(out[p].0 > x.0 || (out[p].0 == x.0 && out[p].1 > x.1))
            invariant
                p <= out@.len(),
                ov == entry_views(out@),
                xv == entry_view(x),
                place(ov, xv) == p + place(ov.subrange(p as int, ov.len() as int), xv),
            decreases out@.len() - p,
        {
            assert(ov[p as int] == entry_view(out@[p as int]));
            assert(ov.subrange(p as int, ov.len() as int).drop_first() =~= ov.subrange(p + 1, ov.len() as int));
            p = p + 1;
        }
        proof {
            if p < out@.len() {
                assert(ov[p as int] == entry_view(out@[p as int]));
                assert(ov.subrange(p as int, ov.len() as int)[0] == ov[p as int]);
            }
        }
        assert(place(ov, xv) == p);
        out.insert(p, x);
        assert(entry_views(out@) =~= ov.insert(p as int, xv));
        assert(vv.subrange(0, i + 1).drop_last() =~= vv.subrange(0, i as int));
        i = i + 1;
    }
    assert(vv.subrange(0, i as int) =~= vv);
    out
}

/// The detected entries that no explicit entry overlaps, then the explicit
/// entries, in title order (see `merged`).
fn merge_entries(det: &Vec<(usize, usize, String)>, ex: &Vec<(usize, usize, String)>) -> (r: Vec<(usize, usize, String)>)
    ensures
        entry_views(r@) == merged(entry_views(det@), entry_views(ex@)),
{
    let ghost dv = entry_views(det@);
    let ghost xv = entry_views(ex@);
    let mut all: Vec<(usize, usize, String)> = Vec::new();
    let mut i: usize = 0;
    assert(dv.subrange(0, 0) =~= Seq::<Entry>::empty());
    while i < det.len()
        invariant
            i <= det@.len(),
            dv == entry_views(det@),
            xv == entry_views(ex@),
            entry_views(all@) == not_overlapped(dv.subrange(0, i as int), xv),
        decreases det@.len() - i,
    {
        assert(dv.subrange(0, i + 1).drop_last() =~= dv.subrange(0, i as int));
        assert(dv[i as int] == entry_view(det@[i as int]));
        if !overlaps_entry(ex, det[i].0, det[i].1) {
            let ghost before = entry_views(all@);
            all.push(copy_entry(&det[i]));
            assert(entry_views(all@) =~= before.push(dv[i as int]));
        }
        i = i + 1;
    }
    assert(dv.subrange(0, i as int) =~= dv);
    let ghost base = entry_views(all@);
    let mut j: usize = 0;
    while j < ex.len()
        invariant
            j <= ex@.len(),
            xv == entry_views(ex@),
            entry_views(all@) == base + xv.subrange(0, j as int),
        decreases ex@.len() - j,
    {
        let ghost before = entry_views(all@);
        let c = copy_entry(&ex[j]);
        all.push(c);
        assert(xv[j as int] == entry_view(ex@[j as int]));
        assert(entry_views(all@) =~= before.push(entry_view(c)));
        assert(xv.subrange(0, j + 1) =~= xv.subrange(0, j as int).push(xv[j as int]));
        assert(entry_views(all@) =~= base + xv.subrange(0, j + 1));
        j = j + 1;
    }
    assert(xv.subrange(0, j as int) =~= xv);
    sort_by_position(&all)
}

} // verus!

verus! {

/// Every languages record with a value lies within a title of `len` bytes.
pub open spec fn languages_within(rs: Seq<Record>, len: int) -> bool {
    forall|i: int|
        0 <= i < rs.len() && (#[trigger] rs[i]).field@ == "languages"@ && rs[i].value is Some
            ==> rs[i].start <= rs[i].end <= len
}

proof fn detected_within(rs: Seq<Record>, len: int)
    requires
        languages_within(rs, len),
    ensures
        forall|i: int| 0 <= i < detected_of(rs).len() ==> 0 <= (#[trigger] detected_of(rs)[i]).0 <= detected_of(rs)[i].1 <= len,
    decreases rs.len(),
{
    if rs.len() > 0 {
        assert(languages_within(rs.drop_last(), len)) by {
            assert forall|i: int| 0 <= i < rs.drop_last().len() && (#[trigger] rs.drop_last()[i]).field@ == "languages"@
                && rs.drop_last()[i].value is Some implies rs.drop_last()[i].start <= rs.drop_last()[i].end <= len by {
                assert(rs.drop_last()[i] == rs[i]);
            }
        }
        detected_within(rs.drop_last(), len);
        assert(rs.last() == rs[rs.len() - 1]);
        let d = detected_of(rs.drop_last());
        assert forall|i: int| 0 <= i < detected_of(rs).len() implies 0 <= (#[trigger] detected_of(rs)[i]).0
            <= detected_of(rs)[i].1 <= len by {
            if i < d.len() {
                assert(detected_of(rs)[i] == d[i]);
            }
        }
    }
}

pub open spec fn entries_within(es: Seq<Entry>, len: int) -> bool {
    forall|i: int| 0 <= i < es.len() ==> 0 <= (#[trigger] es[i]).0 <= es[i].1 <= len
}

proof fn sort_entries_within(s: Seq<Entry>, len: int)
    requires
        entries_within(s, len),
    ensures
        entries_within(sort_entries(s), len),
        sort_entries(s).len() == s.len(),
    decreases s.len(),
{
    if s.len() > 0 {
        sort_entries_within(s.drop_last(), len);
        let r = sort_entries(s.drop_last());
        place_bound(r, s.last());
        r.insert_ensures(place(r, s.last()), s.last());
        let q = r.insert(place(r, s.last()), s.last());
        assert forall|i: int| 0 <= i < q.len() implies 0 <= (#[trigger] q[i]).0 <= q[i].1 <= len by {
            let p = place(r, s.last());
            if i < p {
                assert(q[i] == r[i]);
            } else if i > p {
                assert(q[i] == r[i - 1]);
            }
        }
    }
}

proof fn place_bound(s: Seq<Entry>, x: Entry)
    ensures
        0 <= place(s, x) <= s.len(),
    decreases s.len(),
{
    if s.len() > 0 {
        place_bound(s.drop_first(), x);
    }
}

proof fn not_overlapped_within(d: Seq<Entry>, ex: Seq<Entry>, len: int)
    requires
        entries_within(d, len),
    ensures
        entries_within(not_overlapped(d, ex), len),
    decreases d.len(),
{
    if d.len() > 0 {
        not_overlapped_within(d.drop_last(), ex, len);
        assert(d.last() == d[d.len() - 1]);
    }
}

impl<'a> Details<'a> {
    proof fn role_failed(&self, acc: (Seq<Seq<char>>, Seq<Seq<char>>), es: Seq<Entry>, k: int)
        requires
            0 <= k <= es.len(),
            self.role_fold(acc, es.subrange(0, k)) is Err,
        ensures
            self.role_fold(acc, es) == self.role_fold(acc, es.subrange(0, k)),
        decreases es.len() - k,
    {
        if k < es.len() {
            assert(es.subrange(0, k + 1).drop_last() =~= es.subrange(0, k));
            self.role_failed(acc, es, k + 1);
        } else {
            assert(es.subrange(0, k) =~= es);
        }
    }

    /// The audio and subtitle languages of the entries (see `role_fold`),
    /// the subtitle languages starting from `subtitles`.
    fn split_roles(&self, entries: &Vec<(usize, usize, String)>, subtitles: Vec<String>) -> (r: Result<
        (Vec<String>, Vec<String>),
        ParseError,
    >)
        requires
            entries_within(entry_views(entries@), self.text().len() as int),
        ensures
            match r {
                Ok((a, s)) => self.role_fold((Seq::empty(), view_strings(subtitles@)), entry_views(entries@))
                    == Ok::<(Seq<Seq<char>>, Seq<Seq<char>>), Seq<char>>((view_strings(a@), view_strings(s@))),
                Err(e) => self.role_fold((Seq::empty(), view_strings(subtitles@)), entry_views(entries@))
                    == Err::<(Seq<Seq<char>>, Seq<Seq<char>>), Seq<char>>(message(e)),
            },
    {
        let t = self.title_str().as_bytes();
        let ghost ev = entry_views(entries@);
        let ghost acc0 = (Seq::<Seq<char>>::empty(), view_strings(subtitles@));
        let mut audio: Vec<String> = Vec::new();
        let mut subs = subtitles;
        let mut i: usize = 0;
        assert(ev.subrange(0, 0) =~= Seq::<Entry>::empty());
        assert(view_strings(audio@) =~= Seq::<Seq<char>>::empty());
        while i < entries.len()
            invariant
                i <= entries@.len(),
                ev == entry_views(entries@),
                entries_within(ev, t@.len() as int),
                t@ == self.text(),
                acc0 == (Seq::<Seq<char>>::empty(), view_strings(subtitles@)),
                self.role_fold(acc0, ev.subrange(0, i as int)) == Ok::<(Seq<Seq<char>>, Seq<Seq<char>>), Seq<char>>(
                    (view_strings(audio@), view_strings(subs@)),
                ),
            decreases entries@.len() - i,
        {
            assert(ev.subrange(0, i + 1).drop_last() =~= ev.subrange(0, i as int));
            assert(ev[i as int] == entry_view(entries@[i as int]));
            let (start, end) = (entries[i].0, entries[i].1);
            let code = &entries[i].2;
            let ghost acc = (view_strings(audio@), view_strings(subs@));
            if self.excluded_language_occurrence((start, end)) {
                i = i + 1;
                continue;
            }
            let text = &t[start..end];
            let de = same(code.as_str(), "de") && text.len() == 2 && (text[0] == 0x64 || text[0] == 0x44)
                && (text[1] == 0x65 || text[1] == 0x45) && !self.labelled((start, end))
                && !self.subtitle_role((start, end)) && !(start >= self.end_of_title() && start > 0
                && t[start - 1] == 0x2e && end < t.len() && t[end] == 0x2e);
            assert(de == self.dubious_de(ev[i as int]));
            if de {
                if text.len() == 2 && text[0] == 0x44 && text[1] == 0x45 {
                    let n = match spans(UPPER_CODE, t) {
                        Ok(v) => v.len(),
                        Err(e) => {
                            proof {
                                assert(ev.subrange(0, i + 1).last() == ev[i as int]);
                                assert(is_upper_de(t@.subrange(start as int, end as int)));
                                assert(!self.excluded_at((start as int, end as int)));
                                assert(self.role_step(acc, ev[i as int]) == Err::<(Seq<Seq<char>>, Seq<Seq<char>>), Seq<char>>(message(e)));
                                self.role_failed(acc0, ev, i + 1);
                            }
                            return Err(e);
                        },
                    };
                    if n < 3 {
                        i = i + 1;
                        continue;
                    }
                } else {
                    i = i + 1;
                    continue;
                }
            }
            let refined = if same(code.as_str(), "zh") && has_match(TRADITIONAL, text) {
                "zh-Hant".to_owned()
            } else if same(code.as_str(), "zh") && has_match(SIMPLIFIED, text) {
                "zh-Hans".to_owned()
            } else if same(code.as_str(), "pt") && has_match(BRAZILIAN, text) {
                "pt-BR".to_owned()
            } else {
                code.clone()
            };
            assert(refined@ == refined_code(code@, t@.subrange(start as int, end as int)));
            if self.subtitle_role((start, end)) {
                subs.push(refined);
                assert(view_strings(subs@) =~= acc.1.push(refined@));
            } else {
                audio.push(refined);
                assert(view_strings(audio@) =~= acc.0.push(refined@));
            }
            i = i + 1;
        }
        assert(ev.subrange(0, i as int) =~= ev);
        Ok((audio, subs))
    }

    /// Whether `c` is recorded (see `recorded`).
    fn is_recorded(det: &Vec<(usize, usize, String)>, ex: &Vec<(usize, usize, String)>, c: &str) -> (r: bool)
        ensures
            r == Self::recorded(entry_views(det@), entry_views(ex@), c@),
    {
        let ghost dv = entry_views(det@);
        let ghost xv = entry_views(ex@);
        let mut i: usize = 0;
        while i < det.len()
            invariant
                i <= det@.len(),
                dv == entry_views(det@),
                forall|j: int| 0 <= j < i ==> (#[trigger] dv[j]).2 != c@,
            decreases det@.len() - i,
        {
            assert(dv[i as int] == entry_view(det@[i as int]));
            if same(det[i].2.as_str(), c) {
                return true;
            }
            i = i + 1;
        }
        let mut i: usize = 0;
        while i < ex.len()
            invariant
                i <= ex@.len(),
                xv == entry_views(ex@),
                dv == entry_views(det@),
                forall|j: int| 0 <= j < det@.len() ==> (#[trigger] dv[j]).2 != c@,
                forall|j: int| 0 <= j < i ==> base_of((#[trigger] xv[j]).2) != c@,
            decreases ex@.len() - i,
        {
            assert(xv[i as int] == entry_view(ex@[i as int]));
            let parts = split_on_dash(ex[i].2.as_str());
            proof {
                split_dash_nonempty(ex@[i as int].2@);
            }
            assert(view_strings(parts@)[0] == parts@[0]@);
            let base = to_lower(parts[0].as_str());
            if same(base.as_str(), c) {
                assert(base_of(xv[i as int].2) == c@);
                return true;
            }
            i = i + 1;
        }
        false
    }

    /// Adds the earlier parser's unrecorded languages (see
    /// `unrecorded_fold`).
    fn add_unrecorded(
        &self,
        det: &Vec<(usize, usize, String)>,
        ex: &Vec<(usize, usize, String)>,
        codes: Vec<String>,
        audio: &mut Vec<String>,
        subs: &mut Vec<String>,
    )
        ensures
            (view_strings(final(audio)@), view_strings(final(subs)@)) == self.unrecorded_fold(
                (view_strings(old(audio)@), view_strings(old(subs)@)),
                entry_views(det@),
                entry_views(ex@),
                view_strings(codes@),
            ),
    {
        let t = self.title_str().as_bytes();
        let subtitle_file = has_match(SUBTITLE_FILE, t);
        let ghost cv = view_strings(codes@);
        let ghost acc0 = (view_strings(audio@), view_strings(subs@));
        let mut i: usize = 0;
        assert(cv.subrange(0, 0) =~= Seq::<Seq<char>>::empty());
        while i < codes.len()
            invariant
                i <= codes@.len(),
                cv == view_strings(codes@),
                subtitle_file == matches_in(SUBTITLE_FILE@, self.text()),
                acc0 == (view_strings(old(audio)@), view_strings(old(subs)@)),
                (view_strings(audio@), view_strings(subs@)) == self.unrecorded_fold(
                    acc0,
                    entry_views(det@),
                    entry_views(ex@),
                    cv.subrange(0, i as int),
                ),
            decreases codes@.len() - i,
        {
            assert(cv.subrange(0, i + 1).drop_last() =~= cv.subrange(0, i as int));
            assert(cv[i as int] == codes@[i as int]@);
            if !Self::is_recorded(det, ex, codes[i].as_str()) {
                if subtitle_file {
                    let ghost before = view_strings(subs@);
                    subs.push(codes[i].clone());
                    assert(view_strings(subs@) =~= before.push(cv[i as int]));
                } else {
                    let ghost before = view_strings(audio@);
                    audio.push(codes[i].clone());
                    assert(view_strings(audio@) =~= before.push(cv[i as int]));
                }
            }
            i = i + 1;
        }
        assert(cv.subrange(0, i as int) =~= cv);
    }
}

} // verus!

verus! {

/// The language subtag of `code`, lower-cased (see `base_of`).
fn base_code(code: &str) -> (r: String)
    ensures
        r@ == base_of(code@),
{
    let parts = split_on_dash(code);
    proof {
        split_dash_nonempty(code@);
    }
    assert(view_strings(parts@)[0] == parts@[0]@);
    to_lower(parts[0].as_str())
}

/// Whether some code of `all` is a regional form (holds a dash) of the
/// language `lower`.
fn has_regional_variant(all: &Vec<String>, lower: &str) -> (r: bool)
    ensures
        r == exists|i: int|
            0 <= i < view_strings(all@).len() && (#[trigger] view_strings(all@)[i]).contains('-')
                && base_of(view_strings(all@)[i]) == lower@,
{
    let ghost av = view_strings(all@);
    let mut i: usize = 0;
    while i < all.len()
        invariant
            i <= all@.len(),
            av == view_strings(all@),
            forall|j: int| 0 <= j < i ==> !((#[trigger] av[j]).contains('-') && base_of(av[j]) == lower@),
        decreases all@.len() - i,
    {
        assert(av[i as int] == all@[i as int]@);
        if contains_char(all[i].as_str(), '-') && same(base_code(all[i].as_str()).as_str(), lower) {
            return true;
        }
        i = i + 1;
    }
    false
}

/// The final codes of one role (see `final_codes`).
fn final_language_codes(values: &Vec<String>, data: &crate::language::LanguageData) -> (r: Vec<String>)
    ensures
        view_strings(r@) == final_codes(*data, view_strings(values@)),
{
    let ghost vv = view_strings(values@);
    let mut kept: Vec<String> = Vec::new();
    let mut i: usize = 0;
    assert(vv.subrange(0, 0) =~= Seq::<Seq<char>>::empty());
    while i < values.len()
        invariant
            i <= values@.len(),
            vv == view_strings(values@),
            view_strings(kept@) == without_bare(vv.subrange(0, i as int), vv),
        decreases values@.len() - i,
    {
        assert(vv.subrange(0, i + 1).drop_last() =~= vv.subrange(0, i as int));
        assert(vv[i as int] == values@[i as int]@);
        let v = values[i].as_str();
        let lower = to_lower(v);
        if contains_char(v, '-') || !has_regional_variant(values, lower.as_str()) {
            let ghost before = view_strings(kept@);
            kept.push(values[i].clone());
            assert(view_strings(kept@) =~= before.push(vv[i as int]));
        }
        i = i + 1;
    }
    assert(vv.subrange(0, i as int) =~= vv);
    let ghost kv = view_strings(kept@);
    let mut out: Vec<String> = Vec::new();
    let mut j: usize = 0;
    assert(kv.subrange(0, 0) =~= Seq::<Seq<char>>::empty());
    while j < kept.len()
        invariant
            j <= kept@.len(),
            kv == view_strings(kept@),
            view_strings(out@) == regional_forms(*data, kv.subrange(0, j as int)),
        decreases kept@.len() - j,
    {
        assert(kv.subrange(0, j + 1).drop_last() =~= kv.subrange(0, j as int));
        assert(kv[j as int] == kept@[j as int]@);
        match regional_language(kept[j].as_str(), data) {
            Some(c) => {
                let ghost before = view_strings(out@);
                out.push(c);
                assert(view_strings(out@) =~= before.push(regional(*data, kv[j as int])->0));
            },
            None => {},
        }
        j = j + 1;
    }
    assert(kv.subrange(0, j as int) =~= kv);
    out
}

impl<'a> Details<'a> {
    /// Replaces the earlier parser's `languages` by `audio_languages` and
    /// `subtitle_languages` (see `languages_of`); on a failed search the
    /// result is left as it was.
    pub fn languages(&self, result: &mut Fields, technical: &[Record]) -> (r: Result<(), ParseError>)
        requires
            languages_within(self.records(), self.text().len() as int),
        ensures
            match r {
                Ok(()) => self.languages_of(old(result)@, record_views(technical@)) == Ok::<
                    Map<Seq<char>, FieldView>,
                    Seq<char>,
                >(final(result)@),
                Err(e) => self.languages_of(old(result)@, record_views(technical@)) == Err::<
                    Map<Seq<char>, FieldView>,
                    Seq<char>,
                >(message(e)) && final(result)@ == old(result)@,
            },
    {
        let det = self.detected_languages();
        proof {
            detected_within(self.records(), self.text().len() as int);
        }
        let mut ex: Vec<(usize, usize, String)> = Vec::new();
        assert(entry_views(ex@) =~= Seq::<Entry>::empty());
        match self.add_markers(&mut ex) {
            Ok(()) => {},
            Err(e) => return Err(e),
        }
        match self.add_regional_codes(&mut ex) {
            Ok(()) => {},
            Err(e) => return Err(e),
        }
        match self.add_named_languages(&det, technical, &mut ex) {
            Ok(()) => {},
            Err(e) => return Err(e),
        }
        let entries = merge_entries(&det, &ex);
        proof {
            let len = self.text().len() as int;
            let dv = entry_views(det@);
            let xv = entry_views(ex@);
            not_overlapped_within(dv, xv, len);
            let all = not_overlapped(dv, xv) + xv;
            assert(entries_within(all, len)) by {
                assert forall|i: int| 0 <= i < all.len() implies 0 <= (#[trigger] all[i]).0 <= all[i].1 <= len by {
                    if i < not_overlapped(dv, xv).len() {
                        assert(all[i] == not_overlapped(dv, xv)[i]);
                    } else {
                        assert(all[i] == xv[i - not_overlapped(dv, xv).len()]);
                    }
                }
            }
            sort_entries_within(all, len);
        }
        let subtitles = strings(result.get("subtitle_languages"));
        let (mut audio, mut subs) = match self.split_roles(&entries, subtitles) {
            Ok(v) => v,
            Err(e) => return Err(e),
        };
        let languages = strings(result.get("languages"));
        self.add_unrecorded(&det, &ex, languages, &mut audio, &mut subs);
        let data = &self.lexicon_ref().data;
        result.remove("languages");
        set_strings(result, "audio_languages", final_language_codes(&audio, data));
        set_strings(result, "subtitle_languages", final_language_codes(&subs, data));
        Ok(())
    }
}

} // verus!
