//! What the detection rules promise, stated over fixed tables and over the
//! records themselves: where metadata stands, what each release marker and
//! each technical label announces, which values a technical merge keeps, and
//! when a trailing subtitle label makes a language a subtitle language.
use crate::apply::{
    change_values, dts_hd_covers, hdtv_source, kept_values, merge_field, recorded_value,
    unrecorded_values, value_is, with_editions, without_hdtv,
};
use crate::details::{overlaps, Details};
use crate::fields::{field_strings, FieldView, Record};
use crate::language::{display_name, join, qualifier_names, regional, LanguageData};
use crate::laws::{split_tag, split_without_dash};
use crate::languages::{
    base_of, entry_after, field_of, final_codes, marker_code, merged, not_overlapped, place, refined_code,
    regional_forms, sort_entries, without_bare, Entry,
};
use crate::laws::{strings_read_back, unique_keeps_every_value};
use crate::matching::{found_in, fully_matches, matches_in, spans_of};
use crate::patterns::{
    REGIONAL_CODE, TRAILING_ROLE, LIST_OPENING, ANNOTATION, SEPARATORS, BLOCK_ANNOTATION,
    SUBTITLE_LABEL, ROLE, LIST_AFTER_LABEL, MULTI_BEFORE, SUBTITLE_FILE, AUDIO_MARKER,
    MULTI_SUB, SUBS_AT_END, SUBTITLE_WORD, AUDIO_LABEL, SUBTITLE_AFTER, GROUP_ANNOTATION_WORD,
    GROUP_ANNOTATION, SIZE_UNIT, NUMBER_BEFORE, CODEC_BEFORE, CHANNELS_AT_START, SITE_OR_GENRE,
    RELEASE_MARKER, SUBBED, UPPER_CODE, TRADITIONAL, SIMPLIFIED, BRAZILIAN,
};
use crate::technical::{dotted, entry, overlaps_field, separator_run, technical_table, TechRecord};
use crate::text::{alphanumeric, lookup, lower_case, split_dash, upper_case};
use vstd::utf8::decode_utf8;
use vstd::prelude::*;

verus! {

// ------------------------------------------------------------- positions

/// A span that starts at or after the end of a year, resolution, seasons or
/// episodes record, and that no group or site record encloses, stands where
/// metadata stands.
pub proof fn metadata_follows_anchors<'a>(d: &Details<'a>, span: (int, int), i: int)
    requires
        0 <= i < d.records().len(),
        d.records()[i].field@ == "year"@ || d.records()[i].field@ == "resolution"@
            || d.records()[i].field@ == "seasons"@ || d.records()[i].field@ == "episodes"@,
        d.records()[i].end <= span.0,
        forall|j: int|
            0 <= j < d.records().len() ==> !((#[trigger] d.records()[j].field@ == "group"@
                || d.records()[j].field@ == "site"@) && d.records()[j].start <= span.0 && span.1
                <= d.records()[j].end),
    ensures
        d.metadata_at(span),
{
    let rs = d.records();
    assert(Details::after_anchor(rs[i], span));
    assert forall|j: int| 0 <= j < rs.len() implies !Details::inside_group(#[trigger] rs[j], span) by {
        assert(!((rs[j].field@ == "group"@ || rs[j].field@ == "site"@) && rs[j].start <= span.0
            && span.1 <= rs[j].end));
    }
}

/// A span that overlaps a languages, audio, channels, hdr, subbed or dubbed
/// record stands where metadata stands.
pub proof fn metadata_over_metadata_records<'a>(d: &Details<'a>, span: (int, int), i: int)
    requires
        0 <= i < d.records().len(),
        d.records()[i].field@ == "languages"@ || d.records()[i].field@ == "audio"@
            || d.records()[i].field@ == "channels"@ || d.records()[i].field@ == "hdr"@
            || d.records()[i].field@ == "subbed"@ || d.records()[i].field@ == "dubbed"@,
        span.0 < d.records()[i].end,
        d.records()[i].start < span.1,
    ensures
        d.metadata_at(span),
{
    assert(Details::overlaps_metadata(d.records()[i], span));
}

/// A span enclosed by a group or site record stands outside the metadata,
/// unless a metadata record overlaps it or a block labels it.
pub proof fn no_metadata_inside_groups<'a>(d: &Details<'a>, span: (int, int), i: int)
    requires
        0 <= i < d.records().len(),
        d.records()[i].field@ == "group"@ || d.records()[i].field@ == "site"@,
        d.records()[i].start <= span.0,
        span.1 <= d.records()[i].end,
        !d.labelled_span(span),
        forall|j: int|
            0 <= j < d.records().len() ==> !(#[trigger] Details::overlaps_metadata(
                d.records()[j],
                span,
            )),
    ensures
        !d.metadata_at(span),
{
    assert(Details::inside_group(d.records()[i], span));
}

// ----------------------------------------------------------- merging

proof fn kept_value_listed(rs: Seq<Record>, t: Seq<TechRecord>, field: Seq<char>, i: int)
    requires
        0 <= i < rs.len(),
        rs[i].field@ == field,
        rs[i].value is Some,
        forall|j: int|
            0 <= j < t.len() && (#[trigger] t[j]).0 == field ==> !overlaps(
                (rs[i].start as int, rs[i].end as int),
                (t[j].1, t[j].2),
            ),
    ensures
        kept_values(rs, t, field).contains(rs[i].value->0@),
    decreases rs.len(),
{
    let p = rs.drop_last();
    let r = kept_values(p, t, field);
    if i < p.len() {
        assert(p[i] == rs[i]);
        kept_value_listed(p, t, field, i);
        let k = choose|k: int| 0 <= k < r.len() && r[k] == rs[i].value->0@;
        let x = rs.last();
        if x.field@ == field && !crate::apply::changed_at(t, field, (x.start as int, x.end as int))
            && x.value is Some {
            assert(r.push(x.value->0@)[k] == rs[i].value->0@);
        }
    } else {
        assert(rs.last() == rs[i]);
        assert(!crate::apply::changed_at(t, field, (rs[i].start as int, rs[i].end as int)));
        assert(r.push(rs[i].value->0@)[r.len() as int] == rs[i].value->0@);
    }
}

/// Merging a field with the technical records keeps every value of an
/// earlier record for that field that no technical record for it overlaps:
/// only overlapped generic detections may give way.
pub proof fn unoverlapped_values_stay(
    rs: Seq<Record>,
    t: Seq<TechRecord>,
    fields: Map<Seq<char>, FieldView>,
    field: Seq<char>,
    i: int,
)
    requires
        exists|j: int| 0 <= j < t.len() && (#[trigger] t[j]).0 == field,
        0 <= i < rs.len(),
        rs[i].field@ == field,
        rs[i].value is Some,
        forall|j: int|
            0 <= j < t.len() && (#[trigger] t[j]).0 == field ==> !(rs[i].start < t[j].2 && t[j].1
                < rs[i].end),
    ensures
        field_strings(field_of(merge_field(rs, t, fields, field), field)).contains(
            rs[i].value->0@,
        ),
{
    let v = rs[i].value->0@;
    kept_value_listed(rs, t, field, i);
    let k = kept_values(rs, t, field);
    let u = unrecorded_values(field_strings(field_of(fields, field)), rs, field);
    let c = change_values(t, field);
    let l = k + u + c;
    let a = choose|a: int| 0 <= a < k.len() && k[a] == v;
    assert(l[a] == v);
    strings_read_back(l);
    unique_keeps_every_value(l);
}


// ------------------------------------------------------------- markers

/// The release markers and the language each announces: Quebec and Belgian
/// dubs, French-French dubs, French and English subtitles, and the `multi`
/// marker.
pub open spec fn marker_languages() -> Seq<(Seq<char>, Seq<char>)> {
    seq![
        ("VFQ"@, "fr-CA"@),
        ("VOQ"@, "fr-CA"@),
        ("VQ"@, "fr-CA"@),
        ("VFB"@, "fr-BE"@),
        ("VFF"@, "fr-FR"@),
        ("TRUEFRENCH"@, "fr-FR"@),
        ("VOSTFR"@, "fr"@),
        ("SUBFRENCH"@, "fr"@),
        ("FRENCH"@, "fr"@),
        ("VOSTA"@, "en"@),
        ("ENGSUB"@, "en"@),
        ("ESUB"@, "en"@),
        ("ESUBS"@, "en"@),
        ("MULTI"@, "multi"@),
        ("MSUB"@, "multi"@),
    ]
}

proof fn marker_literals()
    ensures
        forall|i: int, j: int|
            0 <= i < j < marker_languages().len() ==> (#[trigger] marker_languages()[i]).0 != (
            #[trigger] marker_languages()[j]).0,
        forall|i: int|
            0 <= i < marker_languages().len() ==> (#[trigger] marker_languages()[i]).0 != "VF2"@
                && marker_languages()[i].0 != "FR2"@,
{
    reveal_strlit("VFQ");
    reveal_strlit("VOQ");
    reveal_strlit("VQ");
    reveal_strlit("VFB");
    reveal_strlit("VFF");
    reveal_strlit("TRUEFRENCH");
    reveal_strlit("VOSTFR");
    reveal_strlit("SUBFRENCH");
    reveal_strlit("FRENCH");
    reveal_strlit("VOSTA");
    reveal_strlit("ENGSUB");
    reveal_strlit("ESUB");
    reveal_strlit("ESUBS");
    reveal_strlit("MULTI");
    reveal_strlit("MSUB");
    reveal_strlit("VF2");
    reveal_strlit("FR2");
    let t = marker_languages();
    assert forall|i: int, j: int| 0 <= i < j < t.len() implies (#[trigger] t[i]).0 != (#[trigger] t[j]).0 by {
        if t[i].0 == t[j].0 {
            assert(t[i].0.len() == t[j].0.len());
            assert(t[i].0[0] == t[j].0[0]);
            assert(t[i].0[t[i].0.len() - 1] == t[j].0[t[j].0.len() - 1]);
            if t[i].0.len() > 2 {
                assert(t[i].0[1] == t[j].0[1]);
                assert(t[i].0[2] == t[j].0[2]);
            }
        }
    }
    assert forall|i: int| 0 <= i < t.len() implies (#[trigger] t[i]).0 != "VF2"@ && t[i].0 != "FR2"@ by {
        if t[i].0 == "VF2"@ || t[i].0 == "FR2"@ {
            assert(t[i].0.len() == 3);
            assert(t[i].0[2] == '2');
        }
    }
}

/// A release marker in metadata position adds one explicit entry, over its
/// span, with the language that the marker table gives it (a bare FRENCH only
/// where a block labels it).
pub proof fn markers_announce_languages<'a>(
    d: &Details<'a>,
    ex: Seq<Entry>,
    sp: (int, int, Seq<u8>),
    k: int,
)
    requires
        0 <= k < marker_languages().len(),
        upper_case(decode_utf8(sp.2)) == marker_languages()[k].0,
        d.metadata_at((sp.0, sp.1)),
        marker_languages()[k].0 != "FRENCH"@ || d.labelled_span((sp.0, sp.1)),
    ensures
        d.marker_step(ex, sp) == ex.push((sp.0, sp.1, marker_languages()[k].1)),
{
    marker_literals();
    let t = marker_languages();
    let m = t[k].0;
    reveal_strlit("VFQ");
    reveal_strlit("VOQ");
    reveal_strlit("VQ");
    reveal_strlit("VFB");
    reveal_strlit("VFF");
    reveal_strlit("TRUEFRENCH");
    reveal_strlit("VOSTFR");
    reveal_strlit("SUBFRENCH");
    reveal_strlit("FRENCH");
    reveal_strlit("VOSTA");
    reveal_strlit("ENGSUB");
    reveal_strlit("ESUB");
    reveal_strlit("ESUBS");
    reveal_strlit("MULTI");
    reveal_strlit("MSUB");
    reveal_strlit("VF2");
    reveal_strlit("FR2");
    assert(marker_code(m) == t[k].1);
}

/// VF2 and FR2 in metadata position announce both the French-French and the
/// Quebec dub, in that order.
pub proof fn dual_french_markers<'a>(d: &Details<'a>, ex: Seq<Entry>, sp: (int, int, Seq<u8>))
    requires
        upper_case(decode_utf8(sp.2)) == "VF2"@ || upper_case(decode_utf8(sp.2)) == "FR2"@,
        d.metadata_at((sp.0, sp.1)),
    ensures
        d.marker_step(ex, sp) == ex.push((sp.0, sp.1, "fr-FR"@)).push((sp.0, sp.1, "fr-CA"@)),
{
    reveal_strlit("VF2");
    reveal_strlit("FR2");
    reveal_strlit("FRENCH");
    let m = upper_case(decode_utf8(sp.2));
    assert(m != "FRENCH"@) by {
        assert(m.len() == 3);
    }
}

/// Out of metadata position a release marker adds nothing.
pub proof fn markers_need_metadata_position<'a>(d: &Details<'a>, ex: Seq<Entry>, sp: (int, int, Seq<u8>))
    requires
        !d.metadata_at((sp.0, sp.1)),
    ensures
        d.marker_step(ex, sp) == ex,
{
}

// ------------------------------------------------------- technical labels

/// The technical labels in the order they are tried: the field each fills,
/// its expression, and the fixed value it records (`None`: the matched
/// text, or for Dolby Vision the profile number).
pub open spec fn technical_labels() -> Seq<(Seq<char>, Seq<char>, Option<Seq<char>>)> {
    seq![
        ("audio"@, r"DTS[ .:-]*HD[ .-]*MA(?:STER)?(?:[ .-]*AUDIO)?|DTS[ .-]*MA"@, Some("DTS-HD MA"@)),
        ("audio"@, r"DTS[ .:-]*HD[ .-]*(?:HRA?|HIGH[ .-]*RESOLUTION(?:[ .-]*AUDIO)?)"@, Some("DTS-HD HRA"@)),
        ("audio"@, r"DTS[ .:-]*X"@, Some("DTS-X"@)),
        ("audio"@, r"DTS[ .:-]*HD"@, Some("DTS-HD"@)),
        ("audio"@, r"HE[ .-]*AAC[ .-]*V2"@, Some("HE-AACv2"@)),
        ("audio"@, r"HE[ .-]*AAC"@, Some("HE-AAC"@)),
        ("audio"@, r"TRUE[ .-]*HD(?=\d[. ]\d)"@, Some("TrueHD"@)),
        ("audio"@, r"AAC(?=\d[. ]\d)"@, Some("AAC"@)),
        ("audio"@, r"DTS(?=\d[. ]\d)"@, Some("DTS Lossy"@)),
        ("channels"@, r"([1-9]\d?[. -][012][. -][1-9]\d?)(?:ch)?(?!\w|[.]\d(?!\d{2,3}[pi]\b))"@, None),
        ("hdr"@, r"HDR10(?:\+|[ .-]*PLUS)"@, Some("HDR10+"@)),
        ("hdr"@, r"HDR10"@, Some("HDR10"@)),
        ("hdr"@, r"HLG"@, Some("HLG"@)),
        ("dolby_vision_profiles"@, r"(?:DV|DOVI|DOLBY[ .-]*VISION)[ .-]*(?:PROFILE|PROFIL|P)[ .-]*(\d{1,2}(?:\.\d{1,2})?)(?!\.\d(?!\d{2,3}[pi]\b))"@, None),
    ]
}

/// The patterns that the technical pass tries are the technical labels, each
/// expression guarded so that it starts after a non-word character (after a
/// non-digit, for channel layouts) and ends before the end, a non-word
/// character or a channel layout.
pub proof fn technical_patterns_are_the_labels()
    ensures
        technical_table().len() == technical_labels().len(),
        forall|i: int|
            0 <= i < technical_labels().len() ==> {
                let (field, raw, value) = #[trigger] technical_labels()[i];
                &&& technical_table()[i].0 == field
                &&& technical_table()[i].2 == value
                &&& technical_table()[i].1 == (if field == "channels"@ {
                    r"(?<!\d)"@
                } else {
                    r"(?<!\w)"@
                }) + "(?:"@ + raw + r")(?=$|\W|\d[. ]\d)"@
            },
{
    assert forall|i: int| 0 <= i < technical_labels().len() implies {
        let (field, raw, value) = #[trigger] technical_labels()[i];
        &&& technical_table()[i].0 == field
        &&& technical_table()[i].2 == value
        &&& technical_table()[i].1 == (if field == "channels"@ {
            r"(?<!\d)"@
        } else {
            r"(?<!\w)"@
        }) + "(?:"@ + raw + r")(?=$|\W|\d[. ]\d)"@
    } by {
        let t = technical_table();
        let l = technical_labels();
        assert(t[i] == entry(l[i].0, l[i].1, l[i].2));
    }
}

/// Distinct technical labels record distinct fixed values.
pub proof fn technical_values_are_distinct()
    ensures
        forall|i: int, j: int|
            0 <= i < j < technical_labels().len() && (#[trigger] technical_labels()[i]).2 is Some
                ==> (#[trigger] technical_labels()[j]).2 != technical_labels()[i].2,
{
    reveal_strlit("DTS-HD MA");
    reveal_strlit("DTS-HD HRA");
    reveal_strlit("DTS-X");
    reveal_strlit("DTS-HD");
    reveal_strlit("HE-AACv2");
    reveal_strlit("HE-AAC");
    reveal_strlit("TrueHD");
    reveal_strlit("AAC");
    reveal_strlit("DTS Lossy");
    reveal_strlit("HDR10+");
    reveal_strlit("HDR10");
    reveal_strlit("HLG");
    reveal_strlit("audio");
    reveal_strlit("channels");
    reveal_strlit("hdr");
    reveal_strlit("dolby_vision_profiles");
    let l = technical_labels();
    assert forall|i: int, j: int|
        0 <= i < j < l.len() && (#[trigger] l[i]).2 is Some implies (#[trigger] l[j]).2 != l[i].2 by {
        if l[j].2 == l[i].2 {
            let a = l[i].2->0;
            let b = l[j].2->0;
            assert(a.len() == b.len());
            assert(a[0] == b[0]);
            assert(a[1] == b[1]);
            assert(a[a.len() - 1] == b[b.len() - 1]);
            if a.len() > 3 {
                assert(a[3] == b[3]);
            }
        }
    }
}

/// A match of a technical label other than a channel layout, in metadata
/// position and overlapping no record already made for its field, adds a
/// record for the label's field over the match, with the label's fixed value
/// (or, for a label without one, the matched text); the records made before
/// are kept in front of it.
pub proof fn technical_label_recorded<'a>(
    d: &Details<'a>,
    out: Seq<TechRecord>,
    k: int,
    sp: (int, int, Seq<u8>),
)
    requires
        0 <= k < technical_labels().len(),
        technical_labels()[k].0 != "channels"@,
        d.metadata_at((sp.0, sp.1)),
        forall|j: int|
            0 <= j < out.len() && (#[trigger] out[j]).0 == technical_labels()[k].0 ==> !(sp.0
                < out[j].2 && out[j].1 < sp.1),
        d.technical_step(out, technical_table()[k], sp) is Ok,
    ensures
        ({
            let o = d.technical_step(out, technical_table()[k], sp)->Ok_0;
            &&& o.len() > out.len()
            &&& o.subrange(0, out.len() as int) == out
            &&& o[out.len() as int] == (
                technical_labels()[k].0,
                sp.0,
                sp.1,
                Some(
                    match technical_labels()[k].2 {
                        Some(v) => v,
                        None => decode_utf8(sp.2),
                    },
                ),
            )
        }),
{
    technical_patterns_are_the_labels();
    let p = technical_table()[k];
    assert(!overlaps_field(out, p.0, sp.0, sp.1));
    let o = d.technical_step(out, p, sp)->Ok_0;
    let rec = (p.0, sp.0, sp.1, Some(
        match p.2 {
            Some(v) => v,
            None => decode_utf8(sp.2),
        },
    ));
    assert(out.push(rec).subrange(0, out.len() as int) =~= out);
    if p.0 == "audio"@ {
        let s2 = sp.1 + separator_run(d.text(), sp.1);
        match spans_of(CHANNELS_AT_START@, d.text().subrange(s2, d.text().len() as int)) {
            Ok(cs) => {
                if cs.len() > 0 && !matches_in(SIZE_UNIT@, d.text().subrange(s2 + cs[0].1, d.text().len() as int)) {
                    let o2 = out.push(rec).push(("channels"@, s2, s2 + cs[0].1, Some(dotted(decode_utf8(cs[0].2)))));
                    assert(o2.subrange(0, out.len() as int) =~= out);
                    assert(o2[out.len() as int] == rec);
                }
            },
            Err(_) => {},
        }
    }
}

// ------------------------------------------------------------------ roles

/// A subtitle label (subs, subtitles, SDH, forced, undertekst) follows
/// position `p` after separators, and it does not open a language list.
pub open spec fn subtitle_label_closes<'a>(d: &Details<'a>, p: int) -> bool {
    let t = d.text();
    match found_in(r"^[ .,:-]*(subs?(?:titles?)?|sdh|forced|undertekst)\b"@, t.subrange(p, t.len() as int)) {
        Some(m) => !d.language_list_at(p + m.1),
        None => false,
    }
}

/// A language after the title proper that a subtitle label follows, where
/// that label opens no language list, has the subtitle role unless an
/// earlier cue gives it the audio role: a label leading a block around it,
/// or a label before it in its context.
pub proof fn trailing_subtitle_label_gives_subtitles<'a>(d: &Details<'a>, span: (int, int))
    requires
        0 <= span.0 <= span.1 <= d.text().len(),
        d.title_end() <= span.0,
        subtitle_label_closes(d, d.role_end(span)),
        d.block_label_role(
            span.0,
            d.role_end(span),
            fully_matches(AUDIO_MARKER@, d.text().subrange(span.0, d.role_end(span))),
            0,
        ) != Some(false),
        d.context_label_role(
            d.role_context_start(span.0, d.role_end(span))->0,
            span.0,
            d.role_end(span),
            fully_matches(AUDIO_MARKER@, d.text().subrange(span.0, d.role_end(span))),
        ) != Some(false),
    ensures
        d.subtitle_role_of(span),
{
}

/// Every language in a title that ends in a subtitle file extension has the
/// subtitle role.
pub proof fn subtitle_files_carry_subtitles<'a>(d: &Details<'a>, span: (int, int))
    requires
        matches_in(r"\.(?:srt|ass|ssa|vtt|sub|idx|smi|ttxt)\s*$"@, d.text()),
    ensures
        d.subtitle_role_of(span),
{
}

/// A multi-subtitle marker (MULTI-SUB, MULTiSUBS, MSUB, ...) has the
/// subtitle role.
pub proof fn multi_subtitle_markers_are_subtitles<'a>(d: &Details<'a>, span: (int, int))
    requires
        fully_matches(
            r"MULTI(?:PLE)?[ .-]*SUB(?:S|TITLES?|BED)?|MSUB"@,
            d.text().subrange(span.0, d.role_end(span)),
        ),
    ensures
        d.subtitle_role_of(span),
{
}

/// A language written with a subtitle word (VOST, SUB, SDH, FORCED, LEG,
/// undertekst) has the subtitle role, unless that word is a trailing
/// subtitle label that opens a language list.
pub proof fn subtitle_words_are_subtitles<'a>(d: &Details<'a>, span: (int, int))
    requires
        matches_in(
            r"vost|sub|undertekst|\b(?:sdh|forced|leg(?:endado|endas?)?)\b"@,
            d.text().subrange(span.0, d.role_end(span)),
        ),
        !(d.language_list_at(d.role_end(span)) && matches_in(
            r"\bsubs?(?:titles?)?\s*$"@,
            d.text().subrange(span.0, d.role_end(span)),
        )),
    ensures
        d.subtitle_role_of(span),
{
}

/// A language followed by an SDH or forced annotation has the subtitle role.
pub proof fn annotated_languages_are_subtitles<'a>(d: &Details<'a>, span: (int, int))
    requires
        d.annotated_at(d.role_end(span), None),
    ensures
        d.subtitle_role_of(span),
{
}

/// A language in the title proper that nothing labels or marks as a subtitle
/// has the audio role.
pub proof fn unlabelled_title_languages_are_audio<'a>(d: &Details<'a>, span: (int, int))
    requires
        span.0 < d.title_end(),
        !d.labelled_span((span.0, d.role_end(span))),
        !matches_in(r"\.(?:srt|ass|ssa|vtt|sub|idx|smi|ttxt)\s*$"@, d.text()),
        !fully_matches(
            r"MULTI(?:PLE)?[ .-]*SUB(?:S|TITLES?|BED)?|MSUB"@,
            d.text().subrange(span.0, d.role_end(span)),
        ),
        !matches_in(
            r"vost|sub|undertekst|\b(?:sdh|forced|leg(?:endado|endas?)?)\b"@,
            d.text().subrange(span.0, d.role_end(span)),
        ),
        !d.annotated_at(d.role_end(span), None),
        d.block_label_role(
            span.0,
            d.role_end(span),
            fully_matches(AUDIO_MARKER@, d.text().subrange(span.0, d.role_end(span))),
            0,
        ) is None,
    ensures
        !d.subtitle_role_of(span),
{
}

// ----------------------------------------------------------- classifying

/// An entry with the subtitle role adds its (refined) code to the subtitle
/// languages and leaves the audio languages; any other entry adds it to the
/// audio languages and leaves the subtitle languages.
pub proof fn entries_go_to_their_role<'a>(
    d: &Details<'a>,
    acc: (Seq<Seq<char>>, Seq<Seq<char>>),
    e: Entry,
)
    ensures
        d.subtitle_role_of((e.0, e.1)) ==> d.classify(acc, e).0 == acc.0 && d.classify(acc, e).1
            == acc.1.push(refined_code(e.2, d.text().subrange(e.0, e.1))),
        !d.subtitle_role_of((e.0, e.1)) ==> d.classify(acc, e).1 == acc.1 && d.classify(acc, e).0
            == acc.0.push(refined_code(e.2, d.text().subrange(e.0, e.1))),
{
}

/// Chinese named as traditional becomes `zh-Hant`, named as simplified (and
/// not traditional) `zh-Hans`; Portuguese named as Brazilian becomes `pt-BR`;
/// any other code stays as it is.
pub proof fn codes_refined_by_their_text(code: Seq<char>, text: Seq<u8>)
    ensures
        code == "zh"@ && matches_in(r"\bCHT\b|hant|traditional"@, text) ==> refined_code(code, text)
            == "zh-Hant"@,
        code == "zh"@ && !matches_in(r"\bCHT\b|hant|traditional"@, text) && matches_in(
            r"\bCHS\b|hans|simplified"@,
            text,
        ) ==> refined_code(code, text) == "zh-Hans"@,
        code == "pt"@ && matches_in(r"\bBR\b|brazil"@, text) ==> refined_code(code, text)
            == "pt-BR"@,
        code != "zh"@ && code != "pt"@ ==> refined_code(code, text) == code,
{
    reveal_strlit("zh");
    reveal_strlit("pt");
    if code == "pt"@ {
        assert(code != "zh"@) by {
            assert(code[0] != "zh"@[0]);
        }
    }
}

/// A bare FRENCH marker that no block labels and that stands in the title
/// proper adds nothing: there it is the film's language, not a dub.
pub proof fn bare_french_in_title_adds_nothing<'a>(d: &Details<'a>, ex: Seq<Entry>, sp: (int, int, Seq<u8>))
    requires
        upper_case(decode_utf8(sp.2)) == "FRENCH"@,
        !d.labelled_span((sp.0, sp.1)),
        sp.0 < d.title_end(),
    ensures
        d.marker_step(ex, sp) == ex,
{
}

// ---------------------------------------------------------- final codes

proof fn regional_forms_keep(data: LanguageData, values: Seq<Seq<char>>, i: int)
    requires
        0 <= i < values.len(),
        regional(data, values[i]) is Some,
    ensures
        regional_forms(data, values).contains(regional(data, values[i])->0),
    decreases values.len(),
{
    let p = values.drop_last();
    let r = regional_forms(data, p);
    if i < p.len() {
        assert(p[i] == values[i]);
        regional_forms_keep(data, p, i);
        let k = choose|k: int| 0 <= k < r.len() && r[k] == regional(data, values[i])->0;
        match regional(data, values.last()) {
            Some(c) => {
                assert(r.push(c)[k] == r[k]);
            },
            None => {},
        }
    } else {
        assert(values.last() == values[i]);
        let c = regional(data, values[i])->0;
        assert(r.push(c)[r.len() as int] == c);
    }
}

proof fn explicit_codes_kept(values: Seq<Seq<char>>, all: Seq<Seq<char>>, i: int)
    requires
        0 <= i < values.len(),
        values[i].contains('-'),
    ensures
        exists|j: int| 0 <= j < without_bare(values, all).len() && without_bare(values, all)[j] == values[i],
    decreases values.len(),
{
    let p = values.drop_last();
    let r = without_bare(p, all);
    if i < p.len() {
        assert(p[i] == values[i]);
        explicit_codes_kept(p, all, i);
        let j = choose|j: int| 0 <= j < r.len() && r[j] == values[i];
        if without_bare(values, all) != r {
            assert(without_bare(values, all) == r.push(values.last()));
            assert(r.push(values.last())[j] == values[i]);
        }
    } else {
        assert(values.last() == values[i]);
        assert(without_bare(values, all) == r.push(values[i]));
        assert(r.push(values[i])[r.len() as int] == values[i]);
    }
}

/// A language code with an explicit region (a dash) that the data knows
/// keeps its regional form among the final codes of its role.
pub proof fn explicit_regions_reach_the_result(data: LanguageData, values: Seq<Seq<char>>, i: int)
    requires
        0 <= i < values.len(),
        values[i].contains('-'),
        regional(data, values[i]) is Some,
    ensures
        final_codes(data, values).contains(regional(data, values[i])->0),
{
    explicit_codes_kept(values, values, i);
    let w = without_bare(values, values);
    let j = choose|j: int| 0 <= j < w.len() && w[j] == values[i];
    regional_forms_keep(data, w, j);
}

// ------------------------------------------------------------ the result

/// A value already in the field that no earlier record for the field gives
/// survives the merge with the technical records.
pub proof fn unexplained_values_stay(
    rs: Seq<Record>,
    t: Seq<TechRecord>,
    fields: Map<Seq<char>, FieldView>,
    field: Seq<char>,
    v: Seq<char>,
)
    requires
        field_strings(field_of(fields, field)).contains(v),
        forall|i: int|
            0 <= i < rs.len() && (#[trigger] rs[i]).field@ == field ==> rs[i].value != Some(
                rs[i].value->0,
            ) || rs[i].value->0@ != v,
    ensures
        field_strings(field_of(merge_field(rs, t, fields, field), field)).contains(v),
{
    if exists|j: int| 0 <= j < t.len() && (#[trigger] t[j]).0 == field {
        let vals = field_strings(field_of(fields, field));
        let k = kept_values(rs, t, field);
        let u = unrecorded_values(vals, rs, field);
        let c = change_values(t, field);
        let l = k + u + c;
        assert(!recorded_value(rs, field, v)) by {
            if recorded_value(rs, field, v) {
                let i = choose|i: int| 0 <= i < rs.len() && (#[trigger] rs[i]).field@ == field && value_is(rs[i], v);
                assert(rs[i].value is Some);
            }
        }
        let a = choose|a: int| 0 <= a < vals.len() && vals[a] == v;
        unrecorded_listed(vals, rs, field, a);
        let b = choose|b: int| 0 <= b < u.len() && u[b] == v;
        assert(l[k.len() + b] == v);
        strings_read_back(l);
        unique_keeps_every_value(l);
    }
}

proof fn unrecorded_listed(values: Seq<Seq<char>>, rs: Seq<Record>, field: Seq<char>, a: int)
    requires
        0 <= a < values.len(),
        !recorded_value(rs, field, values[a]),
    ensures
        unrecorded_values(values, rs, field).contains(values[a]),
    decreases values.len(),
{
    let p = values.drop_last();
    let r = unrecorded_values(p, rs, field);
    if a < p.len() {
        assert(p[a] == values[a]);
        unrecorded_listed(p, rs, field, a);
        let k = choose|k: int| 0 <= k < r.len() && r[k] == values[a];
        if !recorded_value(rs, field, values.last()) {
            assert(r.push(values.last())[k] == values[a]);
        }
    } else {
        assert(values.last() == values[a]);
        assert(r.push(values[a])[r.len() as int] == values[a]);
    }
}

/// An `HDTV` quality is dropped when every HDTV quality record lies within a
/// DTS-HD audio label (and there is one); otherwise it is kept.
pub proof fn hdtv_dropped_only_inside_dts_hd(
    rs: Seq<Record>,
    t: Seq<TechRecord>,
    f: Map<Seq<char>, FieldView>,
)
    requires
        field_of(f, "quality"@) == Some(FieldView::Text("HDTV"@)),
    ensures
        ((exists|i: int| 0 <= i < rs.len() && #[trigger] rs[i].field@ == "quality"@ && rs[i].value
            == Some(rs[i].value->0) && rs[i].value->0@ == "HDTV"@) && (forall|i: int|
            0 <= i < rs.len() && #[trigger] rs[i].field@ == "quality"@ && rs[i].value == Some(
                rs[i].value->0,
            ) && rs[i].value->0@ == "HDTV"@ ==> exists|j: int|
                0 <= j < t.len() && (#[trigger] t[j]).0 == "audio"@ && t[j].3 == Some(t[j].3->0)
                    && "DTS-HD"@.is_prefix_of(t[j].3->0) && t[j].1 <= rs[i].start && rs[i].end
                    <= t[j].2)) <==> !without_hdtv(rs, t, f).contains_key("quality"@),
{
    let pa = exists|i: int| 0 <= i < rs.len() && #[trigger] rs[i].field@ == "quality"@ && rs[i].value
            == Some(rs[i].value->0) && rs[i].value->0@ == "HDTV"@;
    assert(pa == exists|i: int| 0 <= i < rs.len() && hdtv_source(#[trigger] rs[i])) by {
        if pa {
            let i = choose|i: int| 0 <= i < rs.len() && #[trigger] rs[i].field@ == "quality"@ && rs[i].value
                == Some(rs[i].value->0) && rs[i].value->0@ == "HDTV"@;
            assert(hdtv_source(rs[i]));
        }
        if exists|i: int| 0 <= i < rs.len() && hdtv_source(#[trigger] rs[i]) {
            let i = choose|i: int| 0 <= i < rs.len() && hdtv_source(#[trigger] rs[i]);
            assert(rs[i].value is Some);
        }
    }
    assert forall|i: int| 0 <= i < rs.len() implies (hdtv_source(#[trigger] rs[i]) == (rs[i].field@
        == "quality"@ && rs[i].value == Some(rs[i].value->0) && rs[i].value->0@ == "HDTV"@)) by {}
    assert forall|i: int, j: int| 0 <= i < rs.len() && 0 <= j < t.len() implies (dts_hd_covers(
        #[trigger] t[j],
        #[trigger] rs[i],
    ) == (t[j].0 == "audio"@ && t[j].3 == Some(t[j].3->0) && "DTS-HD"@.is_prefix_of(t[j].3->0)
        && t[j].1 <= rs[i].start && rs[i].end <= t[j].2)) by {}
}

/// The extended and remastered editions set their flags, and only they do.
pub proof fn editions_set_their_flags(f: Map<Seq<char>, FieldView>)
    ensures
        field_of(f, "edition"@) == Some(FieldView::Text("Extended Edition"@)) ==> with_editions(f)["extended"@]
            == FieldView::Flag(true) && with_editions(f).contains_key("extended"@),
        field_of(f, "edition"@) == Some(FieldView::Text("Remastered"@)) ==> with_editions(f)["remastered"@]
            == FieldView::Flag(true) && with_editions(f).contains_key("remastered"@),
        field_of(f, "edition"@) != Some(FieldView::Text("Extended Edition"@)) ==> with_editions(
            f,
        ).contains_key("extended"@) == f.contains_key("extended"@),
{
    reveal_strlit("extended");
    reveal_strlit("remastered");
    reveal_strlit("edition");
    assert("extended"@.len() == 8 && "remastered"@.len() == 10 && "edition"@.len() == 7);
    reveal_strlit("Extended Edition");
    reveal_strlit("Remastered");
    assert("Extended Edition"@.len() == 16 && "Remastered"@.len() == 10);
}

// -------------------------------------------------------------- patterns

/// The regular expressions of the detection rules, each as written.
pub proof fn detection_patterns_as_written()
    ensures
        REGIONAL_CODE@ == r"(?<![\w-])([a-z]{2,3}-(?:[a-z]{4}-)?(?:[a-z]{2}|\d{3}))(?![\w-])"@,
        TRAILING_ROLE@ == r"\b(audio|dub(?:bed|lado)?|subs?(?:titles?)?|sdh|forced|leg(?:endado|endas?)?|undertekst)\b[ .,:-]*$"@,
        LIST_OPENING@ == r"^(?:[ .,:-]*[\[({]|[ .-]*:)\s*"@,
        ANNOTATION@ == r"^[ .,:-]*(?:sdh|forced)\b"@,
        SEPARATORS@ == r"[ .,:-]*"@,
        BLOCK_ANNOTATION@ == r"\s*(?:sdh|forced)\s*"@,
        SUBTITLE_LABEL@ == r"[ .,:-]*(?:subs?(?:titles?)?|SDH|FORCED)[ .,:-]*"@,
        ROLE@ == r"\b(audio|dub(?:bed|lado)?|subs?(?:titles?)?|sdh|forced|leg(?:endado|endas?)?|undertekst)\b"@,
        LIST_AFTER_LABEL@ == r"^[ .-]*[:\[({]"@,
        MULTI_BEFORE@ == r"\bmulti(?:ple)?[ .-]*$"@,
        SUBTITLE_FILE@ == r"\.(?:srt|ass|ssa|vtt|sub|idx|smi|ttxt)\s*$"@,
        AUDIO_MARKER@ == r"VO[QF]|VQ|VF[FQIB2]?|FR2|TRUEFRENCH|MULTI(?:PLE)?(?:[ .-]*AUDIO)?"@,
        MULTI_SUB@ == r"MULTI(?:PLE)?[ .-]*SUB(?:S|TITLES?|BED)?|MSUB"@,
        SUBS_AT_END@ == r"\bsubs?(?:titles?)?\s*$"@,
        SUBTITLE_WORD@ == r"vost|sub|undertekst|\b(?:sdh|forced|leg(?:endado|endas?)?)\b"@,
        AUDIO_LABEL@ == r"^(?:audio|dub)"@,
        SUBTITLE_AFTER@ == r"^[ .,:-]*(subs?(?:titles?)?|sdh|forced|undertekst)\b"@,
        GROUP_ANNOTATION_WORD@ == r"\b(?:SDH|FORCED)\b"@,
        GROUP_ANNOTATION@ == r"[ .,:-]*(?:SDH|FORCED|\(\s*(?:SDH|FORCED)\s*\)|\[\s*(?:SDH|FORCED)\s*\]|\{\s*(?:SDH|FORCED)\s*\})[ .,:-]*"@,
        SIZE_UNIT@ == r"^[ .-]*(?:[KMGT]i?[BO]|FPS|K?BPS)\b"@,
        NUMBER_BEFORE@ == r"\b\d+[. -]$"@,
        CODEC_BEFORE@ == r"(?:AAC(?:v2)?|DTS|TRUE[ .-]*HD)$"@,
        CHANNELS_AT_START@ == r"^([1-9]\d?[. -][012][. -][1-9]\d?)(?:ch)?(?!\w|[.]\d(?!\d{2,3}[pi]\b))"@,
        SITE_OR_GENRE@ == r"\bwww\.[a-z0-9_-]+\.[a-z]+\b|\bsci[ .-]?fi\b"@,
        RELEASE_MARKER@ == r"\b(VF2|FR2|VFQ|VFF|VFB|VOQ|VQ|TRUEFRENCH|SUBFRENCH|FRENCH|VOSTFR|VOSTA|ENGSUB|ESUBS?|MULTI(?:PLE)?[ .-]*SUB(?:S|TITLES?|BED)?|MSUB|MULTI(?:PLE)?[ .-]*AUDIO|MULTI)\b"@,
        SUBBED@ == r"\bsubbed\b"@,
        UPPER_CODE@ == r"(?-i:\b[A-Z]{2,3}\b)"@,
        TRADITIONAL@ == r"\bCHT\b|hant|traditional"@,
        SIMPLIFIED@ == r"\bCHS\b|hans|simplified"@,
        BRAZILIAN@ == r"\bBR\b|brazil"@,
{
}

// ------------------------------------------------------------ entry order

/// Entries in title order: by start, then by end.
pub open spec fn in_title_order(s: Seq<Entry>) -> bool {
    forall|i: int, j: int|
        0 <= i < j < s.len() ==> (#[trigger] s[i]).0 < (#[trigger] s[j]).0 || (s[i].0 == s[j].0
            && s[i].1 <= s[j].1)
}

proof fn place_facts(s: Seq<Entry>, x: Entry)
    ensures
        0 <= place(s, x) <= s.len(),
        forall|k: int| 0 <= k < place(s, x) ==> !entry_after(#[trigger] s[k], x),
        place(s, x) < s.len() ==> entry_after(s[place(s, x)], x),
    decreases s.len(),
{
    if s.len() > 0 && !entry_after(s[0], x) {
        let t = s.drop_first();
        place_facts(t, x);
        assert forall|k: int| 0 <= k < place(s, x) implies !entry_after(#[trigger] s[k], x) by {
            if k > 0 {
                assert(s[k] == t[k - 1]);
            }
        }
        if place(s, x) < s.len() {
            assert(s[place(s, x)] == t[place(t, x)]);
        }
    }
}

proof fn sorted_in_title_order(s: Seq<Entry>)
    ensures
        in_title_order(sort_entries(s)),
        sort_entries(s).to_multiset() == s.to_multiset(),
    decreases s.len(),
{
    broadcast use vstd::seq_lib::group_to_multiset_ensures, vstd::multiset::group_multiset_axioms;

    if s.len() > 0 {
        let q = s.drop_last();
        let x = s.last();
        sorted_in_title_order(q);
        let r = sort_entries(q);
        place_facts(r, x);
        let p = place(r, x);
        let o = r.insert(p, x);
        assert(s == q.push(x));
        assert forall|i: int, j: int| 0 <= i < j < o.len() implies (#[trigger] o[i]).0 < (#[trigger] o[j]).0
            || (o[i].0 == o[j].0 && o[i].1 <= o[j].1) by {
            if j < p {
                assert(o[i] == r[i] && o[j] == r[j]);
            } else if j == p {
                assert(o[i] == r[i] && o[j] == x);
                assert(!entry_after(r[i], x));
            } else if i < p {
                assert(o[i] == r[i] && o[j] == r[j - 1]);
            } else if i == p {
                assert(o[i] == x && o[j] == r[j - 1]);
                assert(entry_after(r[p], x));
                assert(r[p].0 < r[j - 1].0 || (r[p].0 == r[j - 1].0 && r[p].1 <= r[j - 1].1)) by {
                    if p < j - 1 {
                        assert(in_title_order(r));
                    }
                }
            } else {
                assert(o[i] == r[i - 1] && o[j] == r[j - 1]);
            }
        }
        assert(o.to_multiset() =~= q.to_multiset().insert(x));
    }
}

proof fn not_overlapped_members(d: Seq<Entry>, ex: Seq<Entry>, e: Entry)
    ensures
        not_overlapped(d, ex).contains(e) <==> d.contains(e) && !(exists|i: int|
            0 <= i < ex.len() && overlaps((e.0, e.1), ((#[trigger] ex[i]).0, ex[i].1))),
    decreases d.len(),
{
    if d.len() > 0 {
        let q = d.drop_last();
        not_overlapped_members(q, ex, e);
        let r = not_overlapped(q, ex);
        assert(d == q.push(d.last()));
        if r.contains(e) {
            let k = choose|k: int| 0 <= k < r.len() && r[k] == e;
            assert(r.push(d.last())[k] == e);
            let a = choose|a: int| 0 <= a < q.len() && q[a] == e;
            assert(d[a] == e);
        }
        if d.contains(e) {
            let a = choose|a: int| 0 <= a < d.len() && d[a] == e;
            if a < q.len() {
                assert(q[a] == e);
            } else {
                assert(r.push(e)[r.len() as int] == e);
            }
        }
        let o = not_overlapped(d, ex);
        if o.contains(e) && !r.contains(e) {
            let k = choose|k: int| 0 <= k < o.len() && o[k] == e;
            if o != r {
                if k < r.len() {
                    assert(o[k] == r[k]);
                }
                assert(e == d.last());
                assert(d[d.len() - 1] == e);
            }
        }
    }
}

/// The entries that language detection classifies come in title order, and
/// they are exactly the explicit entries together with the detected entries
/// that no explicit entry overlaps: a detected language gives way only to an
/// explicit one over the same text.
pub proof fn merged_entries_are_explicit_or_unchallenged(d: Seq<Entry>, ex: Seq<Entry>, e: Entry)
    ensures
        in_title_order(merged(d, ex)),
        merged(d, ex).contains(e) <==> ex.contains(e) || (d.contains(e) && forall|i: int|
            0 <= i < ex.len() ==> !(e.0 < (#[trigger] ex[i]).1 && ex[i].0 < e.1)),
{
    broadcast use vstd::seq_lib::group_to_multiset_ensures, vstd::multiset::group_multiset_axioms;

    let all = not_overlapped(d, ex) + ex;
    sorted_in_title_order(all);
    not_overlapped_members(d, ex, e);
    assert(merged(d, ex).contains(e) <==> all.contains(e)) by {
        if merged(d, ex).contains(e) {
            assert(merged(d, ex).to_multiset().count(e) > 0);
        }
        if all.contains(e) {
            assert(all.to_multiset().count(e) > 0);
        }
    }
    assert(all.contains(e) <==> not_overlapped(d, ex).contains(e) || ex.contains(e)) by {
        let n = not_overlapped(d, ex);
        if all.contains(e) {
            let k = choose|k: int| 0 <= k < all.len() && all[k] == e;
            if k < n.len() {
                assert(n[k] == e);
            } else {
                assert(ex[k - n.len()] == e);
            }
        }
        if n.contains(e) {
            let k = choose|k: int| 0 <= k < n.len() && n[k] == e;
            assert(all[k] == e);
        }
        if ex.contains(e) {
            let k = choose|k: int| 0 <= k < ex.len() && ex[k] == e;
            assert(all[n.len() + k] == e);
        }
    }
}

// ------------------------------------------------------------ bare codes

/// A bare code (no dash) gives way when a regional code of the same
/// language (its first subtag, lower-cased) is among the role's codes; a
/// bare code with no such regional code stays.
pub proof fn bare_codes_give_way(values: Seq<Seq<char>>, all: Seq<Seq<char>>, v: Seq<char>)
    requires
        !v.contains('-'),
    ensures
        (exists|j: int| 0 <= j < all.len() && (#[trigger] all[j]).contains('-') && lower_case(split_dash(all[j])[0]) == lower_case(v))
            ==> !without_bare(values, all).contains(v),
        values.contains(v) && !(exists|j: int| 0 <= j < all.len() && (#[trigger] all[j]).contains('-') && lower_case(split_dash(all[j])[0]) == lower_case(v))
            ==> without_bare(values, all).contains(v),
    decreases values.len(),
{
    if values.len() > 0 {
        let q = values.drop_last();
        bare_codes_give_way(q, all, v);
        let r = without_bare(q, all);
        let w = without_bare(values, all);
        let l = values.last();
        if w.contains(v) && !r.contains(v) {
            let k = choose|k: int| 0 <= k < w.len() && w[k] == v;
            if w != r {
                if k < r.len() {
                    assert(w[k] == r[k]);
                }
                assert(l == v);
            }
        }
        if values.contains(v) {
            let a = choose|a: int| 0 <= a < values.len() && values[a] == v;
            if a < q.len() {
                assert(q[a] == v);
                if r.contains(v) {
                    let k = choose|k: int| 0 <= k < r.len() && r[k] == v;
                    if w != r {
                        assert(w[k] == v);
                    }
                }
            } else {
                assert(l == v);
            }
        }
        if !(exists|j: int| 0 <= j < all.len() && (#[trigger] all[j]).contains('-') && lower_case(split_dash(all[j])[0]) == lower_case(v)) && l == v {
            assert(!(exists|i: int| 0 <= i < all.len() && (#[trigger] all[i]).contains('-') && base_of(all[i]) == lower_case(v)));
            assert(w == r.push(v));
            assert(w[r.len() as int] == v);
        }
    }
}

// --------------------------------------------------- unrecorded languages

impl<'a> Details<'a> {
    /// A code of the earlier parser's languages that no detected entry and no
    /// explicit entry's language accounts for is added to the subtitle
    /// languages for a subtitle file and to the audio languages otherwise;
    /// an accounted-for code adds nothing.
    pub proof fn unrecorded_languages_join_a_role(
        &self,
        acc: (Seq<Seq<char>>, Seq<Seq<char>>),
        det: Seq<Entry>,
        ex: Seq<Entry>,
        codes: Seq<Seq<char>>,
        c: Seq<char>,
    )
        requires
            codes.contains(c),
            !(exists|i: int| 0 <= i < det.len() && (#[trigger] det[i]).2 == c),
            !(exists|i: int| 0 <= i < ex.len() && lower_case(split_dash((#[trigger] ex[i]).2)[0]) == c),
        ensures
            matches_in(r"\.(?:srt|ass|ssa|vtt|sub|idx|smi|ttxt)\s*$"@, self.text()) ==> self.unrecorded_fold(acc, det, ex, codes).1.contains(c),
            !matches_in(r"\.(?:srt|ass|ssa|vtt|sub|idx|smi|ttxt)\s*$"@, self.text()) ==> self.unrecorded_fold(acc, det, ex, codes).0.contains(c),
        decreases codes.len(),
    {
        let q = codes.drop_last();
        let a = self.unrecorded_fold(acc, det, ex, q);
        let o = self.unrecorded_fold(acc, det, ex, codes);
        assert(!Self::recorded(det, ex, c));
        if q.contains(c) {
            self.unrecorded_languages_join_a_role(acc, det, ex, q, c);
            if matches_in(SUBTITLE_FILE@, self.text()) {
                let k = choose|k: int| 0 <= k < a.1.len() && a.1[k] == c;
                assert(o.1[k] == c);
            } else {
                let k = choose|k: int| 0 <= k < a.0.len() && a.0[k] == c;
                assert(o.0[k] == c);
            }
        } else {
            let k = choose|k: int| 0 <= k < codes.len() && codes[k] == c;
            if k < q.len() {
                assert(q[k] == c);
            }
            assert(codes.last() == c);
            if matches_in(SUBTITLE_FILE@, self.text()) {
                assert(o.1[a.1.len() as int] == c);
            } else {
                assert(o.0[a.0.len() as int] == c);
            }
        }
    }
}

// ------------------------------------------------------- explicit entries

impl<'a> Details<'a> {
    /// A regional code that the data knows, in metadata position, is added
    /// as an explicit entry over its span; any other is not.
    pub proof fn known_regional_codes_are_explicit(&self, ex: Seq<Entry>, sp: (int, int, Seq<u8>))
        ensures
            regional(self.lexicon().data, decode_utf8(sp.2)) is Some && self.metadata_at((sp.0, sp.1))
                ==> self.regional_step(ex, sp) == ex.push((sp.0, sp.1, decode_utf8(sp.2))),
            !(regional(self.lexicon().data, decode_utf8(sp.2)) is Some && self.metadata_at(
                (sp.0, sp.1),
            )) ==> self.regional_step(ex, sp) == ex,
    {
    }

    /// A language named in the title is added as an explicit entry when it
    /// overlaps no technical label, has the subtitle role or a label, stands
    /// in metadata position and overlaps no entry found so far; a name that
    /// overlaps a technical label is never added.
    pub proof fn named_languages_are_explicit(
        &self,
        ex: Seq<Entry>,
        det: Seq<Entry>,
        technical: Seq<TechRecord>,
        code: Seq<char>,
        sp: (int, int, Seq<u8>),
    )
        ensures
            (exists|i: int| 0 <= i < technical.len() && sp.0 < (#[trigger] technical[i]).2 && technical[i].1 < sp.1)
                ==> self.named_step(ex, det, technical, code, sp) == ex,
            !(exists|i: int| 0 <= i < technical.len() && sp.0 < (#[trigger] technical[i]).2 && technical[i].1 < sp.1)
                && (self.subtitle_role_of((sp.0, sp.1)) || self.labelled_span((sp.0, sp.1)))
                && self.metadata_at((sp.0, sp.1))
                && !(exists|i: int| 0 <= i < det.len() && sp.0 < (#[trigger] det[i]).1 && det[i].0 < sp.1)
                && !(exists|i: int| 0 <= i < ex.len() && sp.0 < (#[trigger] ex[i]).1 && ex[i].0 < sp.1)
                ==> self.named_step(ex, det, technical, code, sp) == ex.push((sp.0, sp.1, code)),
    {
        let found = det + ex;
        if !(exists|i: int| 0 <= i < det.len() && sp.0 < (#[trigger] det[i]).1 && det[i].0 < sp.1)
            && !(exists|i: int| 0 <= i < ex.len() && sp.0 < (#[trigger] ex[i]).1 && ex[i].0 < sp.1) {
            assert forall|i: int| 0 <= i < found.len() implies !overlaps((sp.0, sp.1), ((#[trigger] found[i]).0, found[i].1)) by {
                if i < det.len() {
                    assert(found[i] == det[i]);
                } else {
                    assert(found[i] == ex[i - det.len()]);
                }
            }
        }
    }

    /// An entry inside a site record is left out of both roles.
    pub proof fn site_entries_are_left_out(&self, acc: (Seq<Seq<char>>, Seq<Seq<char>>), e: Entry, i: int)
        requires
            0 <= i < self.records().len(),
            self.records()[i].field@ == "site"@,
            self.records()[i].start <= e.0,
            e.1 <= self.records()[i].end,
        ensures
            self.role_step(acc, e) == Ok::<(Seq<Seq<char>>, Seq<Seq<char>>), Seq<char>>(acc),
    {
        assert(Self::inside_site(self.records()[i], (e.0, e.1)));
    }

    /// An entry that is not excluded and whose code is not `de` is always
    /// classified by its role.
    pub proof fn entries_other_than_de_are_classified(&self, acc: (Seq<Seq<char>>, Seq<Seq<char>>), e: Entry)
        requires
            !self.excluded_at((e.0, e.1)),
            e.2 != "de"@,
        ensures
            self.role_step(acc, e) == Ok::<(Seq<Seq<char>>, Seq<Seq<char>>), Seq<char>>(self.classify(acc, e)),
    {
    }

    /// A block labels a span inside it when a role word (audio, dub, subs,
    /// SDH, forced, legendas, undertekst) stands in the block before the span,
    /// or a subtitle label fills the rest of the block after it.
    pub proof fn blocks_label_by_role_words(&self, span: (int, int), blk: (int, int))
        requires
            blk.0 < span.0,
            span.1 <= blk.1,
            matches_in(
                r"\b(audio|dub(?:bed|lado)?|subs?(?:titles?)?|sdh|forced|leg(?:endado|endas?)?|undertekst)\b"@,
                self.context(blk.0 + 1, span.0),
            ) || fully_matches(
                r"[ .,:-]*(?:subs?(?:titles?)?|SDH|FORCED)[ .,:-]*"@,
                self.text().subrange(span.1, blk.1),
            ),
        ensures
            self.labels_span(span, blk),
    {
    }
}

// ------------------------------------------------------------------ names

/// A language code without qualifiers reads as the language's name.
pub proof fn bare_codes_read_as_names(data: LanguageData, lang: Seq<char>, name: Seq<char>)
    requires
        !lang.contains('-'),
        lang != "multi"@,
        lookup(data.names@, lang) == Some(name),
    ensures
        display_name(data, lang) == Some(name),
{
    split_without_dash(lang);
    assert(split_dash(lang).drop_first() =~= Seq::<Seq<char>>::empty());
}

/// A language code with a territory reads as the language's name followed by
/// the territory's name in brackets (a territory that also names a script is
/// read as the script).
pub proof fn regional_codes_read_with_their_territory(
    data: LanguageData,
    lang: Seq<char>,
    terr: Seq<char>,
    name: Seq<char>,
    territory: Seq<char>,
)
    requires
        !lang.contains('-'),
        !terr.contains('-'),
        lookup(data.names@, lang) == Some(name),
        lookup(data.script_names@, terr) is None,
        lookup(data.territory_names@, terr) == Some(territory),
    ensures
        display_name(data, lang + "-"@ + terr) == Some(name + " ("@ + territory + ")"@),
{
    reveal_strlit("-");
    reveal_strlit("multi");
    let code = lang + "-"@ + terr;
    assert(code[lang.len() as int] == '-');
    assert(code != "multi"@) by {
        if code == "multi"@ {
            assert("multi"@[lang.len() as int] == '-');
        }
    }
    split_tag(lang, terr);
    let parts = split_dash(code);
    assert(parts.drop_first() =~= seq![terr]);
    assert(seq![terr].drop_last() =~= Seq::<Seq<char>>::empty());
    assert(qualifier_names(data, Seq::<Seq<char>>::empty()) =~= Seq::<Seq<char>>::empty());
    assert(qualifier_names(data, seq![terr]) =~= seq![territory]);
    assert(join(seq![territory], ", "@) == territory);
}

// ------------------------------------------------------- technical guards

impl<'a> Details<'a> {
    /// A technical match adds nothing out of metadata position or over a
    /// record already made for its field.
    pub proof fn technical_matches_need_room(&self, out: Seq<TechRecord>, p: (Seq<char>, Seq<char>, Option<Seq<char>>), sp: (int, int, Seq<u8>))
        requires
            !self.metadata_at((sp.0, sp.1)) || exists|j: int|
                0 <= j < out.len() && (#[trigger] out[j]).0 == p.0 && sp.0 < out[j].2 && out[j].1 < sp.1,
        ensures
            self.technical_step(out, p, sp) == Ok::<Seq<TechRecord>, Seq<char>>(out),
    {
    }

    /// A channel layout followed by a size or rate unit, or preceded by a
    /// number, is no channel layout; nor is one stuck to a letter or digit
    /// that neither ends an audio record nor a codec name.
    pub proof fn channel_layouts_need_clear_edges(&self, out: Seq<TechRecord>, p: (Seq<char>, Seq<char>, Option<Seq<char>>), sp: (int, int, Seq<u8>))
        requires
            p.0 == "channels"@,
            matches_in(r"^[ .-]*(?:[KMGT]i?[BO]|FPS|K?BPS)\b"@, self.text().subrange(sp.1, self.text().len() as int))
                || matches_in(r"\b\d+[. -]$"@, self.text().subrange(0, sp.0))
                || (decode_utf8(self.text().subrange(0, sp.0)).len() > 0
                    && alphanumeric(decode_utf8(self.text().subrange(0, sp.0)).last())
                    && !(exists|j: int| 0 <= j < out.len() && (#[trigger] out[j]).0 == "audio"@ && out[j].2 == sp.0)
                    && !matches_in(r"(?:AAC(?:v2)?|DTS|TRUE[ .-]*HD)$"@, self.text().subrange(0, sp.0))),
        ensures
            self.technical_step(out, p, sp) == Ok::<Seq<TechRecord>, Seq<char>>(out),
    {
    }
}
} // verus!
