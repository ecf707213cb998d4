//! What holds of the library as a whole: of lists without repeats, of
//! overlapping ranges, of the `multi` marker, of the blocks of a title and of
//! the whole detailed-metadata pass.
use crate::apply::{
    change_values, changed_at, has_field_change, kept_values, merge_field, recorded_value,
    unrecorded_values, value_is, names_of, translated, translated_field, with_dolby_vision, with_editions,
    without_annotation_group, without_hdtv,
};
use crate::blocks::{block_order, blocks_of, raw_blocks};
use crate::details::{overlaps, Details};
use crate::fields::{dedup, field_strings, string_list, text_items, FieldView, ItemView, Record};
use crate::language::{
    display_name, is_script_tag, qualifiers, regional, script_form, well_keyed, LanguageData,
    Lexicon,
};
use crate::languages::{detected_of, field_of, final_codes, merged, regional_forms, without_bare};
use crate::technical::TechRecord;
use crate::text::{
    all_ascii, ascii_lower, ascii_lower_char, ascii_upper, ascii_upper_char, chars_of,
    is_ascii_alpha, lookup, lookup_reads_a_map, lower_case, split_dash, split_dash_nonempty, split_on_dash, string_of,
    to_lower, to_upper, upper_case, view_strings,
};
use vstd::prelude::*;
use vstd::relations::sorted_by;

verus! {

/// Ranges overlap regardless of the order in which they are given.
pub proof fn overlap_is_symmetric(a: (int, int), b: (int, int))
    ensures
        overlaps(a, b) == overlaps(b, a),
{
}

/// A value is kept by `unique` exactly when it occurs in its input.
pub proof fn unique_keeps_every_value(values: Seq<Seq<char>>)
    ensures
        forall|x: Seq<char>| #[trigger] dedup(values).contains(x) <==> values.contains(x),
    decreases values.len(),
{
    if values.len() > 0 {
        let p = values.drop_last();
        unique_keeps_every_value(p);
        let r = dedup(p);
        let l = values.last();
        assert(values =~= p.push(l));
        assert forall|x: Seq<char>| #[trigger] dedup(values).contains(x) <==> values.contains(x) by {
            assert(r.contains(x) <==> p.contains(x));
            assert(values.contains(x) <==> (p.contains(x) || x == l)) by {
                if values.contains(x) {
                    let i = choose|i: int| 0 <= i < values.len() && values[i] == x;
                    if i < p.len() {
                        assert(p[i] == x);
                    }
                }
                if p.contains(x) {
                    let i = choose|i: int| 0 <= i < p.len() && p[i] == x;
                    assert(values[i] == x);
                }
                assert(values[values.len() - 1] == l);
            }
            if r.contains(l) {
                assert(dedup(values) == r);
            } else {
                assert(dedup(values) == r.push(l));
                assert(r.push(l).contains(x) <==> (r.contains(x) || x == l)) by {
                    assert(r.push(l)[r.len() as int] == l);
                    if r.contains(x) {
                        let j = choose|j: int| 0 <= j < r.len() && r[j] == x;
                        assert(r.push(l)[j] == x);
                    }
                    if r.push(l).contains(x) && x != l {
                        let j = choose|j: int| 0 <= j < r.push(l).len() && r.push(l)[j] == x;
                        assert(r[j] == x);
                    }
                }
            }
        }
    }
}

/// `unique` never gives a value twice.
pub proof fn unique_has_no_repeats(values: Seq<Seq<char>>)
    ensures
        dedup(values).no_duplicates(),
    decreases values.len(),
{
    if values.len() > 0 {
        unique_has_no_repeats(values.drop_last());
    }
}

/// A list without repeats is left as it is by `unique`.
pub proof fn unique_keeps_distinct_lists(values: Seq<Seq<char>>)
    requires
        values.no_duplicates(),
    ensures
        dedup(values) == values,
    decreases values.len(),
{
    if values.len() > 0 {
        let p = values.drop_last();
        unique_keeps_distinct_lists(p);
        assert(!p.contains(values.last())) by {
            if p.contains(values.last()) {
                let i = choose|i: int| 0 <= i < p.len() && p[i] == values.last();
                assert(values[i] == values[values.len() - 1]);
            }
        }
        assert(p.push(values.last()) =~= values);
    }
}

/// Applying `unique` twice is applying it once.
pub proof fn unique_is_idempotent(values: Seq<Seq<char>>)
    ensures
        dedup(dedup(values)) == dedup(values),
{
    unique_has_no_repeats(values);
    unique_keeps_distinct_lists(dedup(values));
}

/// Reading back a field set by `set_strings` gives its values without
/// repeats, first occurrences first.
pub proof fn strings_read_back(values: Seq<Seq<char>>)
    ensures
        field_strings(Some(string_list(values))) == dedup(values),
{
    texts_read_back(dedup(values));
}

proof fn texts_read_back(v: Seq<Seq<char>>)
    ensures
        text_items(v.map_values(|s: Seq<char>| ItemView::Text(s))) == v,
    decreases v.len(),
{
    if v.len() > 0 {
        texts_read_back(v.drop_last());
        let m = v.map_values(|s: Seq<char>| ItemView::Text(s));
        assert(m.drop_last() =~= v.drop_last().map_values(|s: Seq<char>| ItemView::Text(s)));
        assert(v.drop_last().push(v.last()) =~= v);
    }
}

/// `multi` is a marker: it is its own regional form and reads "Multiple
/// languages", whatever the language data.
pub proof fn multi_is_a_marker(data: LanguageData)
    ensures
        regional(data, "multi"@) == Some("multi"@),
        display_name(data, "multi"@) == Some("Multiple languages"@),
{
}

/// The blocks of a title come innermost first: ordered by decreasing start,
/// then decreasing end.
pub proof fn blocks_innermost_first(b: Seq<u8>)
    ensures
        sorted_by(blocks_of(b), |x: (int, int), y: (int, int)| block_order(x, y)),
{
    raw_blocks(b).lemma_sort_by_ensures(|x: (int, int), y: (int, int)| block_order(x, y));
}


/// `v` is a list field of distinct strings.
pub open spec fn distinct_strings(v: FieldView) -> bool {
    v == string_list(field_strings(Some(v)))
}

/// The fields that the detailed-metadata pass may set or remove.
pub open spec fn touched(k: Seq<char>) -> bool {
    ||| k == "languages"@
    ||| k == "audio_languages"@
    ||| k == "subtitle_languages"@
    ||| k == "group"@
    ||| k == "audio"@
    ||| k == "channels"@
    ||| k == "hdr"@
    ||| k == "dolby_vision_profiles"@
    ||| k == "quality"@
    ||| k == "extended"@
    ||| k == "remastered"@
}

proof fn string_list_is_distinct(values: Seq<Seq<char>>)
    ensures
        distinct_strings(string_list(values)),
{
    strings_read_back(values);
    unique_is_idempotent(values);
}

proof fn field_names_differ()
    ensures
        "languages"@ != "audio_languages"@,
        "languages"@ != "subtitle_languages"@,
        "audio_languages"@ != "subtitle_languages"@,
        "hdr"@ != "dolby_vision_profiles"@,
        "group"@ != "languages"@,
        "group"@ != "audio_languages"@,
        "group"@ != "subtitle_languages"@,
        "group"@ != "hdr"@,
        "group"@ != "dolby_vision_profiles"@,
        "audio"@ != "languages"@,
        "audio"@ != "audio_languages"@,
        "audio"@ != "subtitle_languages"@,
        "audio"@ != "hdr"@,
        "audio"@ != "dolby_vision_profiles"@,
        "channels"@ != "languages"@,
        "channels"@ != "audio_languages"@,
        "channels"@ != "subtitle_languages"@,
        "channels"@ != "hdr"@,
        "channels"@ != "dolby_vision_profiles"@,
        "quality"@ != "languages"@,
        "quality"@ != "audio_languages"@,
        "quality"@ != "subtitle_languages"@,
        "quality"@ != "hdr"@,
        "quality"@ != "dolby_vision_profiles"@,
        "extended"@ != "languages"@,
        "extended"@ != "audio_languages"@,
        "extended"@ != "subtitle_languages"@,
        "extended"@ != "hdr"@,
        "extended"@ != "dolby_vision_profiles"@,
        "remastered"@ != "languages"@,
        "remastered"@ != "audio_languages"@,
        "remastered"@ != "subtitle_languages"@,
        "remastered"@ != "hdr"@,
        "remastered"@ != "dolby_vision_profiles"@,
        "hdr"@ != "languages"@,
        "hdr"@ != "audio_languages"@,
        "hdr"@ != "subtitle_languages"@,
        "dolby_vision_profiles"@ != "languages"@,
        "dolby_vision_profiles"@ != "audio_languages"@,
        "dolby_vision_profiles"@ != "subtitle_languages"@,
{
    reveal_strlit("languages");
    assert("languages"@.len() == 9);
    reveal_strlit("audio_languages");
    assert("audio_languages"@.len() == 15);
    reveal_strlit("subtitle_languages");
    assert("subtitle_languages"@.len() == 18);
    reveal_strlit("group");
    assert("group"@.len() == 5);
    reveal_strlit("audio");
    assert("audio"@.len() == 5);
    reveal_strlit("channels");
    assert("channels"@.len() == 8);
    reveal_strlit("hdr");
    assert("hdr"@.len() == 3);
    reveal_strlit("dolby_vision_profiles");
    assert("dolby_vision_profiles"@.len() == 21);
    reveal_strlit("quality");
    assert("quality"@.len() == 7);
    reveal_strlit("extended");
    assert("extended"@.len() == 8);
    reveal_strlit("remastered");
    assert("remastered"@.len() == 10);
}

/// Every regional form is the regional form of some code.
proof fn regional_forms_are_regional(data: LanguageData, values: Seq<Seq<char>>)
    ensures
        forall|v: Seq<char>|
            #[trigger] regional_forms(data, values).contains(v) ==> exists|c: Seq<char>|
                regional(data, c) == Some(v),
    decreases values.len(),
{
    if values.len() > 0 {
        regional_forms_are_regional(data, values.drop_last());
        let r = regional_forms(data, values.drop_last());
        assert forall|v: Seq<char>| #[trigger] regional_forms(data, values).contains(v) implies exists|c: Seq<char>|
            regional(data, c) == Some(v) by {
            match regional(data, values.last()) {
                Some(c) => {
                    let j = choose|j: int| 0 <= j < r.push(c).len() && r.push(c)[j] == v;
                    if j < r.len() {
                        assert(r[j] == v);
                        assert(r.contains(v));
                    } else {
                        assert(regional(data, values.last()) == Some(v));
                    }
                },
                None => {},
            }
        }
    }
}

/// Every name is the name of some code.
proof fn names_are_names(data: LanguageData, codes: Seq<Seq<char>>)
    ensures
        forall|v: Seq<char>|
            #[trigger] names_of(data, codes).contains(v) ==> exists|c: Seq<char>|
                display_name(data, c) == Some(v),
    decreases codes.len(),
{
    if codes.len() > 0 {
        names_are_names(data, codes.drop_last());
        let r = names_of(data, codes.drop_last());
        assert forall|v: Seq<char>| #[trigger] names_of(data, codes).contains(v) implies exists|c: Seq<char>|
            display_name(data, c) == Some(v) by {
            match display_name(data, codes.last()) {
                Some(n) => {
                    let j = choose|j: int| 0 <= j < r.push(n).len() && r.push(n)[j] == v;
                    if j < r.len() {
                        assert(r[j] == v);
                        assert(r.contains(v));
                    } else {
                        assert(display_name(data, codes.last()) == Some(v));
                    }
                },
                None => {},
            }
        }
    }
}

/// After language detection, `languages` is gone and both language fields
/// hold the distinct final codes of some lists of codes.
proof fn languages_of_shape<'a>(d: &Details<'a>, f: Map<Seq<char>, FieldView>, t: Seq<TechRecord>)
    requires
        d.languages_of(f, t) is Ok,
    ensures
        exists|a: Seq<Seq<char>>, s: Seq<Seq<char>>|
            d.languages_of(f, t)->Ok_0 == f.remove("languages"@).insert(
                "audio_languages"@,
                string_list(final_codes(d.lexicon().data, a)),
            ).insert("subtitle_languages"@, string_list(final_codes(d.lexicon().data, s))),
{
    let det = detected_of(d.records());
    let ex = d.explicit_of(det, t)->Ok_0;
    let acc = d.role_fold(
        (Seq::empty(), field_strings(field_of(f, "subtitle_languages"@))),
        merged(det, ex),
    )->Ok_0;
    let acc2 = d.unrecorded_fold(acc, det, ex, field_strings(field_of(f, "languages"@)));
    assert(d.languages_of(f, t)->Ok_0 == f.remove("languages"@).insert(
        "audio_languages"@,
        string_list(final_codes(d.lexicon().data, acc2.0)),
    ).insert("subtitle_languages"@, string_list(final_codes(d.lexicon().data, acc2.1))));
}

/// The maps that the pass goes through after language detection.
proof fn finished_steps<'a>(
    d: &Details<'a>,
    f1: Map<Seq<char>, FieldView>,
    t: Seq<TechRecord>,
    translate: bool,
) -> (r: (Map<Seq<char>, FieldView>, Map<Seq<char>, FieldView>))
    ensures
        r.0 == merge_field(
            d.records(),
            t,
            merge_field(
                d.records(),
                t,
                merge_field(
                    d.records(),
                    t,
                    merge_field(d.records(), t, without_annotation_group(d.lexicon(), f1), "audio"@),
                    "channels"@,
                ),
                "hdr"@,
            ),
            "dolby_vision_profiles"@,
        ),
        r.1 == with_editions(without_hdtv(d.records(), t, with_dolby_vision(r.0))),
        d.finished(f1, t, translate) == (if translate {
            translated(d.lexicon().data, r.1)
        } else {
            r.1
        }),
{
    let rs = d.records();
    let f3 = merge_field(
        rs,
        t,
        merge_field(rs, t, merge_field(rs, t, merge_field(rs, t, without_annotation_group(d.lexicon(), f1), "audio"@), "channels"@), "hdr"@),
        "dolby_vision_profiles"@,
    );
    (f3, with_editions(without_hdtv(rs, t, with_dolby_vision(f3))))
}

/// The steps after language detection set or remove only the fields they
/// are about.
proof fn steps_keep_other_fields(
    rs: Seq<Record>,
    t: Seq<TechRecord>,
    lexicon: Lexicon,
    f: Map<Seq<char>, FieldView>,
    k: Seq<char>,
)
    ensures
        k != "group"@ ==> without_annotation_group(lexicon, f).contains_key(k) == f.contains_key(k)
            && without_annotation_group(lexicon, f)[k] == f[k],
        forall|field: Seq<char>|
            k != field ==> #[trigger] merge_field(rs, t, f, field).contains_key(k) == f.contains_key(k)
                && merge_field(rs, t, f, field)[k] == f[k],
        k != "hdr"@ ==> with_dolby_vision(f).contains_key(k) == f.contains_key(k)
            && with_dolby_vision(f)[k] == f[k],
        k != "quality"@ ==> without_hdtv(rs, t, f).contains_key(k) == f.contains_key(k)
            && without_hdtv(rs, t, f)[k] == f[k],
        k != "extended"@ && k != "remastered"@ ==> with_editions(f).contains_key(k) == f.contains_key(
            k,
        ) && with_editions(f)[k] == f[k],
{
}

/// The detailed-metadata pass replaces `languages` by `audio_languages` and
/// `subtitle_languages`: afterwards `languages` is gone and each of the two
/// is a list of distinct strings.
pub proof fn languages_replaced<'a>(d: &Details<'a>, f: Map<Seq<char>, FieldView>, translate: bool)
    requires
        d.apply_of(f, translate) is Ok,
    ensures
        !(d.apply_of(f, translate)->Ok_0).contains_key("languages"@),
        (d.apply_of(f, translate)->Ok_0).contains_key("audio_languages"@),
        (d.apply_of(f, translate)->Ok_0).contains_key("subtitle_languages"@),
        distinct_strings((d.apply_of(f, translate)->Ok_0)["audio_languages"@]),
        distinct_strings((d.apply_of(f, translate)->Ok_0)["subtitle_languages"@]),
{
    let t = d.technical_of()->Ok_0;
    let f1 = d.languages_of(f, t)->Ok_0;
    let data = d.lexicon().data;
    languages_of_shape(d, f, t);
    let (a, s) = choose|a: Seq<Seq<char>>, s: Seq<Seq<char>>|
        f1 == f.remove("languages"@).insert("audio_languages"@, string_list(final_codes(data, a))).insert(
            "subtitle_languages"@,
            string_list(final_codes(data, s)),
        );
    field_names_differ();
    string_list_is_distinct(final_codes(data, a));
    string_list_is_distinct(final_codes(data, s));
    let (f3, f6) = finished_steps(d, f1, t, translate);
    let rs = d.records();
    let f2 = without_annotation_group(d.lexicon(), f1);
    let f3a = merge_field(rs, t, f2, "audio"@);
    let f3b = merge_field(rs, t, f3a, "channels"@);
    let f3c = merge_field(rs, t, f3b, "hdr"@);
    let f4 = with_dolby_vision(f3);
    let f5 = without_hdtv(rs, t, f4);
    let names = seq!["languages"@, "audio_languages"@, "subtitle_languages"@];
    assert forall|i: int| 0 <= i < 3 implies f6.contains_key(#[trigger] names[i]) == f1.contains_key(names[i])
        && f6[names[i]] == f1[names[i]] by {
        let k = names[i];
        steps_keep_other_fields(rs, t, d.lexicon(), f1, k);
        steps_keep_other_fields(rs, t, d.lexicon(), f2, k);
        steps_keep_other_fields(rs, t, d.lexicon(), f3a, k);
        steps_keep_other_fields(rs, t, d.lexicon(), f3b, k);
        steps_keep_other_fields(rs, t, d.lexicon(), f3c, k);
        steps_keep_other_fields(rs, t, d.lexicon(), f3, k);
        steps_keep_other_fields(rs, t, d.lexicon(), f4, k);
        steps_keep_other_fields(rs, t, d.lexicon(), f5, k);
    }
    assert(f6.contains_key(names[0]) == f1.contains_key(names[0]));
    assert(f6.contains_key(names[1]) && f6[names[1]] == f1[names[1]]);
    assert(f6.contains_key(names[2]) && f6[names[2]] == f1[names[2]]);
    if translate {
        let g = translated(data, f6);
        let ga = translated_field(data, f6, "audio_languages"@);
        string_list_is_distinct(names_of(data, field_strings(field_of(f6, "audio_languages"@))));
        string_list_is_distinct(names_of(data, field_strings(field_of(ga, "subtitle_languages"@))));
        assert(g["audio_languages"@] == ga["audio_languages"@]);
    }
}

/// The pass leaves every field it is not about as it was.
pub proof fn other_fields_kept<'a>(
    d: &Details<'a>,
    f: Map<Seq<char>, FieldView>,
    translate: bool,
    k: Seq<char>,
)
    requires
        d.apply_of(f, translate) is Ok,
        !touched(k),
    ensures
        (d.apply_of(f, translate)->Ok_0).contains_key(k) == f.contains_key(k),
        f.contains_key(k) ==> (d.apply_of(f, translate)->Ok_0)[k] == f[k],
{
    let t = d.technical_of()->Ok_0;
    let f1 = d.languages_of(f, t)->Ok_0;
    let data = d.lexicon().data;
    languages_of_shape(d, f, t);
    let (f3, f6) = finished_steps(d, f1, t, translate);
    let rs = d.records();
    let f2 = without_annotation_group(d.lexicon(), f1);
    let f3a = merge_field(rs, t, f2, "audio"@);
    let f3b = merge_field(rs, t, f3a, "channels"@);
    let f3c = merge_field(rs, t, f3b, "hdr"@);
    let f4 = with_dolby_vision(f3);
    let f5 = without_hdtv(rs, t, f4);
    steps_keep_other_fields(rs, t, d.lexicon(), f1, k);
    steps_keep_other_fields(rs, t, d.lexicon(), f2, k);
    steps_keep_other_fields(rs, t, d.lexicon(), f3a, k);
    steps_keep_other_fields(rs, t, d.lexicon(), f3b, k);
    steps_keep_other_fields(rs, t, d.lexicon(), f3c, k);
    steps_keep_other_fields(rs, t, d.lexicon(), f3, k);
    steps_keep_other_fields(rs, t, d.lexicon(), f4, k);
    steps_keep_other_fields(rs, t, d.lexicon(), f5, k);
}

/// Untranslated, every language is in regional form: the regional form of
/// some code.  Translated, every language is the name of some code.
pub proof fn languages_are_regional_or_named<'a>(
    d: &Details<'a>,
    f: Map<Seq<char>, FieldView>,
    translate: bool,
    field: Seq<char>,
    v: Seq<char>,
)
    requires
        d.apply_of(f, translate) is Ok,
        field == "audio_languages"@ || field == "subtitle_languages"@,
        field_strings(field_of(d.apply_of(f, translate)->Ok_0, field)).contains(v),
    ensures
        translate ==> exists|c: Seq<char>| display_name(d.lexicon().data, c) == Some(v),
        !translate ==> exists|c: Seq<char>| regional(d.lexicon().data, c) == Some(v),
{
    let t = d.technical_of()->Ok_0;
    let f1 = d.languages_of(f, t)->Ok_0;
    let data = d.lexicon().data;
    languages_of_shape(d, f, t);
    let (a, s) = choose|a: Seq<Seq<char>>, s: Seq<Seq<char>>|
        f1 == f.remove("languages"@).insert("audio_languages"@, string_list(final_codes(data, a))).insert(
            "subtitle_languages"@,
            string_list(final_codes(data, s)),
        );
    field_names_differ();
    let (f3, f6) = finished_steps(d, f1, t, translate);
    let rs = d.records();
    let f2 = without_annotation_group(d.lexicon(), f1);
    let f3a = merge_field(rs, t, f2, "audio"@);
    let f3b = merge_field(rs, t, f3a, "channels"@);
    let f3c = merge_field(rs, t, f3b, "hdr"@);
    let f4 = with_dolby_vision(f3);
    let f5 = without_hdtv(rs, t, f4);
    steps_keep_other_fields(rs, t, d.lexicon(), f1, field);
    steps_keep_other_fields(rs, t, d.lexicon(), f2, field);
    steps_keep_other_fields(rs, t, d.lexicon(), f3a, field);
    steps_keep_other_fields(rs, t, d.lexicon(), f3b, field);
    steps_keep_other_fields(rs, t, d.lexicon(), f3c, field);
    steps_keep_other_fields(rs, t, d.lexicon(), f3, field);
    steps_keep_other_fields(rs, t, d.lexicon(), f4, field);
    steps_keep_other_fields(rs, t, d.lexicon(), f5, field);
    assert(f6.contains_key(field) && f6[field] == f1[field]);
    if translate {
        let ga = translated_field(data, f6, "audio_languages"@);
        let g = translated(data, f6);
        let src = if field == "audio_languages"@ { f6 } else { ga };
        let ns = names_of(data, field_strings(field_of(src, field)));
        assert(g[field] == string_list(ns));
        strings_read_back(ns);
        unique_keeps_every_value(ns);
        names_are_names(data, field_strings(field_of(src, field)));
    } else {
        let codes = if field == "audio_languages"@ { a } else { s };
        let fc = final_codes(data, codes);
        assert(f6[field] == string_list(fc));
        strings_read_back(fc);
        unique_keeps_every_value(fc);
        regional_forms_are_regional(data, without_bare(codes, codes));
    }
}

/// Where Dolby Vision profiles are found, `DV` is among the HDR formats.
pub proof fn dolby_vision_is_hdr<'a>(d: &Details<'a>, f: Map<Seq<char>, FieldView>, translate: bool)
    requires
        d.apply_of(f, translate) is Ok,
        field_strings(field_of(d.apply_of(f, translate)->Ok_0, "dolby_vision_profiles"@)).len() > 0,
    ensures
        field_strings(field_of(d.apply_of(f, translate)->Ok_0, "hdr"@)).contains("DV"@),
{
    let t = d.technical_of()->Ok_0;
    let f1 = d.languages_of(f, t)->Ok_0;
    let data = d.lexicon().data;
    field_names_differ();
    let (f3, f6) = finished_steps(d, f1, t, translate);
    let rs = d.records();
    let f4 = with_dolby_vision(f3);
    let f5 = without_hdtv(rs, t, f4);
    let g = d.apply_of(f, translate)->Ok_0;
    let names = seq!["hdr"@, "dolby_vision_profiles"@];
    assert forall|i: int| 0 <= i < 2 implies g.contains_key(#[trigger] names[i]) == f4.contains_key(names[i])
        && g[names[i]] == f4[names[i]] by {
        let k = names[i];
        steps_keep_other_fields(rs, t, d.lexicon(), f4, k);
        steps_keep_other_fields(rs, t, d.lexicon(), f5, k);
    }
    assert(field_of(g, "dolby_vision_profiles"@) == field_of(f4, "dolby_vision_profiles"@));
    assert(field_of(g, "hdr"@) == field_of(f4, "hdr"@));
    assert(field_of(f4, "dolby_vision_profiles"@) == field_of(f3, "dolby_vision_profiles"@));
    let hs = field_strings(field_of(f3, "hdr"@)).push("DV"@);
    assert(f4["hdr"@] == string_list(hs));
    strings_read_back(hs);
    unique_keeps_every_value(hs);
    assert(hs[hs.len() - 1] == "DV"@);
}

proof fn concat_contains(a: Seq<Seq<char>>, b: Seq<Seq<char>>, v: Seq<char>)
    ensures
        (a + b).contains(v) <==> a.contains(v) || b.contains(v),
{
    if (a + b).contains(v) {
        let i = choose|i: int| 0 <= i < (a + b).len() && (a + b)[i] == v;
        if i < a.len() {
            assert(a[i] == v);
        } else {
            assert(b[i - a.len()] == v);
        }
    }
    if a.contains(v) {
        let i = choose|i: int| 0 <= i < a.len() && a[i] == v;
        assert((a + b)[i] == v);
    }
    if b.contains(v) {
        let i = choose|i: int| 0 <= i < b.len() && b[i] == v;
        assert((a + b)[a.len() + i] == v);
    }
}

proof fn kept_values_source(rs: Seq<Record>, t: Seq<TechRecord>, field: Seq<char>, v: Seq<char>)
    requires
        kept_values(rs, t, field).contains(v),
    ensures
        exists|i: int|
            0 <= i < rs.len() && (#[trigger] rs[i]).field@ == field && !changed_at(
                t,
                field,
                (rs[i].start as int, rs[i].end as int),
            ) && value_is(rs[i], v),
    decreases rs.len(),
{
    let p = rs.drop_last();
    let r = kept_values(p, t, field);
    let x = rs.last();
    if r.contains(v) {
        kept_values_source(p, t, field, v);
        let i = choose|i: int|
            0 <= i < p.len() && (#[trigger] p[i]).field@ == field && !changed_at(
                t,
                field,
                (p[i].start as int, p[i].end as int),
            ) && value_is(p[i], v);
        assert(rs[i] == p[i]);
    } else {
        let k = kept_values(rs, t, field);
        let j = choose|j: int| 0 <= j < k.len() && k[j] == v;
        if j < r.len() {
            assert(r[j] == v);
        }
        assert(rs[rs.len() - 1] == x);
    }
}

proof fn unrecorded_source(values: Seq<Seq<char>>, rs: Seq<Record>, field: Seq<char>, v: Seq<char>)
    requires
        unrecorded_values(values, rs, field).contains(v),
    ensures
        !recorded_value(rs, field, v),
    decreases values.len(),
{
    let p = values.drop_last();
    let r = unrecorded_values(p, rs, field);
    if r.contains(v) {
        unrecorded_source(p, rs, field, v);
    } else {
        let k = unrecorded_values(values, rs, field);
        let j = choose|j: int| 0 <= j < k.len() && k[j] == v;
        if j < r.len() {
            assert(r[j] == v);
        }
    }
}

proof fn change_values_source(t: Seq<TechRecord>, field: Seq<char>, v: Seq<char>)
    requires
        exists|i: int| 0 <= i < t.len() && (#[trigger] t[i]).0 == field && t[i].3 == Some(v),
    ensures
        change_values(t, field).contains(v),
    decreases t.len(),
{
    let p = t.drop_last();
    let i = choose|i: int| 0 <= i < t.len() && (#[trigger] t[i]).0 == field && t[i].3 == Some(v);
    let r = change_values(p, field);
    if i < p.len() {
        assert(p[i] == t[i]);
        change_values_source(p, field, v);
        let j = choose|j: int| 0 <= j < r.len() && r[j] == v;
        if t.last().0 == field && t.last().3 is Some {
            assert(r.push(t.last().3->0)[j] == v);
        }
    } else {
        assert(t.last() == t[i]);
        assert(r.push(v)[r.len() as int] == v);
    }
}

/// Where the technical pass labels `field`, every technical value for it is
/// among the field's values: distinct labels each stay.
pub proof fn technical_values_stay(
    rs: Seq<Record>,
    t: Seq<TechRecord>,
    fields: Map<Seq<char>, FieldView>,
    field: Seq<char>,
    v: Seq<char>,
)
    requires
        exists|i: int| 0 <= i < t.len() && (#[trigger] t[i]).0 == field && t[i].3 == Some(v),
    ensures
        field_strings(field_of(merge_field(rs, t, fields, field), field)).contains(v),
{
    let l = kept_values(rs, t, field) + unrecorded_values(
        field_strings(field_of(fields, field)),
        rs,
        field,
    ) + change_values(t, field);
    change_values_source(t, field, v);
    concat_contains(
        kept_values(rs, t, field) + unrecorded_values(field_strings(field_of(fields, field)), rs, field),
        change_values(t, field),
        v,
    );
    strings_read_back(l);
    unique_keeps_every_value(l);
}

/// A refined label replaces the generic detection it overlaps: a value whose
/// every record for `field` lies under a technical record for it, and that no
/// technical record gives, is no longer among the field's values.
pub proof fn refined_label_replaces(
    rs: Seq<Record>,
    t: Seq<TechRecord>,
    fields: Map<Seq<char>, FieldView>,
    field: Seq<char>,
    v: Seq<char>,
)
    requires
        has_field_change(t, field),
        recorded_value(rs, field, v),
        forall|i: int|
            0 <= i < rs.len() && (#[trigger] rs[i]).field@ == field && value_is(rs[i], v) ==> changed_at(
                t,
                field,
                (rs[i].start as int, rs[i].end as int),
            ),
        !change_values(t, field).contains(v),
    ensures
        !field_strings(field_of(merge_field(rs, t, fields, field), field)).contains(v),
{
    let k = kept_values(rs, t, field);
    let u = unrecorded_values(field_strings(field_of(fields, field)), rs, field);
    let c = change_values(t, field);
    let l = k + u + c;
    concat_contains(k + u, c, v);
    concat_contains(k, u, v);
    if k.contains(v) {
        kept_values_source(rs, t, field, v);
    }
    if u.contains(v) {
        unrecorded_source(field_strings(field_of(fields, field)), rs, field, v);
    }
    strings_read_back(l);
    unique_keeps_every_value(l);
}

/// On well-keyed language data every table lookup reads its table as a map:
/// a key present gives the value of its one entry.
pub proof fn language_tables_are_maps(data: LanguageData, key: Seq<char>)
    requires
        well_keyed(data),
    ensures
        forall|i: int| 0 <= i < data.languages@.len() && (#[trigger] data.languages@[i]).0@ == key ==> lookup(data.languages@, key) == Some(data.languages@[i].1@),
        forall|i: int| 0 <= i < data.territories@.len() && (#[trigger] data.territories@[i]).0@ == key ==> lookup(data.territories@, key) == Some(data.territories@[i].1@),
        forall|i: int| 0 <= i < data.defaults@.len() && (#[trigger] data.defaults@[i]).0@ == key ==> lookup(data.defaults@, key) == Some(data.defaults@[i].1@),
        forall|i: int| 0 <= i < data.names@.len() && (#[trigger] data.names@[i]).0@ == key ==> lookup(data.names@, key) == Some(data.names@[i].1@),
        forall|i: int| 0 <= i < data.territory_names@.len() && (#[trigger] data.territory_names@[i]).0@ == key ==> lookup(data.territory_names@, key) == Some(data.territory_names@[i].1@),
        forall|i: int| 0 <= i < data.script_names@.len() && (#[trigger] data.script_names@[i]).0@ == key ==> lookup(data.script_names@, key) == Some(data.script_names@[i].1@),
{
    lookup_reads_a_map(data.languages@, key);
    lookup_reads_a_map(data.territories@, key);
    lookup_reads_a_map(data.defaults@, key);
    lookup_reads_a_map(data.names@, key);
    lookup_reads_a_map(data.territory_names@, key);
    lookup_reads_a_map(data.script_names@, key);
}

/// A code without a dash is a single subtag.
pub(crate) proof fn split_without_dash(a: Seq<char>)
    requires
        !a.contains('-'),
    ensures
        split_dash(a) == seq![a],
    decreases a.len(),
{
    if a.len() > 0 {
        let p = a.drop_last();
        assert(!p.contains('-')) by {
            if p.contains('-') {
                let i = choose|i: int| 0 <= i < p.len() && p[i] == '-';
                assert(a[i] == '-');
            }
        }
        split_without_dash(p);
        assert(a[a.len() - 1] == a.last());
        assert(a.last() != '-');
        assert(p.push(a.last()) =~= a);
        assert(split_dash(a) =~= seq![a]);
    } else {
        assert(a =~= Seq::<char>::empty());
    }
}

/// Appending dash-free characters extends the last subtag.
proof fn split_extends_last(x: Seq<char>, b: Seq<char>)
    requires
        !b.contains('-'),
    ensures
        split_dash(x + b).len() == split_dash(x).len(),
        split_dash(x + b).drop_last() == split_dash(x).drop_last(),
        split_dash(x + b).last() == split_dash(x).last() + b,
    decreases b.len(),
{
    split_dash_nonempty(x);
    if b.len() == 0 {
        assert(x + b =~= x);
        assert(split_dash(x).last() + b =~= split_dash(x).last());
    } else {
        let p = b.drop_last();
        assert(!p.contains('-')) by {
            if p.contains('-') {
                let i = choose|i: int| 0 <= i < p.len() && p[i] == '-';
                assert(b[i] == '-');
            }
        }
        split_extends_last(x, p);
        assert((x + b).drop_last() =~= x + p);
        assert((x + b).last() == b[b.len() - 1]);
        assert(split_dash(x).last() + p + seq![b.last()] =~= split_dash(x).last() + b);
        let r = split_dash(x + p);
        assert(r.update(r.len() - 1, r.last().push(b.last())).drop_last() =~= r.drop_last());
    }
}

/// A language subtag and a territory subtag joined by a dash split back into
/// the two.
pub(crate) proof fn split_tag(lang: Seq<char>, terr: Seq<char>)
    requires
        !lang.contains('-'),
        !terr.contains('-'),
    ensures
        split_dash(lang + "-"@ + terr) == seq![lang, terr],
{
    reveal_strlit("-");
    split_without_dash(lang);
    let x = lang + "-"@;
    assert(x.drop_last() =~= lang);
    assert(x.last() == '-');
    assert(split_dash(x) =~= seq![lang, Seq::<char>::empty()]);
    split_extends_last(x, terr);
    assert(Seq::<char>::empty() + terr =~= terr);
    let r = split_dash(x + terr);
    assert(r.len() == 2);
    assert(r[0] == r.drop_last()[0]);
    assert(r[1] == r.last());
    assert(r =~= seq![lang, terr]);
}

/// Explicit regional tags are retained: a language tag and a territory tag
/// that the language data knows in this very form give back the same code.
pub proof fn explicit_region_retained(data: LanguageData, lang: Seq<char>, terr: Seq<char>)
    requires
        !lang.contains('-'),
        !terr.contains('-'),
        !is_script_tag(terr),
        lookup(data.languages@, lower_case(lang)) == Some(lang),
        lookup(data.territories@, upper_case(terr)) == Some(terr),
    ensures
        regional(data, lang + "-"@ + terr) == Some(lang + "-"@ + terr),
{
    reveal_strlit("-");
    reveal_strlit("multi");
    reveal_strlit("la");
    let code = lang + "-"@ + terr;
    assert(code[lang.len() as int] == '-');
    assert(code != "multi"@) by {
        if code == "multi"@ {
            assert("multi"@[lang.len() as int] == '-');
        }
    }
    assert(code != "la"@) by {
        if code == "la"@ {
            assert("la"@[lang.len() as int] == '-');
        }
    }
    split_tag(lang, terr);
    let parts = split_dash(code);
    assert(parts.drop_first() =~= seq![terr]);
    assert(seq![terr].drop_last() =~= Seq::<Seq<char>>::empty());
    assert(qualifiers(data, Seq::<Seq<char>>::empty()) == Some((None::<Seq<char>>, None::<Seq<char>>)));
    assert(seq![terr].last() == terr);
    assert(qualifiers(data, seq![terr]) == Some((None::<Seq<char>>, Some(terr))));
}

/// Otherwise the default territory supplies the region: a bare language tag
/// that the data knows gets the default territory of its language.
pub proof fn default_region_supplied(data: LanguageData, lang: Seq<char>, base: Seq<char>, territory: Seq<char>)
    requires
        !lang.contains('-'),
        lang != "multi"@,
        lang != "la"@,
        lookup(data.languages@, lower_case(lang)) == Some(base),
        lookup(data.defaults@, base) == Some(territory),
    ensures
        regional(data, lang) == Some(base + "-"@ + territory),
{
    split_without_dash(lang);
    assert(split_dash(lang).drop_first() =~= Seq::<Seq<char>>::empty());
}

/// Appending a dash and a dash-free subtag adds one subtag.
proof fn split_push_part(x: Seq<char>, t: Seq<char>)
    requires
        !t.contains('-'),
    ensures
        split_dash(x + "-"@ + t) == split_dash(x).push(t),
{
    reveal_strlit("-");
    let y = x + "-"@;
    assert(y.drop_last() =~= x);
    assert(y.last() == '-');
    assert(split_dash(y) == split_dash(x).push(Seq::<char>::empty()));
    split_extends_last(y, t);
    assert(Seq::<char>::empty() + t =~= t);
    let r = split_dash(y + t);
    assert(r =~= split_dash(x).push(t)) by {
        assert forall|i: int| 0 <= i < r.len() implies r[i] == split_dash(x).push(t)[i] by {
            if i < r.len() - 1 {
                assert(r[i] == r.drop_last()[i]);
            }
        }
    }
}

/// A value that a table gives is the value of one of its entries.
proof fn lookup_gives_a_value(entries: Seq<(String, String)>, key: Seq<char>)
    requires
        lookup(entries, key) is Some,
    ensures
        exists|i: int| 0 <= i < entries.len() && (#[trigger] entries[i]).1@ == lookup(entries, key)->0,
    decreases entries.len(),
{
    if entries[0].0@ != key {
        lookup_gives_a_value(entries.drop_first(), key);
        let i = choose|i: int|
            0 <= i < entries.drop_first().len() && (#[trigger] entries.drop_first()[i]).1@ == lookup(
                entries,
                key,
            )->0;
        assert(entries[i + 1] == entries.drop_first()[i]);
    }
}

/// A territory in canonical form: one subtag, no script, and the territory
/// table gives it back for its upper-case form.
pub open spec fn canonical_territory(data: LanguageData, t: Seq<char>) -> bool {
    &&& !t.contains('-')
    &&& !is_script_tag(t)
    &&& lookup(data.territories@, upper_case(t)) == Some(t)
}

/// Language data whose outputs are in canonical form: every language value
/// is one subtag that the language table gives back for its lower-case form,
/// every territory and default territory value is a canonical territory, and
/// so are the parts of `es-419`.
pub open spec fn canonical_data(data: LanguageData) -> bool {
    &&& forall|i: int|
        0 <= i < data.languages@.len() ==> !(#[trigger] data.languages@[i]).1@.contains('-') && lookup(
            data.languages@,
            lower_case(data.languages@[i].1@),
        ) == Some(data.languages@[i].1@)
    &&& forall|i: int|
        0 <= i < data.territories@.len() ==> canonical_territory(data, (#[trigger] data.territories@[i]).1@)
    &&& forall|i: int|
        0 <= i < data.defaults@.len() ==> canonical_territory(data, (#[trigger] data.defaults@[i]).1@)
    &&& lookup(data.languages@, lower_case("es"@)) == Some("es"@)
    &&& canonical_territory(data, "419"@)
}

/// A script subtag in title case keeps its form and holds no dash.
proof fn script_form_settles(part: Seq<char>)
    requires
        is_script_tag(part),
    ensures
        is_script_tag(script_form(part)),
        script_form(script_form(part)) == script_form(part),
        !script_form(part).contains('-'),
{
    let n = script_form(part);
    assert(n.len() == 4);
    assert forall|i: int| 0 <= i < 4 implies is_ascii_alpha(#[trigger] n[i]) by {
        assert(is_ascii_alpha(part[i]));
        if i > 0 {
            assert(n[i] == ascii_lower(part[i]));
        }
    }
    assert(script_form(n) =~= n) by {
        assert forall|i: int| 0 <= i < 4 implies #[trigger] script_form(n)[i] == n[i] by {
            assert(is_ascii_alpha(part[i]));
            if i > 0 {
                assert(n[i] == ascii_lower(part[i]));
            }
        }
    }
    assert(!n.contains('-')) by {
        if n.contains('-') {
            let i = choose|i: int| 0 <= i < n.len() && n[i] == '-';
            assert(is_ascii_alpha(n[i]));
        }
    }
}

/// What the subtags after the language give: a known script in title case
/// and a territory that the territory table holds.
proof fn qualifiers_give_known_parts(data: LanguageData, parts: Seq<Seq<char>>)
    requires
        qualifiers(data, parts) is Some,
    ensures
        (qualifiers(data, parts)->0).0 matches Some(n) ==> is_script_tag(n) && script_form(n) == n
            && !n.contains('-') && view_strings(data.scripts@).contains(n),
        (qualifiers(data, parts)->0).1 matches Some(t) ==> exists|i: int|
            0 <= i < data.territories@.len() && (#[trigger] data.territories@[i]).1@ == t,
    decreases parts.len(),
{
    if parts.len() > 0 {
        let p = parts.drop_last();
        let part = parts.last();
        assert(qualifiers(data, p) is Some);
        qualifiers_give_known_parts(data, p);
        let (script, territory) = qualifiers(data, p)->0;
        if is_script_tag(part) && script is None {
            script_form_settles(part);
        } else if territory is None {
            lookup_gives_a_value(data.territories@, upper_case(part));
        }
    }
}

/// A code built from a canonical language, an optional canonical script and
/// a canonical territory is its own regional form.
proof fn canonical_tag_is_regional(
    data: LanguageData,
    base: Seq<char>,
    script: Option<Seq<char>>,
    t: Seq<char>,
)
    requires
        !base.contains('-'),
        lookup(data.languages@, lower_case(base)) == Some(base),
        script matches Some(n) ==> is_script_tag(n) && script_form(n) == n && !n.contains('-')
            && view_strings(data.scripts@).contains(n),
        canonical_territory(data, t),
    ensures
        ({
            let prefix = match script {
                Some(n) => base + "-"@ + n,
                None => base,
            };
            regional(data, prefix + "-"@ + t) == Some(prefix + "-"@ + t)
        }),
{
    reveal_strlit("-");
    reveal_strlit("multi");
    reveal_strlit("la");
    let prefix = match script {
        Some(n) => base + "-"@ + n,
        None => base,
    };
    let code = prefix + "-"@ + t;
    assert(code[prefix.len() as int] == '-');
    assert(!"multi"@.contains('-')) by {
        if "multi"@.contains('-') {
            let i = choose|i: int| 0 <= i < "multi"@.len() && "multi"@[i] == '-';
            assert(0 <= i < 5);
        }
    }
    assert(!"la"@.contains('-')) by {
        if "la"@.contains('-') {
            let i = choose|i: int| 0 <= i < "la"@.len() && "la"@[i] == '-';
            assert(0 <= i < 2);
        }
    }
    assert(code.contains('-'));
    split_without_dash(base);
    split_push_part(prefix, t);
    let empty = Seq::<Seq<char>>::empty();
    assert(qualifiers(data, empty) == Some((None::<Seq<char>>, None::<Seq<char>>)));
    match script {
        Some(n) => {
            split_push_part(base, n);
            let parts = seq![base, n, t];
            assert(split_dash(code) =~= parts);
            assert(parts.drop_first() =~= seq![n, t]);
            assert(seq![n, t].drop_last() =~= seq![n]);
            assert(seq![n].drop_last() =~= empty);
            assert(qualifiers(data, seq![n]) == Some((Some(n), None::<Seq<char>>)));
            assert(qualifiers(data, seq![n, t]) == Some((Some(n), Some(t))));
        },
        None => {
            let parts = seq![base, t];
            assert(split_dash(code) =~= parts);
            assert(parts.drop_first() =~= seq![t]);
            assert(seq![t].drop_last() =~= empty);
            assert(qualifiers(data, seq![t]) == Some((None::<Seq<char>>, Some(t))));
        },
    }
}

/// On canonical language data, a regional form is its own regional form:
/// normalising an already regional code changes nothing.
pub proof fn regional_is_settled(data: LanguageData, code: Seq<char>)
    requires
        canonical_data(data),
        regional(data, code) is Some,
    ensures
        regional(data, regional(data, code)->0) == regional(data, code),
{
    let r = regional(data, code)->0;
    if code == "multi"@ {
    } else if code == "la"@ {
        reveal_strlit("es-419");
        reveal_strlit("es");
        reveal_strlit("-");
        reveal_strlit("419");
        assert("es-419"@ =~= "es"@ + "-"@ + "419"@);
        assert(!"es"@.contains('-')) by {
            if "es"@.contains('-') {
                let i = choose|i: int| 0 <= i < "es"@.len() && "es"@[i] == '-';
                assert(0 <= i < 2);
            }
        }
        canonical_tag_is_regional(data, "es"@, None, "419"@);
    } else {
        let parts = split_dash(code);
        let base = lookup(data.languages@, lower_case(parts[0]))->0;
        lookup_gives_a_value(data.languages@, lower_case(parts[0]));
        let q = qualifiers(data, parts.drop_first())->0;
        qualifiers_give_known_parts(data, parts.drop_first());
        let prefix = match q.0 {
            Some(n) => base + "-"@ + n,
            None => base,
        };
        let t = match q.1 {
            Some(t) => t,
            None => match lookup(data.defaults@, prefix) {
                Some(d) => d,
                None => lookup(data.defaults@, base)->0,
            },
        };
        match q.1 {
            Some(x) => {},
            None => match lookup(data.defaults@, prefix) {
                Some(d) => lookup_gives_a_value(data.defaults@, prefix),
                None => lookup_gives_a_value(data.defaults@, base),
            },
        }
        assert(r == prefix + "-"@ + t);
        canonical_tag_is_regional(data, base, q.0, t);
    }
}

/// The case mappings of `p` are known to be its ASCII case mappings (what a
/// call of `to_lower` and of `to_upper` on ASCII `p` establishes).
pub open spec fn case_known(p: Seq<char>) -> bool {
    &&& lower_case(p) == p.map_values(|c: char| ascii_lower(c))
    &&& upper_case(p) == p.map_values(|c: char| ascii_upper(c))
}

/// The case mappings of `p` and of its upper- and lower-case forms are known.
pub open spec fn cases_known(p: Seq<char>) -> bool {
    case_known(p) && case_known(recase(p, false)) && case_known(recase(p, true))
}

/// ASCII upper or lower case of one character.
pub open spec fn recase_char(c: char, up: bool) -> char {
    if up {
        ascii_upper(c)
    } else {
        ascii_lower(c)
    }
}

/// `s` in ASCII upper or lower case.
pub open spec fn recase(s: Seq<char>, up: bool) -> Seq<char> {
    s.map_values(|c: char| recase_char(c, up))
}

proof fn recase_char_facts(c: char, up: bool)
    requires
        (c as u32) < 128,
    ensures
        (recase_char(c, up) as u32) < 128,
        ascii_lower(recase_char(c, up)) == ascii_lower(c),
        ascii_upper(recase_char(c, up)) == ascii_upper(c),
        is_ascii_alpha(recase_char(c, up)) == is_ascii_alpha(c),
        (recase_char(c, up) == '-') == (c == '-'),
{
}

/// Recasing ASCII text recases each of its subtags, and each subtag of
/// ASCII text is ASCII.
proof fn split_recased(s: Seq<char>, up: bool)
    requires
        all_ascii(s),
    ensures
        split_dash(recase(s, up)) == split_dash(s).map_values(|p: Seq<char>| recase(p, up)),
        forall|i: int| 0 <= i < split_dash(s).len() ==> all_ascii(#[trigger] split_dash(s)[i]),
    decreases s.len(),
{
    let g = recase(s, up);
    if s.len() == 0 {
        assert(g =~= Seq::<char>::empty());
        assert(split_dash(s).map_values(|p: Seq<char>| recase(p, up)) =~= seq![recase(Seq::<char>::empty(), up)]);
        assert(recase(Seq::<char>::empty(), up) =~= Seq::<char>::empty());
        assert forall|i: int| 0 <= i < split_dash(s).len() implies all_ascii(#[trigger] split_dash(s)[i]) by {}
    } else {
        let q = s.drop_last();
        assert(all_ascii(q)) by {
            assert forall|i: int| 0 <= i < q.len() implies (#[trigger] q[i] as u32) < 128 by {
                assert(q[i] == s[i]);
            }
        }
        split_recased(q, up);
        let c = s.last();
        assert((s[s.len() - 1] as u32) < 128);
        recase_char_facts(c, up);
        assert(g.drop_last() =~= recase(q, up));
        assert(g.last() == recase_char(c, up));
        let rest = split_dash(q);
        split_dash_nonempty(q);
        let m = |p: Seq<char>| recase(p, up);
        if c == '-' {
            assert(split_dash(s) == rest.push(Seq::<char>::empty()));
            assert(split_dash(g) == rest.map_values(m).push(Seq::<char>::empty()));
            assert(recase(Seq::<char>::empty(), up) =~= Seq::<char>::empty());
            assert(split_dash(g) =~= split_dash(s).map_values(m));
            assert forall|i: int| 0 <= i < split_dash(s).len() implies all_ascii(#[trigger] split_dash(s)[i]) by {
                if i < rest.len() {
                    assert(split_dash(s)[i] == rest[i]);
                }
            }
        } else {
            let last = rest.last().push(c);
            assert(split_dash(s) == rest.update(rest.len() - 1, last));
            let rg = rest.map_values(m);
            assert(rg.last() == recase(rest.last(), up));
            assert(split_dash(g) == rg.update(rg.len() - 1, rg.last().push(recase_char(c, up))));
            assert(recase(last, up) =~= recase(rest.last(), up).push(recase_char(c, up)));
            assert(split_dash(g) =~= split_dash(s).map_values(m));
            assert(all_ascii(rest.last()));
            assert forall|i: int| 0 <= i < split_dash(s).len() implies all_ascii(#[trigger] split_dash(s)[i]) by {
                if i < rest.len() - 1 {
                    assert(split_dash(s)[i] == rest[i]);
                } else {
                    assert(split_dash(s)[i] == last);
                    assert forall|k: int| 0 <= k < last.len() implies (#[trigger] last[k] as u32) < 128 by {
                        if k < rest.last().len() {
                            assert(last[k] == rest.last()[k]);
                        }
                    }
                }
            }
        }
    }
}

/// On ASCII subtags, the case mappings, the script test and the script form
/// do not see the case.
proof fn subtag_case_blind(p: Seq<char>, up: bool)
    requires
        cases_known(p),
        all_ascii(p),
    ensures
        all_ascii(recase(p, up)),
        lower_case(recase(p, up)) == lower_case(p),
        upper_case(recase(p, up)) == upper_case(p),
        is_script_tag(recase(p, up)) == is_script_tag(p),
        is_script_tag(p) ==> script_form(recase(p, up)) == script_form(p),
{
    let g = recase(p, up);
    assert forall|i: int| 0 <= i < p.len() implies {
        &&& (#[trigger] g[i] as u32) < 128
        &&& ascii_lower(g[i]) == ascii_lower(p[i])
        &&& ascii_upper(g[i]) == ascii_upper(p[i])
        &&& is_ascii_alpha(g[i]) == is_ascii_alpha(p[i])
    } by {
        recase_char_facts(p[i], up);
    }
    assert(all_ascii(g));
    assert(lower_case(g) =~= lower_case(p));
    assert(upper_case(g) =~= upper_case(p));
    if is_script_tag(p) {
        assert(is_script_tag(g));
        assert(script_form(g) =~= script_form(p)) by {
            assert(g.drop_first() =~= recase(p.drop_first(), up));
            assert forall|i: int| 0 <= i < 4 implies #[trigger] script_form(g)[i] == script_form(p)[i] by {
                if i > 0 {
                    assert(g.drop_first()[i - 1] == g[i]);
                    assert(p.drop_first()[i - 1] == p[i]);
                }
            }
        }
    }
    if is_script_tag(g) {
        assert forall|i: int| 0 <= i < 4 implies is_ascii_alpha(#[trigger] p[i]) by {
            assert(is_ascii_alpha(g[i]));
        }
    }
}

/// The qualifiers of ASCII subtags do not see their case.
proof fn qualifiers_case_blind(data: LanguageData, parts: Seq<Seq<char>>, up: bool)
    requires
        forall|i: int| 0 <= i < parts.len() ==> all_ascii(#[trigger] parts[i]) && cases_known(parts[i]),
    ensures
        qualifiers(data, parts.map_values(|p: Seq<char>| recase(p, up))) == qualifiers(data, parts),
    decreases parts.len(),
{
    if parts.len() > 0 {
        let m = |p: Seq<char>| recase(p, up);
        let q = parts.drop_last();
        qualifiers_case_blind(data, q, up);
        assert(parts.map_values(m).drop_last() =~= q.map_values(m));
        assert(parts.map_values(m).last() == recase(parts.last(), up));
        assert(all_ascii(parts[parts.len() - 1]) && cases_known(parts[parts.len() - 1]));
        subtag_case_blind(parts.last(), up);
    }
}

/// An ASCII code whose subtags' case mappings are known gives the same
/// regional form as its lower-case and its upper-case forms.
proof fn regional_case_blind(data: LanguageData, code: Seq<char>)
    requires
        all_ascii(code),
        recase(code, false) != "multi"@,
        recase(code, false) != "la"@,
        forall|i: int| 0 <= i < split_dash(code).len() ==> cases_known(#[trigger] split_dash(code)[i]),
    ensures
        regional(data, code) == regional(data, recase(code, false)),
        regional(data, code) == regional(data, recase(code, true)),
{
    reveal_strlit("multi");
    reveal_strlit("la");
    assert(recase("multi"@, false) =~= "multi"@);
    assert(recase("la"@, false) =~= "la"@);
    let up = true;
    assert forall|b: bool| #[trigger] recase(code, b) != "multi"@ && recase(code, b) != "la"@ && code != "multi"@
        && code != "la"@ by {
        assert(recase(recase(code, b), false) =~= recase(code, false)) by {
            assert forall|i: int| 0 <= i < code.len() implies #[trigger] recase(recase(code, b), false)[i]
                == recase(code, false)[i] by {
                recase_char_facts(code[i], b);
            }
        }
    }
    assert(recase(code, false) != "multi"@ && recase(code, true) != "multi"@);
    split_recased(code, false);
    split_recased(code, true);
    let parts = split_dash(code);
    split_dash_nonempty(code);
    assert forall|b: bool| #[trigger] regional(data, recase(code, b)) == regional(data, code) by {
        let m = |p: Seq<char>| recase(p, b);
        let pg = parts.map_values(m);
        assert(split_dash(recase(code, b)) == pg);
        assert(all_ascii(parts[0]) && cases_known(parts[0]));
        subtag_case_blind(parts[0], b);
        assert(pg[0] == recase(parts[0], b));
        assert(pg.drop_first() =~= parts.drop_first().map_values(m));
        assert forall|i: int| 0 <= i < parts.drop_first().len() implies all_ascii(
            #[trigger] parts.drop_first()[i],
        ) && cases_known(parts.drop_first()[i]) by {
            assert(parts.drop_first()[i] == parts[i + 1]);
        }
        qualifiers_case_blind(data, parts.drop_first(), b);
    }
    assert(regional(data, recase(code, false)) == regional(data, code));
    assert(regional(data, recase(code, true)) == regional(data, code));
}

/// `s` in ASCII upper or lower case.
fn recase_string(s: &str, up: bool) -> (r: String)
    ensures
        r@ == recase(s@, up),
{
    let cs = chars_of(s);
    let mut out: Vec<char> = Vec::new();
    let mut i: usize = 0;
    while i < cs.len()
        invariant
            i <= cs@.len(),
            cs@ == s@,
            out@ == recase(cs@.subrange(0, i as int), up),
        decreases cs@.len() - i,
    {
        let c = if up {
            ascii_upper_char(cs[i])
        } else {
            ascii_lower_char(cs[i])
        };
        out.push(c);
        assert(out@ =~= recase(cs@.subrange(0, i + 1), up));
        i = i + 1;
    }
    assert(cs@.subrange(0, i as int) =~= cs@);
    string_of(out.as_slice())
}

/// Learns the case mappings of `p` by calling them.
fn learn_case(p: &str)
    ensures
        all_ascii(p@) ==> case_known(p@),
{
    let _lower = to_lower(p);
    let _upper = to_upper(p);
}

/// Subtags match without regard to case: an ASCII code gives the same
/// regional form as its lower-case and its upper-case forms, unless its
/// lower-case form is the `multi` marker or `la`, which are recognised only
/// as written.  The case mappings that this rests on are those of the
/// code's subtags, which this function learns by calling them.
pub fn regional_language_ignores_case(code: &str, data: &LanguageData)
    ensures
        all_ascii(code@) && recase(code@, false) != "multi"@ && recase(code@, false) != "la"@ ==> {
            &&& regional(*data, code@) == regional(*data, recase(code@, false))
            &&& regional(*data, code@) == regional(*data, recase(code@, true))
        },
{
    let parts = split_on_dash(code);
    let ghost ps = view_strings(parts@);
    let mut i: usize = 0;
    while i < parts.len()
        invariant
            i <= parts@.len(),
            ps == view_strings(parts@),
            forall|j: int| 0 <= j < i ==> all_ascii(#[trigger] ps[j]) ==> cases_known(ps[j]),
        decreases parts@.len() - i,
    {
        let p = parts[i].as_str();
        let lower = recase_string(p, false);
        let upper = recase_string(p, true);
        learn_case(p);
        learn_case(lower.as_str());
        learn_case(upper.as_str());
        proof {
            if all_ascii(p@) {
                assert forall|b: bool| all_ascii(#[trigger] recase(p@, b)) by {
                    assert forall|k: int| 0 <= k < p@.len() implies (#[trigger] recase(p@, b)[k] as u32) < 128 by {
                        recase_char_facts(p@[k], b);
                    }
                }
                assert(all_ascii(recase(p@, false)) && all_ascii(recase(p@, true)));
            }
            assert(ps[i as int] == p@);
        }
        i = i + 1;
    }
    proof {
        if all_ascii(code@) && recase(code@, false) != "multi"@ && recase(code@, false) != "la"@ {
            split_recased(code@, false);
            assert forall|j: int| 0 <= j < split_dash(code@).len() implies cases_known(
                #[trigger] split_dash(code@)[j],
            ) by {
                assert(all_ascii(split_dash(code@)[j]));
                assert(ps[j] == split_dash(code@)[j]);
            }
            regional_case_blind(*data, code@);
        }
    }
}

} // verus!
