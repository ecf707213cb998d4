use ptt_core::apply::{
    add_dolby_vision, drop_annotation_group, drop_audio_hdtv, mark_editions, merge_technical,
    subtitle_annotation_group, translate_languages,
};
use ptt_core::details::{role_pattern, Details};
use ptt_core::fields::{strings, FieldValue, Fields, Item, Record};
use ptt_core::language::{LanguageData, Lexicon};

fn pairs(v: &[(&str, &str)]) -> Vec<(String, String)> {
    v.iter().map(|(a, b)| (a.to_string(), b.to_string())).collect()
}

fn data() -> LanguageData {
    LanguageData {
        defaults: pairs(&[
            ("fr", "FR"),
            ("en", "US"),
            ("ja", "JP"),
            ("es", "ES"),
            ("de", "DE"),
            ("pt", "BR"),
            ("zh", "CN"),
            ("zh-Hant", "TW"),
        ]),
        languages: pairs(&[
            ("fr", "fr"),
            ("en", "en"),
            ("ja", "ja"),
            ("es", "es"),
            ("de", "de"),
            ("pt", "pt"),
            ("zh", "zh"),
        ]),
        territories: pairs(&[
            ("CA", "CA"),
            ("FR", "FR"),
            ("BE", "BE"),
            ("US", "US"),
            ("419", "419"),
            ("BR", "BR"),
            ("JP", "JP"),
            ("TW", "TW"),
            ("CN", "CN"),
        ]),
        scripts: vec!["Hans".to_string(), "Hant".to_string(), "Latn".to_string()],
        names: pairs(&[
            ("fr", "French"),
            ("en", "English"),
            ("ja", "Japanese"),
            ("es", "Spanish"),
            ("de", "German"),
            ("pt", "Portuguese"),
            ("zh", "Chinese"),
        ]),
        territory_names: pairs(&[
            ("CA", "Canada"),
            ("FR", "France"),
            ("US", "United States"),
            ("419", "Latin America"),
            ("BR", "Brazil"),
            ("TW", "Taiwan"),
        ]),
        script_names: pairs(&[("Hans", "Simplified"), ("Hant", "Traditional")]),
    }
}

fn lexicon() -> Lexicon {
    Lexicon::new(
        data(),
        &pairs(&[
            ("en", "english"),
            ("fr", "french"),
            ("ja", "japanese"),
            ("de", "german"),
            ("es", "spanish"),
        ]),
    )
}

fn rec(field: &str, start: usize, end: usize, value: &str) -> Record {
    Record { field: field.to_string(), start, end, value: Some(value.to_string()) }
}

fn texts(v: &[&str]) -> Vec<String> {
    v.iter().map(|s| s.to_string()).collect()
}

fn text_list(v: &[&str]) -> FieldValue {
    FieldValue::List(v.iter().map(|s| Item::Text(s.to_string())).collect())
}

fn list(result: &Fields, key: &str) -> Vec<String> {
    strings(result.get(key))
}

fn text(result: &Fields, key: &str) -> Option<String> {
    result.get(key).and_then(|v| v.as_text().cloned())
}

/// Runs the whole pass over `title`, whose title proper ends at `title_end`
/// and whose year record covers `year`.
fn run(title: &str, title_end: usize, extra: Vec<Record>, result: &mut Fields, translate: bool) {
    let year = title.find("2020").expect("a year in the title");
    let mut records = vec![rec("year", year, year + 4, "2020")];
    records.extend(extra);
    let lexicon = lexicon();
    let details = Details::new(title, &records, title_end, &lexicon);
    details.apply(result, translate).expect("the searches succeed");
}

#[test]
fn vfq_is_canadian_french_audio() {
    let mut result = Fields::new();
    run("Movie.2020.VFQ.1080p", 5, Vec::new(), &mut result, false);
    assert_eq!(list(&result, "audio_languages"), texts(&["fr-CA"]));
    assert_eq!(list(&result, "subtitle_languages"), Vec::<String>::new());
    assert!(result.get("languages").is_none());
}

#[test]
fn vff_is_french_french_audio() {
    let mut result = Fields::new();
    run("Movie.2020.VFF.1080p", 5, Vec::new(), &mut result, false);
    assert_eq!(list(&result, "audio_languages"), texts(&["fr-FR"]));
}

#[test]
fn japanese_audio_with_french_subtitles() {
    let title = "Movie.2020.JAPANESE.VOSTFR.1080p";
    let mut result = Fields::new();
    result.insert("languages", text_list(&["ja"]));
    run(title, 5, vec![rec("languages", 11, 19, "ja")], &mut result, false);
    assert_eq!(list(&result, "audio_languages"), texts(&["ja-JP"]));
    assert_eq!(list(&result, "subtitle_languages"), texts(&["fr-FR"]));
    assert!(result.get("languages").is_none());
}

#[test]
fn multi_marker_is_audio() {
    let mut result = Fields::new();
    run("Movie.2020.MULTi.1080p", 5, Vec::new(), &mut result, false);
    assert_eq!(list(&result, "audio_languages"), texts(&["multi"]));
    assert_eq!(list(&result, "subtitle_languages"), Vec::<String>::new());
}

#[test]
fn multi_subs_marker_is_subtitles() {
    let mut result = Fields::new();
    run("Movie.2020.Multi-Subs.1080p", 5, Vec::new(), &mut result, false);
    assert_eq!(list(&result, "subtitle_languages"), texts(&["multi"]));
    assert_eq!(list(&result, "audio_languages"), Vec::<String>::new());
}

#[test]
fn unrecorded_languages_go_to_audio() {
    let mut result = Fields::new();
    result.insert("languages", text_list(&["de"]));
    run("Movie.2020.1080p", 5, Vec::new(), &mut result, false);
    assert_eq!(list(&result, "audio_languages"), texts(&["de-DE"]));
}

#[test]
fn unrecorded_languages_of_a_subtitle_file_are_subtitles() {
    let mut result = Fields::new();
    result.insert("languages", text_list(&["en"]));
    run("Movie.2020.1080p.srt", 5, Vec::new(), &mut result, false);
    assert_eq!(list(&result, "subtitle_languages"), texts(&["en-US"]));
    assert_eq!(list(&result, "audio_languages"), Vec::<String>::new());
}

#[test]
fn bare_code_gives_way_to_its_regional_form() {
    let mut result = Fields::new();
    result.insert("languages", text_list(&["fr"]));
    run("Movie.2020.VFQ.1080p", 5, Vec::new(), &mut result, false);
    assert_eq!(list(&result, "audio_languages"), texts(&["fr-CA"]));
}

#[test]
fn dts_hd_ma_and_full_channel_layout() {
    let title = "Movie.2020.1080p.BluRay.DTS-HD.MA.7.1.4";
    let mut result = Fields::new();
    run(title, 5, Vec::new(), &mut result, false);
    assert_eq!(list(&result, "audio"), texts(&["DTS-HD MA"]));
    assert_eq!(list(&result, "channels"), texts(&["7.1.4"]));
}

#[test]
fn he_aac_v2_is_kept() {
    let mut result = Fields::new();
    run("Movie.2020.1080p.WEB-DL.HE-AACv2", 5, Vec::new(), &mut result, false);
    assert_eq!(list(&result, "audio"), texts(&["HE-AACv2"]));
}

#[test]
fn dolby_vision_profile_adds_dv() {
    let mut result = Fields::new();
    run("Movie.2020.2160p.DV.Profile.8.1.HEVC", 5, Vec::new(), &mut result, false);
    assert_eq!(list(&result, "dolby_vision_profiles"), texts(&["8.1"]));
    assert_eq!(list(&result, "hdr"), texts(&["DV"]));
}

#[test]
fn refined_label_replaces_generic_detection() {
    let title = "Movie.2020.1080p.DTS-HD.MA.7.1.4";
    let dts = title.find("DTS").unwrap();
    let mut result = Fields::new();
    result.insert("audio", text_list(&["DTS", "AAC"]));
    run(title, 5, vec![rec("audio", dts, dts + 3, "DTS")], &mut result, false);
    assert_eq!(list(&result, "audio"), texts(&["AAC", "DTS-HD MA"]));
}

#[test]
fn hdtv_read_out_of_dts_hd_is_dropped() {
    let title = "Movie.2020.1080p.DTS-HD.MA.7.1.4";
    let hd = title.find("HD").unwrap();
    let mut result = Fields::new();
    result.insert("quality", FieldValue::Text("HDTV".to_string()));
    run(title, 5, vec![rec("quality", hd, hd + 2, "HDTV")], &mut result, false);
    assert!(result.get("quality").is_none());
}

#[test]
fn hdtv_elsewhere_is_kept() {
    let title = "Movie.2020.HDTV.DTS-HD.MA.7.1.4";
    let mut result = Fields::new();
    result.insert("quality", FieldValue::Text("HDTV".to_string()));
    run(title, 5, vec![rec("quality", 11, 15, "HDTV")], &mut result, false);
    assert_eq!(text(&result, "quality"), Some("HDTV".to_string()));
}

#[test]
fn extended_edition_sets_flag() {
    let mut result = Fields::new();
    result.insert("edition", FieldValue::Text("Extended Edition".to_string()));
    run("Movie.2020.1080p", 5, Vec::new(), &mut result, false);
    assert!(matches!(result.get("extended"), Some(FieldValue::Flag(true))));
    assert!(result.get("remastered").is_none());
}

#[test]
fn translated_languages_are_names() {
    let mut result = Fields::new();
    run("Movie.2020.VFQ.1080p", 5, Vec::new(), &mut result, true);
    assert_eq!(list(&result, "audio_languages"), texts(&["French (Canada)"]));
}

#[test]
fn other_fields_are_untouched() {
    let mut result = Fields::new();
    result.insert("title", FieldValue::Text("Movie".to_string()));
    run("Movie.2020.VFQ.1080p", 5, Vec::new(), &mut result, false);
    assert_eq!(text(&result, "title"), Some("Movie".to_string()));
}

#[test]
fn sdh_group_of_a_subtitle_language_is_dropped() {
    let mut result = Fields::new();
    result.insert("group", FieldValue::Text("French.SDH".to_string()));
    result.insert("subtitle_languages", text_list(&["fr-FR"]));
    drop_annotation_group(&mut result, &lexicon());
    assert!(result.get("group").is_none());
}

#[test]
fn subtitle_annotation_group_cases() {
    let lexicon = lexicon();
    let subs = texts(&["fr-FR"]);
    assert!(subtitle_annotation_group("French.SDH", &subs, &lexicon));
    assert!(subtitle_annotation_group("fr-FR [FORCED]", &subs, &lexicon));
    assert!(!subtitle_annotation_group("French.SDH", &Vec::new(), &lexicon));
    assert!(!subtitle_annotation_group("French", &subs, &lexicon));
    assert!(!subtitle_annotation_group("English.SDH", &subs, &lexicon));
    assert!(!subtitle_annotation_group("RARBG.French.SDH", &subs, &lexicon));
}

#[test]
fn merge_technical_without_change_keeps_field() {
    let mut result = Fields::new();
    result.insert("audio", text_list(&["AAC"]));
    merge_technical(&mut result, &[], &[rec("hdr", 0, 4, "HDR10")], "audio");
    assert_eq!(list(&result, "audio"), texts(&["AAC"]));
}

#[test]
fn add_dolby_vision_needs_profiles() {
    let mut result = Fields::new();
    result.insert("hdr", text_list(&["HDR10"]));
    add_dolby_vision(&mut result);
    assert_eq!(list(&result, "hdr"), texts(&["HDR10"]));
    result.insert("dolby_vision_profiles", text_list(&["5"]));
    add_dolby_vision(&mut result);
    assert_eq!(list(&result, "hdr"), texts(&["HDR10", "DV"]));
    add_dolby_vision(&mut result);
    assert_eq!(list(&result, "hdr"), texts(&["HDR10", "DV"]));
}

#[test]
fn drop_audio_hdtv_needs_a_source() {
    let mut result = Fields::new();
    result.insert("quality", FieldValue::Text("HDTV".to_string()));
    drop_audio_hdtv(&mut result, &[], &[rec("audio", 0, 9, "DTS-HD MA")]);
    assert_eq!(text(&result, "quality"), Some("HDTV".to_string()));
}

#[test]
fn remastered_sets_flag() {
    let mut result = Fields::new();
    result.insert("edition", FieldValue::Text("Remastered".to_string()));
    mark_editions(&mut result);
    assert!(matches!(result.get("remastered"), Some(FieldValue::Flag(true))));
    assert!(result.get("extended").is_none());
}

#[test]
fn translate_languages_drops_unnamed_codes() {
    let mut result = Fields::new();
    result.insert("audio_languages", text_list(&["ja-JP", "xx-YY", "multi"]));
    translate_languages(&mut result, &data());
    assert_eq!(list(&result, "audio_languages"), texts(&["Japanese", "Multiple languages"]));
    assert_eq!(list(&result, "subtitle_languages"), Vec::<String>::new());
}

#[test]
fn role_pattern_names_roles() {
    assert!(role_pattern().contains("undertekst"));
}
