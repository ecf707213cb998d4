use ptt_core::details::Details;
use ptt_core::fields::Record;
use ptt_core::language::{LanguageData, Lexicon};
use ptt_core::technical::{dotted_string, technical_patterns};

fn pairs(v: &[(&str, &str)]) -> Vec<(String, String)> {
    v.iter().map(|(a, b)| (a.to_string(), b.to_string())).collect()
}

fn data() -> LanguageData {
    LanguageData {
        defaults: pairs(&[
            ("fr", "FR"),
            ("en", "US"),
            ("ja", "JP"),
            ("es", "ES"),
            ("de", "DE"),
            ("pt", "BR"),
            ("zh", "CN"),
            ("zh-Hant", "TW"),
        ]),
        languages: pairs(&[
            ("fr", "fr"),
            ("en", "en"),
            ("ja", "ja"),
            ("es", "es"),
            ("de", "de"),
            ("pt", "pt"),
            ("zh", "zh"),
        ]),
        territories: pairs(&[
            ("CA", "CA"),
            ("FR", "FR"),
            ("BE", "BE"),
            ("US", "US"),
            ("419", "419"),
            ("BR", "BR"),
            ("JP", "JP"),
            ("TW", "TW"),
            ("CN", "CN"),
        ]),
        scripts: vec!["Hans".to_string(), "Hant".to_string(), "Latn".to_string()],
        names: pairs(&[
            ("fr", "French"),
            ("en", "English"),
            ("ja", "Japanese"),
            ("es", "Spanish"),
            ("de", "German"),
            ("pt", "Portuguese"),
            ("zh", "Chinese"),
        ]),
        territory_names: pairs(&[
            ("CA", "Canada"),
            ("FR", "France"),
            ("US", "United States"),
            ("419", "Latin America"),
            ("BR", "Brazil"),
            ("TW", "Taiwan"),
        ]),
        script_names: pairs(&[("Hans", "Simplified"), ("Hant", "Traditional")]),
    }
}

fn lexicon() -> Lexicon {
    Lexicon::new(
        data(),
        &pairs(&[
            ("en", "english"),
            ("fr", "french"),
            ("ja", "japanese"),
            ("de", "german"),
            ("es", "spanish"),
        ]),
    )
}

fn rec(field: &str, start: usize, end: usize, value: &str) -> Record {
    Record { field: field.to_string(), start, end, value: Some(value.to_string()) }
}

fn values(records: &[Record]) -> Vec<(String, usize, usize, String)> {
    records
        .iter()
        .map(|r| (r.field.clone(), r.start, r.end, r.value.clone().unwrap_or_default()))
        .collect()
}

#[test]
fn details_new_finds_blocks_innermost_first() {
    let lexicon = lexicon();
    let records: Vec<Record> = Vec::new();
    let d = Details::new("Movie [FR] (2020)", &records, 5, &lexicon);
    assert_eq!(d.block_list(), &vec![(11, 16), (6, 9)]);
    assert_eq!(d.title_str(), "Movie [FR] (2020)");
    assert_eq!(d.end_of_title(), 5);
    assert_eq!(d.record_list().len(), 0);
    assert_eq!(d.lexicon_ref().patterns.len(), 5);
}

#[test]
fn labelled_by_a_role_in_the_block() {
    let lexicon = lexicon();
    let records: Vec<Record> = Vec::new();
    let title = "Movie.2020.[Subs: French]";
    let d = Details::new(title, &records, 5, &lexicon);
    assert!(d.labelled((18, 24)));
    assert!(d.subtitle_role((18, 24)));
    assert!(d.has_labelled_languages());
}

#[test]
fn unlabelled_outside_blocks() {
    let lexicon = lexicon();
    let records: Vec<Record> = Vec::new();
    let d = Details::new("Movie.2020.French", &records, 5, &lexicon);
    assert!(!d.labelled((11, 17)));
    assert!(!d.has_labelled_languages());
}

#[test]
fn language_list_after_a_label() {
    let lexicon = lexicon();
    let records: Vec<Record> = Vec::new();
    let d = Details::new("Movie.2020.Subs: French", &records, 5, &lexicon);
    assert!(d.is_language_list(15));
    assert!(!d.is_language_list(5));
}

#[test]
fn language_list_starting_at_a_languages_record() {
    let lexicon = lexicon();
    let records = vec![rec("languages", 17, 20, "xx")];
    let d = Details::new("Movie.2020.Subs: Xyz", &records, 5, &lexicon);
    assert!(d.is_language_list(15));
}

#[test]
fn labelled_region_code() {
    let lexicon = lexicon();
    let records: Vec<Record> = Vec::new();
    let d = Details::new("Movie.2020.[Subs: fr-CA]", &records, 5, &lexicon);
    assert_eq!(d.is_labelled_language_region((21, 23)).unwrap(), true);
    assert_eq!(d.is_labelled_language_region((18, 23)).unwrap(), false);
}

#[test]
fn context_text_masks_blocks() {
    let lexicon = lexicon();
    let records: Vec<Record> = Vec::new();
    let title = "Movie.2020.[x].Subs.French";
    let d = Details::new(title, &records, 5, &lexicon);
    assert_eq!(d.context_text(0, title.len()), b"Movie.2020.   .Subs.French".to_vec());
    assert_eq!(d.context_text(15, 19), b"Subs".to_vec());
}

#[test]
fn metadata_position_after_year() {
    let lexicon = lexicon();
    let records = vec![rec("year", 6, 10, "2020"), rec("group", 20, 25, "GROUP")];
    let d = Details::new("Movie.2020.FRENCH.x-GROUP", &records, 5, &lexicon);
    assert!(d.metadata_position((11, 17)));
    assert!(!d.metadata_position((0, 5)));
    assert!(!d.metadata_position((20, 25)));
}

#[test]
fn metadata_position_on_a_metadata_record() {
    let lexicon = lexicon();
    let records = vec![rec("audio", 0, 3, "AAC")];
    let d = Details::new("AAC Movie", &records, 9, &lexicon);
    assert!(d.metadata_position((1, 2)));
}

#[test]
fn subtitle_annotation_after_a_language() {
    let lexicon = lexicon();
    let records: Vec<Record> = Vec::new();
    let d = Details::new("Movie.French.SDH", &records, 5, &lexicon);
    assert!(d.subtitle_annotation(12, None));
    assert!(!d.subtitle_annotation(5, Some(12)));
    let d2 = Details::new("Movie French (forced)", &records, 5, &lexicon);
    assert!(d2.subtitle_annotation(12, None));
}

#[test]
fn labels_skip_multi_before_audio_marker() {
    let lexicon = lexicon();
    let records: Vec<Record> = Vec::new();
    let d = Details::new("x", &records, 1, &lexicon);
    let found = d.labels(b"Multi Audio", true);
    assert!(found.is_empty());
    let found = d.labels(b"Multi Audio", false);
    assert_eq!(found, vec![(6, 11, b"Audio".to_vec())]);
    let found = d.labels(b"Multi Audio: ", true);
    assert_eq!(found.len(), 1);
}

#[test]
fn excluded_inside_a_site() {
    let lexicon = lexicon();
    let records: Vec<Record> = Vec::new();
    let d = Details::new("www.french.com Movie", &records, 20, &lexicon);
    assert!(d.excluded_language_occurrence((4, 10)));
    assert!(!d.excluded_language_occurrence((15, 20)));
    let sited = vec![rec("site", 0, 5, "x")];
    let d2 = Details::new("fr.tv Movie", &sited, 11, &lexicon);
    assert!(d2.excluded_language_occurrence((0, 2)));
}

#[test]
fn subtitle_role_of_a_subtitle_file() {
    let lexicon = lexicon();
    let records: Vec<Record> = Vec::new();
    let d = Details::new("Movie.French.srt", &records, 5, &lexicon);
    assert!(d.subtitle_role((6, 12)));
}

#[test]
fn subtitle_role_of_multi_subs() {
    let lexicon = lexicon();
    let records = vec![rec("year", 6, 10, "2020")];
    let d = Details::new("Movie.2020.MULTI-SUB.1080p", &records, 5, &lexicon);
    assert!(d.subtitle_role((11, 20)));
    assert!(!d.subtitle_role((0, 5)));
}

#[test]
fn technical_audio_then_channels() {
    let lexicon = lexicon();
    let records = vec![rec("year", 6, 10, "2020")];
    let title = "Movie.2020.1080p.AAC7.1.4";
    let d = Details::new(title, &records, 5, &lexicon);
    let found = d.technical_matches().unwrap();
    assert_eq!(
        values(&found),
        vec![
            ("audio".to_string(), 17, 20, "AAC".to_string()),
            ("channels".to_string(), 20, 25, "7.1.4".to_string()),
        ]
    );
}

#[test]
fn technical_channels_after_a_word_are_skipped() {
    let lexicon = lexicon();
    let records = vec![rec("year", 6, 10, "2020")];
    let d = Details::new("Movie.2020.1080p.AC7.1.4", &records, 5, &lexicon);
    assert!(d.technical_matches().unwrap().is_empty());
}

#[test]
fn technical_channels_with_spaces_are_dotted() {
    let lexicon = lexicon();
    let records = vec![rec("year", 6, 10, "2020")];
    let d = Details::new("Movie 2020 1080p 7 1 4", &records, 5, &lexicon);
    assert_eq!(
        values(&d.technical_matches().unwrap()),
        vec![("channels".to_string(), 17, 22, "7.1.4".to_string())]
    );
}

#[test]
fn technical_nothing_before_the_metadata() {
    let lexicon = lexicon();
    let records: Vec<Record> = Vec::new();
    let d = Details::new("HDR10 Movie", &records, 11, &lexicon);
    assert!(d.technical_matches().unwrap().is_empty());
}

#[test]
fn technical_hdr10_plus() {
    let lexicon = lexicon();
    let records = vec![rec("year", 6, 10, "2020")];
    let d = Details::new("Movie.2020.2160p.HDR10+.HEVC", &records, 5, &lexicon);
    assert_eq!(
        values(&d.technical_matches().unwrap()),
        vec![("hdr".to_string(), 17, 23, "HDR10+".to_string())]
    );
}

#[test]
fn technical_pattern_table() {
    let table = technical_patterns();
    assert_eq!(table.len(), 14);
    assert_eq!(table[0].field, "audio");
    assert_eq!(table[0].value.as_deref(), Some("DTS-HD MA"));
    assert_eq!(table[9].field, "channels");
    assert!(table[9].value.is_none());
}

#[test]
fn dotted_string_replaces_separators() {
    assert_eq!(dotted_string("7 1-4"), "7.1.4");
    assert_eq!(dotted_string("5.1"), "5.1");
}
