use ptt_core::language::{join_strings, language_name, language_patterns, regional_language, LanguageData, Lexicon};
use ptt_core::text::{chars_of, split_on_dash, starts_with, string_of};

fn pairs(v: &[(&str, &str)]) -> Vec<(String, String)> {
    v.iter().map(|(a, b)| (a.to_string(), b.to_string())).collect()
}

fn data() -> LanguageData {
    LanguageData {
        defaults: pairs(&[
            ("fr", "FR"),
            ("en", "US"),
            ("ja", "JP"),
            ("es", "ES"),
            ("de", "DE"),
            ("pt", "BR"),
            ("zh", "CN"),
            ("zh-Hant", "TW"),
        ]),
        languages: pairs(&[
            ("fr", "fr"),
            ("en", "en"),
            ("ja", "ja"),
            ("es", "es"),
            ("de", "de"),
            ("pt", "pt"),
            ("zh", "zh"),
        ]),
        territories: pairs(&[
            ("CA", "CA"),
            ("FR", "FR"),
            ("BE", "BE"),
            ("US", "US"),
            ("419", "419"),
            ("BR", "BR"),
            ("JP", "JP"),
            ("TW", "TW"),
            ("CN", "CN"),
        ]),
        scripts: vec!["Hans".to_string(), "Hant".to_string(), "Latn".to_string()],
        names: pairs(&[
            ("fr", "French"),
            ("en", "English"),
            ("ja", "Japanese"),
            ("es", "Spanish"),
            ("de", "German"),
            ("pt", "Portuguese"),
            ("zh", "Chinese"),
        ]),
        territory_names: pairs(&[
            ("CA", "Canada"),
            ("FR", "France"),
            ("US", "United States"),
            ("419", "Latin America"),
            ("BR", "Brazil"),
            ("TW", "Taiwan"),
        ]),
        script_names: pairs(&[("Hans", "Simplified"), ("Hant", "Traditional")]),
    }
}

#[test]
fn regional_language_keeps_explicit_region() {
    assert_eq!(regional_language("fr-CA", &data()), Some("fr-CA".to_string()));
}

#[test]
fn regional_language_normalises_case() {
    assert_eq!(regional_language("FR-ca", &data()), Some("fr-CA".to_string()));
}

#[test]
fn regional_language_supplies_default_region() {
    assert_eq!(regional_language("fr", &data()), Some("fr-FR".to_string()));
    assert_eq!(regional_language("ja", &data()), Some("ja-JP".to_string()));
}

#[test]
fn regional_language_multi_is_a_marker() {
    assert_eq!(regional_language("multi", &data()), Some("multi".to_string()));
}

#[test]
fn regional_language_la_is_latin_american_spanish() {
    assert_eq!(regional_language("la", &data()), Some("es-419".to_string()));
}

#[test]
fn regional_language_script_default_region() {
    assert_eq!(regional_language("zh-hant", &data()), Some("zh-Hant-TW".to_string()));
    assert_eq!(regional_language("zh-Hant-TW", &data()), Some("zh-Hant-TW".to_string()));
}

#[test]
fn regional_language_script_without_prefix_default_uses_language_default() {
    assert_eq!(regional_language("zh-hans", &data()), Some("zh-Hans-CN".to_string()));
}

#[test]
fn regional_language_unknown_parts_are_refused() {
    assert_eq!(regional_language("xx", &data()), None);
    assert_eq!(regional_language("fr-XX", &data()), None);
    assert_eq!(regional_language("fr-Cyrl", &data()), None);
    assert_eq!(regional_language("fr-CA-BE", &data()), None);
}

#[test]
fn regional_language_unknown_default_is_refused() {
    let mut d = data();
    d.defaults.clear();
    assert_eq!(regional_language("fr", &d), None);
    assert_eq!(regional_language("fr-CA", &d), Some("fr-CA".to_string()));
}

#[test]
fn language_name_plain() {
    assert_eq!(language_name("fr", &data()), Some("French".to_string()));
}

#[test]
fn language_name_with_qualifiers() {
    assert_eq!(language_name("fr-CA", &data()), Some("French (Canada)".to_string()));
    assert_eq!(
        language_name("zh-Hant-TW", &data()),
        Some("Chinese (Traditional, Taiwan)".to_string())
    );
}

#[test]
fn language_name_skips_unnamed_qualifiers() {
    assert_eq!(language_name("fr-BE", &data()), Some("French".to_string()));
}

#[test]
fn language_name_multi() {
    assert_eq!(language_name("multi", &data()), Some("Multiple languages".to_string()));
}

#[test]
fn language_name_unknown() {
    assert_eq!(language_name("xx-CA", &data()), None);
}

#[test]
fn language_patterns_name_or_code() {
    let p = language_patterns(&pairs(&[("fr", "french"), ("en", "english")]));
    assert_eq!(
        p,
        pairs(&[("fr", r"\b(?:french|fr)\b"), ("en", r"\b(?:english|en)\b")])
    );
}

#[test]
fn lexicon_keeps_data_and_patterns() {
    let lexicon = Lexicon::new(data(), &pairs(&[("ja", "japanese")]));
    assert_eq!(lexicon.patterns, pairs(&[("ja", r"\b(?:japanese|ja)\b")]));
    assert_eq!(lexicon.data.names.len(), 7);
}

#[test]
fn join_strings_separates() {
    let items = vec!["a".to_string(), "b".to_string(), "c".to_string()];
    assert_eq!(join_strings(&items, ", "), "a, b, c");
    assert_eq!(join_strings(&Vec::new(), ", "), "");
}

#[test]
fn split_on_dash_keeps_empty_pieces() {
    assert_eq!(split_on_dash("zh-Hant-TW"), vec!["zh", "Hant", "TW"]);
    assert_eq!(split_on_dash("a--b"), vec!["a", "", "b"]);
    assert_eq!(split_on_dash(""), vec![""]);
}

#[test]
fn starts_with_prefix() {
    assert!(starts_with("DTS-HD MA", "DTS-HD"));
    assert!(!starts_with("DTS-X", "DTS-HD"));
    assert!(!starts_with("DTS", "DTS-HD"));
}

#[test]
fn chars_round_trip() {
    let cs = chars_of("héllo");
    assert_eq!(cs.len(), 5);
    assert_eq!(string_of(&cs), "héllo");
}

#[test]
fn regional_language_is_settled_on_its_own_output() {
    let d = data();
    for code in ["fr", "fr-CA", "la", "zh-hant", "JA", "multi", "pt-br"] {
        let r = regional_language(code, &d).expect("a known code");
        assert_eq!(regional_language(&r, &d), Some(r.clone()));
    }
}

#[test]
fn regional_language_ignores_case() {
    let d = data();
    for code in ["FR-ca", "Zh-HANT-tw", "ja", "xx"] {
        let r = regional_language(code, &d);
        assert_eq!(regional_language(&code.to_lowercase(), &d), r);
        assert_eq!(regional_language(&code.to_uppercase(), &d), r);
    }
}

#[test]
fn case_law_runs_on_mixed_case_codes() {
    let d = data();
    for code in ["FR-ca", "zh-HANT", "MULTI", "", "-", "é-CA"] {
        ptt_core::laws::regional_language_ignores_case(code, &d);
    }
}
