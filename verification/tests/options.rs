use dloc::fixed_map::EnumKey;
use dloc::logger::Logger;
use dloc::options::{parse_ds_languages, parse_hzd_languages, Action, SerializeType};

struct NullLogger;

impl Logger for NullLogger {
    fn info(&mut self, _msg: &str) {}
    fn good(&mut self, _msg: &str) {}
    fn warn(&mut self, _msg: &str) {}
    fn error(&mut self, _msg: &str) {}
}

#[test]
fn format_helpers() {
    assert_eq!(SerializeType::Json.extension(), "json");
    assert_eq!(SerializeType::Yaml.extension(), "yaml");
    assert_eq!(SerializeType::Txt.extension(), "txt");
    assert_eq!(
        SerializeType::Json.to_core(Some(true)),
        dloc::serialize::SerializeType::Json,
    );
    assert_eq!(
        SerializeType::Txt.to_core(Some(true)),
        dloc::serialize::SerializeType::Txt { add_language_names: true },
    );
    assert_eq!(
        SerializeType::Txt.to_core(None),
        dloc::serialize::SerializeType::Txt { add_language_names: false },
    );
}

#[test]
fn action_names() {
    let export = Action::Export { languages: Vec::new(), add_language_names: false };
    let import = Action::Import { exported_file: "x.json".to_string(), dont_skip: true };
    assert_eq!(export.name(), "Export");
    assert_eq!(import.name(), "Import");
}

#[test]
fn parses_language_names_case_insensitively() {
    let mut logger = NullLogger;
    let langs = parse_hzd_languages(
        vec!["english".to_string(), "FRENCH".to_string(), "nonsense".to_string()],
        &mut logger,
    );
    assert_eq!(
        langs,
        vec![dloc::hzd::Language::English, dloc::hzd::Language::French],
    );

    let langs = parse_ds_languages(vec!["greek".to_string()], &mut logger);
    assert_eq!(langs, vec![dloc::ds::Language::Greek]);
}

#[test]
fn the_all_word_selects_every_language() {
    let mut logger = NullLogger;
    let langs = parse_hzd_languages(vec!["AlL".to_string()], &mut logger);
    assert_eq!(langs.len(), 21);
    for (i, l) in langs.iter().enumerate() {
        assert_eq!(l.code(), i);
    }
    let langs = parse_ds_languages(vec!["all".to_string()], &mut logger);
    assert_eq!(langs.len(), 25);
}

#[test]
fn hzd_language_codes_cover_the_range() {
    let all = dloc::hzd::Language::all_variants();
    assert_eq!(all.len(), 21);
    for (i, l) in all.iter().enumerate() {
        assert_eq!(l.code(), i);
        assert_eq!(dloc::hzd::Language::from_code(i), *l);
    }
    assert_eq!(dloc::hzd::Language::SimplifiedChinese.code(), 20);
    assert_eq!(dloc::hzd::Language::English.name(), "English");
}
