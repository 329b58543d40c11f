use vtt_translate::translate::{
    finalize_translations, Language, TranslateFault, TranslationClient,
};

#[test]
fn test_language_codes() {
    assert_eq!(Language::En.code(), "en");
    assert_eq!(Language::EnGB.code(), "en-gb");
    assert_eq!(Language::Fa.code(), "fa");
}

#[test]
fn test_client_new_defaults() {
    let c = TranslationClient::new("SECRET-REDACTED".to_string(), "westeurope".to_string());
    assert_eq!(c.endpoint, "https://api.cognitive.microsofttranslator.com");
    assert_eq!(c.version, "3.0");
    assert_eq!(c.key, "SECRET-REDACTED");
    assert_eq!(c.region, "westeurope");
}

#[test]
fn test_finalize_appends_missing_fullstop() {
    let items = vec![
        (Language::Fa, "Une phrase.".to_string()),
        (Language::Fa, "Sans point".to_string()),
        (Language::Fa, "".to_string()),
    ];
    let r = finalize_translations(&items, 3, Language::Fa).unwrap();
    assert_eq!(r, vec!["Une phrase.", "Sans point.", "."]);
}

#[test]
fn test_finalize_count_mismatch() {
    let items = vec![(Language::Fa, "Une phrase.".to_string())];
    let r = finalize_translations(&items, 2, Language::Fa);
    assert_eq!(r, Err(TranslateFault::CountMismatch));
}

#[test]
fn test_finalize_wrong_language() {
    let items = vec![
        (Language::Fa, "Une phrase.".to_string()),
        (Language::En, "A sentence.".to_string()),
    ];
    let r = finalize_translations(&items, 2, Language::Fa);
    assert_eq!(r, Err(TranslateFault::WrongLanguage));
}
