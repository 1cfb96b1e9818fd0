use vocab::store::{Translations, VocabularyManager};
use vocab::text::{
    classify_input, first_letter_uppercase, is_supported_language, is_valid_word,
    supported_languages, trimmed, InputOutcome,
};

#[test]
fn find_word_before_and_after_add() {
    let mut vm = VocabularyManager::new();
    assert!(!vm.find_word("Hello"));
    let mut translations = Translations::new();
    translations.insert("Français".to_string(), "Bonjour".to_string());
    vm.add_word("Hello".to_string(), translations);
    assert!(vm.find_word("Hello"));
}

#[test]
fn add_word_overwrites_existing_entry() {
    let mut vm = VocabularyManager::new();
    let mut first = Translations::new();
    first.insert("Français".to_string(), "Bonjour".to_string());
    vm.add_word("Hello".to_string(), first);
    let mut second = Translations::new();
    second.insert("Arabe".to_string(), "مرحبا".to_string());
    vm.add_word("Hello".to_string(), second);
    assert_eq!(vm.word_count(), 1);
    assert_eq!(vm.get_translation("Hello", "Français"), None);
    assert_eq!(
        vm.get_translation("Hello", "Arabe"),
        Some("مرحبا".to_string())
    );
}

#[test]
fn update_creates_absent_language() {
    let mut vm = VocabularyManager::new();
    let mut translations = Translations::new();
    translations.insert("Français".to_string(), "Bonjour".to_string());
    vm.add_word("Hello".to_string(), translations);
    assert_eq!(vm.get_translation("Hello", "Arabe"), None);
    assert!(vm.update_translation("Hello", "Arabe", "مرحبا".to_string()));
    assert_eq!(
        vm.get_translation("Hello", "Arabe"),
        Some("مرحبا".to_string())
    );
    assert_eq!(
        vm.get_translation("Hello", "Français"),
        Some("Bonjour".to_string())
    );
}

#[test]
fn count_skips_missing_languages() {
    let mut vm = VocabularyManager::new();
    let mut translations = Translations::new();
    translations.insert("Français".to_string(), "Bonjour".to_string());
    vm.add_word("Hello".to_string(), translations);
    let mut only_arabic = Translations::new();
    only_arabic.insert("Arabe".to_string(), "وداعا".to_string());
    vm.add_word("Goodbye".to_string(), only_arabic);
    let count = vm.count_words_per_language();
    assert_eq!(count.get("Français"), Some(1));
    assert_eq!(count.get("Arabe"), Some(1));
    assert_eq!(count.get("Espagnol"), None);
}

#[test]
fn count_of_empty_store_is_empty() {
    let vm = VocabularyManager::new();
    let count = vm.count_words_per_language();
    assert_eq!(count.get("Français"), None);
    assert_eq!(count.get("Arabe"), None);
}

#[test]
fn render_of_empty_store_is_empty() {
    let vm = VocabularyManager::new();
    assert_eq!(vm.render(), "");
}

#[test]
fn json_round_trip_keeps_every_entry() {
    let mut vm = VocabularyManager::new();
    let mut hello = Translations::new();
    hello.insert("Français".to_string(), "Bonjour".to_string());
    hello.insert("Arabe".to_string(), "مرحبا".to_string());
    vm.add_word("Hello".to_string(), hello);
    let mut goodbye = Translations::new();
    goodbye.insert("Français".to_string(), "Au revoir".to_string());
    goodbye.insert("Arabe".to_string(), "إلى اللقاء".to_string());
    vm.add_word("Goodbye".to_string(), goodbye);

    let saved = vm.to_json();
    let loaded = VocabularyManager::from_json(saved.as_str()).unwrap();
    assert_eq!(loaded.word_count(), 2);
    assert_eq!(
        loaded.get_translation("Hello", "Arabe"),
        Some("مرحبا".to_string())
    );
    assert_eq!(
        loaded.get_translation("Goodbye", "Français"),
        Some("Au revoir".to_string())
    );
}

#[test]
fn json_round_trip_escapes_quotes_and_backslashes() {
    let mut vm = VocabularyManager::new();
    let mut translations = Translations::new();
    translations.insert("Français".to_string(), "dit \"salut\" \\ puis".to_string());
    vm.add_word("Hello".to_string(), translations);
    let saved = vm.to_json();
    let loaded = VocabularyManager::from_json(saved.as_str()).unwrap();
    assert_eq!(
        loaded.get_translation("Hello", "Français"),
        Some("dit \"salut\" \\ puis".to_string())
    );
}

#[test]
fn json_escapes_common_control_characters() {
    let mut vm = VocabularyManager::new();
    let mut translations = Translations::new();
    translations.insert("Français".to_string(), "a\tb\nc".to_string());
    vm.add_word("Hello".to_string(), translations);
    let saved = vm.to_json();
    assert_eq!(
        saved,
        "{\"words\":{\"Hello\":{\"Français\":\"a\\tb\\nc\"}}}"
    );
    let loaded = VocabularyManager::from_json(&saved).unwrap();
    assert_eq!(
        loaded.get_translation("Hello", "Français"),
        Some("a\tb\nc".to_string())
    );
}

#[test]
fn json_escapes_rare_control_characters_as_hex() {
    let mut vm = VocabularyManager::new();
    let mut translations = Translations::new();
    translations.insert("Français".to_string(), "a\u{1}b\u{1f}c".to_string());
    vm.add_word("Hello".to_string(), translations);
    let saved = vm.to_json();
    assert_eq!(
        saved,
        "{\"words\":{\"Hello\":{\"Français\":\"a\\u0001b\\u001fc\"}}}"
    );
    let loaded = VocabularyManager::from_json(&saved).unwrap();
    assert_eq!(
        loaded.get_translation("Hello", "Français"),
        Some("a\u{1}b\u{1f}c".to_string())
    );
}

#[test]
fn raw_control_characters_are_rejected_on_load() {
    assert!(VocabularyManager::from_json("{\"words\":{\"\t\":{}}}").is_none());
    assert!(VocabularyManager::from_json("{\"words\":{\"A\":{\"B\":\"a\nb\"}}}").is_none());
}

#[test]
fn standard_escapes_are_read_on_load() {
    let vm = VocabularyManager::from_json(
        "{\"words\":{\"Hello\":{\"Arabe\":\"a\\tb\\\"c\\\\d\\/e\\r\\n\\f\\b\\u0007\"}}}",
    )
    .unwrap();
    assert_eq!(
        vm.get_translation("Hello", "Arabe"),
        Some("a\tb\"c\\d/e\r\n\u{c}\u{8}\u{7}".to_string())
    );
    assert!(VocabularyManager::from_json("{\"words\":{\"A\":{\"B\":\"\\q\"}}}").is_none());
    assert!(VocabularyManager::from_json("{\"words\":{\"A\":{\"B\":\"\\u12\"}}}").is_none());
}

#[test]
fn json_of_known_store_is_exact() {
    let mut vm = VocabularyManager::new();
    let mut translations = Translations::new();
    translations.insert("Français".to_string(), "Bonjour".to_string());
    vm.add_word("Hello".to_string(), translations);
    assert_eq!(vm.to_json(), "{\"words\":{\"Hello\":{\"Français\":\"Bonjour\"}}}");
}

#[test]
fn json_of_empty_store_is_exact() {
    let vm = VocabularyManager::new();
    assert_eq!(vm.to_json(), "{\"words\":{}}");
}

#[test]
fn malformed_json_is_rejected() {
    assert!(VocabularyManager::from_json("").is_none());
    assert!(VocabularyManager::from_json("not json at all").is_none());
    assert!(VocabularyManager::from_json("{\"words\":{").is_none());
    assert!(VocabularyManager::from_json("{\"mots\":{}}").is_none());
    assert!(VocabularyManager::from_json("{\"words\":{}} trailing").is_none());
    assert!(VocabularyManager::from_json("{\"words\":{\"a\":{}}").is_none());
}

#[test]
fn parsed_json_reads_values_back() {
    let text = "{\"words\":{\"Hello\":{\"Arabe\":\"مرحبا\"}}}";
    let vm = VocabularyManager::from_json(text).unwrap();
    assert_eq!(vm.word_count(), 1);
    assert_eq!(
        vm.get_translation("Hello", "Arabe"),
        Some("مرحبا".to_string())
    );
}

#[test]
fn word_validity_edge_cases() {
    assert!(!is_valid_word(""));
    assert!(!is_valid_word("   "));
    assert!(is_valid_word("hello world"));
    assert!(is_valid_word("café"));
    assert!(!is_valid_word("year2024"));
    assert!(!is_valid_word("semi;colon"));
}

#[test]
fn language_set_is_fixed_and_case_sensitive() {
    let langs = supported_languages();
    assert_eq!(langs, vec!["Français".to_string(), "Arabe".to_string()]);
    assert!(!is_supported_language("français"));
    assert!(!is_supported_language("ARABE"));
    assert!(!is_supported_language(""));
}

#[test]
fn capitalization_handles_edge_cases() {
    assert_eq!(first_letter_uppercase(""), "");
    assert_eq!(first_letter_uppercase("a"), "A");
    assert_eq!(first_letter_uppercase("éclair"), "Éclair");
}

#[test]
fn trimming_drops_edge_whitespace_only() {
    assert_eq!(trimmed("  hello  "), "hello");
    assert_eq!(trimmed("\tbon jour\n"), "bon jour");
    assert_eq!(trimmed("   "), "");
    assert_eq!(trimmed("plain"), "plain");
}

#[test]
fn input_classification_follows_the_prompt_rules() {
    assert!(matches!(classify_input("6"), InputOutcome::Exit));
    assert!(matches!(classify_input("  6  "), InputOutcome::Exit));
    match classify_input(" hELLO ") {
        InputOutcome::Word(w) => assert_eq!(w, "Hello"),
        _ => panic!("a valid word was rejected"),
    }
    assert!(matches!(classify_input("hello!"), InputOutcome::Invalid));
    assert!(matches!(classify_input(""), InputOutcome::Invalid));
    assert!(matches!(classify_input("66"), InputOutcome::Invalid));
}

#[test]
fn translation_map_reads_its_own_entries() {
    let mut translations = Translations::new();
    translations.insert("Français".to_string(), "Bonjour".to_string());
    translations.insert("Arabe".to_string(), "مرحبا".to_string());
    assert_eq!(translations.len(), 2);
    assert_eq!(translations.get("Français"), Some("Bonjour".to_string()));
    assert_eq!(translations.get("Espagnol"), None);
    translations.insert("Français".to_string(), "Salut".to_string());
    assert_eq!(translations.len(), 2);
    assert_eq!(translations.get("Français"), Some("Salut".to_string()));
}
