use fluent_diary::translations::TranslationStore;
use fluent_diary::vocabulary::VocabStore;

const NOW: i64 = 1_700_000_000;

#[test]
fn test_record_new_word() {
    let mut store = VocabStore::new();

    let is_new = store.record_word("estar", "es", "estoy", NOW);
    assert!(is_new);

    let words = store.get_user_vocab("es");
    assert_eq!(words.len(), 1);
    assert_eq!(words[0].lemma, "estar");
    assert_eq!(words[0].forms_spoken, vec!["estoy"]);
    assert_eq!(words[0].usage_count, 1);
}

#[test]
fn test_record_existing_word() {
    let mut store = VocabStore::new();

    store.record_word("estar", "es", "estoy", NOW);

    let is_new = store.record_word("estar", "es", "estás", NOW + 1);
    assert!(!is_new);

    let words = store.get_user_vocab("es");
    assert_eq!(words.len(), 1);
    assert_eq!(words[0].forms_spoken.len(), 2);
    assert!(words[0].forms_spoken.contains(&"estoy".to_string()));
    assert!(words[0].forms_spoken.contains(&"estás".to_string()));
    assert_eq!(words[0].usage_count, 2);
}

#[test]
fn test_is_new_word() {
    let mut store = VocabStore::new();

    assert!(store.is_new_word("estar", "es"));

    store.record_word("estar", "es", "estoy", NOW);

    assert!(!store.is_new_word("estar", "es"));
}

#[test]
fn test_vocab_stats() {
    let mut store = VocabStore::new();

    store.record_word("estar", "es", "estoy", NOW);
    store.record_word("correr", "es", "corriendo", NOW);
    store.record_word("casa", "es", "casa", NOW);

    let stats = store.get_vocab_stats("es", NOW);
    assert_eq!(stats.total_words, 3);
    assert_eq!(stats.mastered_words, 0);
    assert_eq!(stats.words_this_week, 3);
}

#[test]
fn test_delete_word() {
    let mut store = VocabStore::new();

    store.record_word("estar", "es", "estoy", NOW);

    let words = store.get_user_vocab("es");
    assert_eq!(words.len(), 1);

    store.delete_word("estar", "es");

    let words = store.get_user_vocab("es");
    assert_eq!(words.len(), 0);
}

#[test]
fn test_delete_nonexistent_word() {
    let mut store = VocabStore::new();

    // Deleting a word that does not exist changes nothing and does not fail.
    store.delete_word("nonexistent", "es");
    assert_eq!(store.get_user_vocab("es").len(), 0);
}

#[test]
fn test_toggle_mastered() {
    let mut store = VocabStore::new();

    store.record_word("estar", "es", "estoy", NOW);

    let words = store.get_user_vocab("es");
    assert_eq!(words[0].mastered, false);

    let new_status = store.toggle_mastered("estar", "es").unwrap();
    assert_eq!(new_status, true);

    let words = store.get_user_vocab("es");
    assert_eq!(words[0].mastered, true);

    let new_status = store.toggle_mastered("estar", "es").unwrap();
    assert_eq!(new_status, false);

    let words = store.get_user_vocab("es");
    assert_eq!(words[0].mastered, false);
}

#[test]
fn test_toggle_mastered_updates_stats() {
    let mut store = VocabStore::new();

    store.record_word("estar", "es", "estoy", NOW);
    store.record_word("correr", "es", "corriendo", NOW);

    let stats = store.get_vocab_stats("es", NOW);
    assert_eq!(stats.mastered_words, 0);

    store.toggle_mastered("estar", "es").unwrap();

    let stats = store.get_vocab_stats("es", NOW);
    assert_eq!(stats.mastered_words, 1);

    store.toggle_mastered("correr", "es").unwrap();

    let stats = store.get_vocab_stats("es", NOW);
    assert_eq!(stats.mastered_words, 2);
}

#[test]
fn nineteen_recordings_leave_word_untagged() {
    let mut store = VocabStore::new();
    for i in 0..19 {
        store.record_word("correr", "es", "corriendo", NOW + i);
    }
    let words = store.get_user_vocab("es");
    assert_eq!(words[0].usage_count, 19);
    assert!(words[0].tags.is_empty());
    assert!(!words[0].mastered);
}

#[test]
fn twentieth_recording_auto_masters() {
    let mut store = VocabStore::new();
    for i in 0..20 {
        store.record_word("correr", "es", "corriendo", NOW + i);
    }
    let words = store.get_user_vocab("es");
    assert_eq!(words[0].usage_count, 20);
    assert_eq!(words[0].tags, vec!["mastered".to_string()]);
    assert!(words[0].mastered);
}

#[test]
fn needs_practice_blocks_auto_mastery() {
    let mut store = VocabStore::new();
    store.record_word("correr", "es", "corriendo", NOW);
    store.add_tag("correr", "es", "needs-practice").unwrap();
    for i in 1..30 {
        store.record_word("correr", "es", "corriendo", NOW + i);
    }
    let words = store.get_user_vocab("es");
    assert_eq!(words[0].tags, vec!["needs-practice".to_string()]);
    assert!(!words[0].mastered);
}

#[test]
fn record_word_reports_new_exactly_once() {
    let mut store = VocabStore::new();
    assert!(store.record_word("estar", "es", "estoy", NOW));
    assert!(!store.record_word("estar", "es", "estás", NOW + 1));
    assert!(!store.record_word("estar", "es", "estaban", NOW + 2));
    // the same lemma in another language is its own entry
    assert!(store.record_word("estar", "pt", "estou", NOW + 3));
    assert!(!store.record_word("estar", "pt", "estou", NOW + 4));
}

#[test]
fn add_tag_replaces_existing_tags() {
    let mut store = VocabStore::new();
    store.record_word("estar", "es", "estoy", NOW);
    let tags = store.add_tag("estar", "es", "mastered").unwrap();
    assert_eq!(tags, vec!["mastered".to_string()]);
    let words = store.get_user_vocab("es");
    assert!(words[0].mastered);

    let tags = store.add_tag("estar", "es", "needs-practice").unwrap();
    assert_eq!(tags, vec!["needs-practice".to_string()]);
    let words = store.get_user_vocab("es");
    assert_eq!(words[0].tags, vec!["needs-practice".to_string()]);
    assert!(!words[0].mastered);
}

#[test]
fn remove_tag_clears_mastered_flag() {
    let mut store = VocabStore::new();
    store.record_word("estar", "es", "estoy", NOW);
    store.add_tag("estar", "es", "mastered").unwrap();
    let tags = store.remove_tag("estar", "es", "mastered").unwrap();
    assert!(tags.is_empty());
    let words = store.get_user_vocab("es");
    assert!(words[0].tags.is_empty());
    assert!(!words[0].mastered);
}

#[test]
fn tag_operations_on_missing_word_return_none() {
    let mut store = VocabStore::new();
    assert!(store.toggle_mastered("nope", "es").is_none());
    assert!(store.add_tag("nope", "es", "mastered").is_none());
    assert!(store.remove_tag("nope", "es", "mastered").is_none());
}

#[test]
fn user_vocab_sorted_by_usage_then_recency() {
    let mut store = VocabStore::new();
    store.record_word("uno", "es", "uno", 100);
    store.record_word("dos", "es", "dos", 200);
    store.record_word("dos", "es", "dos", 300);
    store.record_word("tres", "es", "tres", 400);
    // usage: dos = 2, uno = 1 (seen at 100), tres = 1 (seen at 400)
    let words = store.get_user_vocab("es");
    assert_eq!(words.len(), 3);
    assert_eq!(words[0].lemma, "dos");
    assert_eq!(words[1].lemma, "tres");
    assert_eq!(words[2].lemma, "uno");
    // other languages are excluded
    store.record_word("uno", "it", "uno", 500);
    assert_eq!(store.get_user_vocab("es").len(), 3);
    assert_eq!(store.get_user_vocab("it").len(), 1);
}

#[test]
fn top_words_limits_and_orders() {
    let mut store = VocabStore::new();
    for (lemma, count) in [("a", 3), ("b", 1), ("c", 2)] {
        for i in 0..count {
            store.record_word(lemma, "es", lemma, NOW + i);
        }
    }
    let top = store.get_top_words("es", 2);
    assert_eq!(top.len(), 2);
    assert_eq!(top[0].lemma, "a");
    assert_eq!(top[0].usage_count, 3);
    assert_eq!(top[1].lemma, "c");
}

#[test]
fn custom_translation_set_get_delete() {
    let mut store = TranslationStore::new();
    assert!(store.get_custom_translation("estar", "es", "en").is_none());

    store.set_custom_translation("estar", "es", "en", "to be", None, NOW);
    assert_eq!(
        store.get_custom_translation("estar", "es", "en"),
        Some("to be".to_string())
    );

    // overwriting keeps one entry per key
    store.set_custom_translation("estar", "es", "en", "to exist", Some("note".to_string()), NOW + 1);
    assert_eq!(
        store.get_custom_translation("estar", "es", "en"),
        Some("to exist".to_string())
    );

    // other pairs are untouched
    assert!(store.get_custom_translation("estar", "es", "fr").is_none());

    store.delete_custom_translation("estar", "es", "en");
    assert!(store.get_custom_translation("estar", "es", "en").is_none());

    // deleting again does not fail
    store.delete_custom_translation("estar", "es", "en");
}

#[test]
fn recent_vocab_filters_sorts_and_translates() {
    let mut store = VocabStore::new();
    store.record_word("uno", "es", "uno", 1000);
    store.record_word("dos", "es", "dos", 5000);
    store.record_word("tres", "es", "tres", 3000);
    store.record_word("vieux", "fr", "vieux", 9000);

    let mut translations = TranslationStore::new();
    translations.set_custom_translation("dos", "es", "en", "two", None, NOW);

    // cutoff excludes "uno"; most recently discovered first
    let recent = store.get_recent_vocab(&translations, "es", "en", 2000, 10);
    assert_eq!(recent.len(), 2);
    assert_eq!(recent[0].lemma, "dos");
    assert_eq!(recent[0].translation, Some("two".to_string()));
    assert_eq!(recent[1].lemma, "tres");
    assert_eq!(recent[1].translation, None);

    // the limit keeps only the most recent
    let top1 = store.get_recent_vocab(&translations, "es", "en", 0, 1);
    assert_eq!(top1.len(), 1);
    assert_eq!(top1[0].lemma, "dos");
}

#[test]
fn vocab_by_tag_filters_listing() {
    let mut store = VocabStore::new();
    store.record_word("uno", "es", "uno", 100);
    store.record_word("dos", "es", "dos", 200);
    store.record_word("dos", "es", "dos", 300);
    store.record_word("tres", "es", "tres", 400);
    store.add_tag("uno", "es", "needs-practice").unwrap();
    store.add_tag("dos", "es", "needs-practice").unwrap();
    store.add_tag("tres", "es", "mastered").unwrap();

    let practice = store.get_vocab_by_tag("es", "needs-practice");
    assert_eq!(practice.len(), 2);
    assert_eq!(practice[0].lemma, "dos");
    assert_eq!(practice[1].lemma, "uno");

    let mastered = store.get_vocab_by_tag("es", "mastered");
    assert_eq!(mastered.len(), 1);
    assert_eq!(mastered[0].lemma, "tres");

    assert!(store.get_vocab_by_tag("es", "unknown").is_empty());
}
