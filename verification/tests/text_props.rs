use fluent_diary::tokenize::{calculate_word_count, tokenize_transcript};
use fluent_diary::text_library::{
    create_text_library_item, estimate_duration, update_text_library_item, CreateTextLibraryItem,
    UpdateTextLibraryItem,
};

#[test]
fn test_calculate_word_count() {
    let text = "The quick brown fox jumps over the lazy dog";
    assert_eq!(calculate_word_count(text), 9);

    let text_with_newlines = "Hello world\nHow are you?\nI'm fine!";
    assert_eq!(calculate_word_count(text_with_newlines), 7);
}

#[test]
fn test_estimate_duration() {
    // 150 words at 150 WPM = 1 minute = 60 seconds
    assert_eq!(estimate_duration(150), 60);

    // 300 words at 150 WPM = 2 minutes = 120 seconds
    assert_eq!(estimate_duration(300), 120);

    // 75 words at 150 WPM = 0.5 minutes = 30 seconds
    assert_eq!(estimate_duration(75), 30);
}

#[test]
fn test_module_compiles() {
    assert!(true);
}

#[test]
fn tokenize_strips_inverted_marks_and_lowercases() {
    let tokens = tokenize_transcript("¿Cómo estás?");
    assert_eq!(tokens, vec!["cómo".to_string(), "estás".to_string()]);
}

#[test]
fn tokenize_keeps_interior_apostrophes() {
    let tokens = tokenize_transcript("I'm fine, really!");
    assert_eq!(
        tokens,
        vec!["i'm".to_string(), "fine".to_string(), "really".to_string()]
    );
}

#[test]
fn tokenize_drops_pure_punctuation_words() {
    let tokens = tokenize_transcript("hola -- mundo ...");
    assert_eq!(tokens, vec!["hola".to_string(), "mundo".to_string()]);
}

#[test]
fn tokenize_empty_and_whitespace() {
    assert_eq!(tokenize_transcript(""), Vec::<String>::new());
    assert_eq!(tokenize_transcript("   \t\n "), Vec::<String>::new());
}

#[test]
fn word_count_counts_raw_words() {
    // punctuation-only words still count before stripping
    assert_eq!(calculate_word_count("hola -- mundo"), 3);
    assert_eq!(calculate_word_count(""), 0);
}

#[test]
fn create_text_item_derives_stats() {
    let input = CreateTextLibraryItem {
        title: "Sample".to_string(),
        source_type: "manual".to_string(),
        source_url: None,
        content: "one two three four five six".to_string(),
        language: "en".to_string(),
        difficulty_level: None,
        tags: None,
    };
    let item = create_text_library_item(input, 1000);
    assert_eq!(item.id.len(), 36);
    assert_eq!(item.word_count, Some(6));
    // 6 words at 150 WPM: 6 * 60 / 150 = 2 seconds
    assert_eq!(item.estimated_duration, Some(2));
    assert_eq!(item.created_at, 1000);
    assert_eq!(item.updated_at, 1000);
}

#[test]
fn update_text_item_merges_and_recomputes() {
    let input = CreateTextLibraryItem {
        title: "Old title".to_string(),
        source_type: "manual".to_string(),
        source_url: None,
        content: "one two three".to_string(),
        language: "en".to_string(),
        difficulty_level: None,
        tags: None,
    };
    let item = create_text_library_item(input, 1000);
    let updates = UpdateTextLibraryItem {
        title: Some("New title".to_string()),
        source_type: None,
        source_url: None,
        content: Some("a b c d e".to_string()),
        difficulty_level: Some("easy".to_string()),
        tags: None,
    };
    let updated = update_text_library_item(item, updates, 2000);
    assert_eq!(updated.title, "New title");
    assert_eq!(updated.source_type, "manual");
    assert_eq!(updated.content, "a b c d e");
    assert_eq!(updated.word_count, Some(5));
    assert_eq!(updated.created_at, 1000);
    assert_eq!(updated.updated_at, 2000);
    assert_eq!(updated.difficulty_level, Some("easy".to_string()));
}
