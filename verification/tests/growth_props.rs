use fluent_diary::sessions::SessionData;
use fluent_diary::stats::{
    cumulative_growth, filter_sessions, get_overall_stats, vocab_new_by_day, wpm_trends,
    DailyActivity, VocabDayCount,
};
use fluent_diary::tokenize::cleaned_lemma;
use fluent_diary::vocabulary::VocabStore;

// Day numbers (days since 1970-01-01): 2024-01-01 is 19723.
const JAN1: i64 = 19723;

#[test]
fn vocab_growth_buckets_by_first_seen_day() {
    let mut store = VocabStore::new();
    let day1 = JAN1 * 86400;
    store.record_word("uno", "es", "uno", day1 + 10);
    store.record_word("dos", "es", "dos", day1 + 20);
    store.record_word("tres", "es", "tres", day1 + 2 * 86400);
    // repeated use later does not move the first-seen day
    store.record_word("uno", "es", "uno", day1 + 3 * 86400);
    // other languages do not count
    store.record_word("quatre", "fr", "quatre", day1);

    let by_day = vocab_new_by_day(&store.words, "es", 0);
    assert_eq!(by_day.len(), 2);
    assert_eq!(by_day[0].day, JAN1);
    assert_eq!(by_day[0].new_words, 2);
    assert_eq!(by_day[1].day, JAN1 + 2);
    assert_eq!(by_day[1].new_words, 1);

    let growth = cumulative_growth(&by_day);
    assert_eq!(growth.len(), 2);
    assert_eq!(growth[0].date, "2024-01-01");
    assert_eq!(growth[0].new_words, 2);
    assert_eq!(growth[0].cumulative_total, 2);
    assert_eq!(growth[1].date, "2024-01-03");
    assert_eq!(growth[1].new_words, 1);
    assert_eq!(growth[1].cumulative_total, 3);
}

#[test]
fn cumulative_growth_is_prefix_sum() {
    let by_day = vec![
        VocabDayCount { day: JAN1, new_words: 5 },
        VocabDayCount { day: JAN1 + 1, new_words: 0 },
        VocabDayCount { day: JAN1 + 4, new_words: 7 },
    ];
    let growth = cumulative_growth(&by_day);
    let totals: Vec<i64> = growth.iter().map(|g| g.cumulative_total).collect();
    assert_eq!(totals, vec![5, 5, 12]);
}

fn completed(id: &str, started_at: i64, duration: i64, wpm_milli: i64, unique: i64, new: i64) -> SessionData {
    SessionData {
        id: id.to_string(),
        language: "es".to_string(),
        primary_language: "en".to_string(),
        started_at,
        ended_at: Some(started_at + duration),
        duration: Some(duration),
        audio_path: None,
        transcript: None,
        word_count: None,
        unique_word_count: Some(unique),
        wpm_milli: Some(wpm_milli),
        new_word_count: Some(new),
        session_type: None,
        text_library_id: None,
        source_text: None,
    }
}

#[test]
fn overall_stats_totals_and_averages() {
    let sessions = vec![
        completed("a", 1000, 60, 100_000, 10, 4),
        completed("b", 2000, 120, 200_000, 20, 0),
    ];
    let daily = vec![DailyActivity { day: JAN1, session_count: 2, total_minutes: 3 }];
    let stats = get_overall_stats(&sessions, 42, &daily, JAN1);
    assert_eq!(stats.total_sessions, 2);
    assert_eq!(stats.total_speaking_time_seconds, 180);
    assert_eq!(stats.total_vocabulary_size, 42);
    // mean of 100.0 and 200.0 words per minute
    assert_eq!(stats.average_wpm_milli, 150_000);
    // mean of 10 and 20 unique words
    assert_eq!(stats.avg_unique_words_per_session_milli, 15_000);
    // mean of 4 and 0 new words
    assert_eq!(stats.avg_new_words_per_session_milli, 2_000);
    assert_eq!(stats.current_streak_days, 1);
    assert_eq!(stats.longest_streak_days, 1);
}

#[test]
fn overall_stats_empty_history() {
    let stats = get_overall_stats(&Vec::new(), 0, &Vec::new(), JAN1);
    assert_eq!(stats.total_sessions, 0);
    assert_eq!(stats.average_wpm_milli, 0);
    assert_eq!(stats.avg_unique_words_per_session_milli, 0);
    assert_eq!(stats.current_streak_days, 0);
    assert_eq!(stats.longest_streak_days, 0);
}

#[test]
fn lemma_cleanup_strips_edges() {
    assert_eq!(cleaned_lemma("¡hola!"), "hola");
    assert_eq!(cleaned_lemma("casa"), "casa");
    assert_eq!(cleaned_lemma("..."), "");
}

#[test]
fn clean_punctuation_strips_all_lemmas() {
    let mut store = VocabStore::new();
    store.record_word("hola,", "es", "hola", 100);
    store.record_word("¡vamos!", "es", "vamos", 100);
    store.record_word("casa", "es", "casa", 100);
    // a lemma whose cleaned form is already taken is left alone
    store.record_word("casa.", "es", "casa", 100);

    let cleaned = store.clean_punctuation();
    assert_eq!(cleaned, 2);
    assert!(!store.is_new_word("hola", "es"));
    assert!(!store.is_new_word("vamos", "es"));
    assert!(!store.is_new_word("casa", "es"));
    assert!(!store.is_new_word("casa.", "es"));

    // a second pass finds nothing left to clean
    assert_eq!(store.clean_punctuation(), 0);
}

#[test]
fn rewrite_lemma_respects_uniqueness() {
    let mut store = VocabStore::new();
    store.record_word("hola,", "es", "hola", 100);
    store.record_word("mundo", "es", "mundo", 100);

    // a clean rewrite goes through
    assert!(store.rewrite_lemma("hola,", "es", "hola"));
    assert!(!store.is_new_word("hola", "es"));
    assert!(store.is_new_word("hola,", "es"));

    // rewriting onto an existing lemma is refused
    assert!(!store.rewrite_lemma("hola", "es", "mundo"));
    // so is a rewrite to the same or an empty lemma, or of a missing entry
    assert!(!store.rewrite_lemma("hola", "es", "hola"));
    assert!(!store.rewrite_lemma("hola", "es", ""));
    assert!(!store.rewrite_lemma("missing", "es", "algo"));
}

#[test]
fn wpm_trends_average_per_day() {
    let day1 = JAN1 * 86400;
    let sessions = vec![
        completed("a", day1 + 100, 60, 100_000, 10, 1),
        completed("b", day1 + 200, 60, 200_000, 10, 1),
        completed("c", day1 + 2 * 86400, 60, 90_000, 10, 1),
    ];
    let trends = wpm_trends(&sessions, 0);
    assert_eq!(trends.len(), 2);
    assert_eq!(trends[0].day, JAN1);
    assert_eq!(trends[0].date, "2024-01-01");
    // mean of 100.0 and 200.0 words per minute
    assert_eq!(trends[0].avg_wpm_milli, 150_000);
    assert_eq!(trends[1].date, "2024-01-03");
    assert_eq!(trends[1].avg_wpm_milli, 90_000);
}

#[test]
fn filter_sessions_by_language_and_cutoff() {
    fn history() -> Vec<SessionData> {
        let mut fr = completed("c", 9000, 60, 100_000, 10, 1);
        fr.language = "fr".to_string();
        vec![
            completed("a", 1000, 60, 100_000, 10, 1),
            completed("b", 5000, 60, 100_000, 10, 1),
            fr,
        ]
    }

    let es_only = filter_sessions(history(), Some("es"), None);
    assert_eq!(es_only.len(), 2);
    assert_eq!(es_only[0].id, "a");
    assert_eq!(es_only[1].id, "b");

    let recent = filter_sessions(history(), None, Some(4000));
    assert_eq!(recent.len(), 2);
    assert_eq!(recent[0].id, "b");
    assert_eq!(recent[1].id, "c");

    let both = filter_sessions(history(), Some("es"), Some(4000));
    assert_eq!(both.len(), 1);
    assert_eq!(both[0].id, "b");

    assert_eq!(filter_sessions(history(), None, None).len(), 3);
}
