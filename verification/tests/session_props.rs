use fluent_diary::cleanup::select_expired_sessions;
use fluent_diary::dates::{civil_of_day, format_day};
use fluent_diary::models::DownloadState;
use fluent_diary::models::{
    find_model, get_available_models, get_default_model, preferred_model_file, recommend_model,
};
use fluent_diary::sessions::{complete_session, create_session, process_transcript,
    words_per_minute_milli, SessionData};
use fluent_diary::stats::{calculate_streaks, daily_counts, local_now, to_session_counts,
    DailyActivity};
use fluent_diary::transcription::{assemble_transcription, language_mode, TranscriptSegment};
use fluent_diary::vocabulary::VocabStore;

fn session(id: &str, started_at: i64, ended_at: Option<i64>, duration: Option<i64>) -> SessionData {
    SessionData {
        id: id.to_string(),
        language: "es".to_string(),
        primary_language: "en".to_string(),
        started_at,
        ended_at,
        duration,
        audio_path: None,
        transcript: None,
        word_count: None,
        unique_word_count: None,
        wpm_milli: None,
        new_word_count: None,
        session_type: None,
        text_library_id: None,
        source_text: None,
    }
}

#[test]
fn wpm_formula_and_zero_duration() {
    // 150 words in 60 seconds = 150.0 words per minute
    assert_eq!(words_per_minute_milli(150, 60), 150_000);
    // zero duration gives 0.0
    assert_eq!(words_per_minute_milli(150, 0), 0);
    // 30 words in 120 seconds = 15.0 words per minute
    assert_eq!(words_per_minute_milli(30, 120), 15_000);
}

#[test]
fn process_transcript_counts_and_links() {
    let mut store = VocabStore::new();
    let tokens = vec!["estoy".to_string(), "estoy".to_string(), "casa".to_string()];
    let lemmas = vec![
        Some("estar".to_string()),
        Some("estar".to_string()),
        None,
    ];
    let (stats, links) = process_transcript(&mut store, &tokens, &lemmas, 60, "es", 1000);
    assert_eq!(stats.word_count, 3);
    assert_eq!(stats.unique_word_count, 2);
    assert_eq!(stats.wpm_milli, 3_000);
    assert_eq!(stats.new_word_count, 2);

    assert_eq!(links.len(), 2);
    assert_eq!(links[0].lemma, "estar");
    assert_eq!(links[0].count, 2);
    assert!(links[0].is_new);
    assert_eq!(links[1].lemma, "casa");
    assert_eq!(links[1].count, 1);
    assert!(links[1].is_new);

    // the vocabulary was updated once per token
    let words = store.get_user_vocab("es");
    assert_eq!(words.len(), 2);
    assert_eq!(words[0].lemma, "estar");
    assert_eq!(words[0].usage_count, 2);

    // a second session with the same words finds nothing new
    let (stats2, links2) = process_transcript(&mut store, &tokens, &lemmas, 60, "es", 2000);
    assert_eq!(stats2.new_word_count, 0);
    assert!(!links2[0].is_new);
}

#[test]
fn create_and_complete_session_fields() {
    let s = create_session("es", "en", Some("free_speak".to_string()), None, None, 5000);
    assert_eq!(s.id.len(), 36);
    assert_eq!(s.language, "es");
    assert_eq!(s.primary_language, "en");
    assert_eq!(s.started_at, 5000);
    assert!(s.ended_at.is_none());
    assert!(s.transcript.is_none());

    let mut store = VocabStore::new();
    let tokens = vec!["hola".to_string(), "mundo".to_string()];
    let lemmas = vec![None, None];
    let (done, stats, links) = complete_session(
        &mut store,
        s,
        &tokens,
        &lemmas,
        "audio/take.wav".to_string(),
        "hola mundo".to_string(),
        10,
        5010,
    );
    assert_eq!(stats.word_count, 2);
    assert_eq!(stats.unique_word_count, 2);
    assert_eq!(stats.wpm_milli, 12_000);
    assert_eq!(stats.new_word_count, 2);
    assert_eq!(links.len(), 2);
    assert_eq!(done.language, "es");
    assert_eq!(done.started_at, 5000);
    assert_eq!(done.ended_at, Some(5010));
    assert_eq!(done.duration, Some(10));
    assert_eq!(done.audio_path, Some("audio/take.wav".to_string()));
    assert_eq!(done.transcript, Some("hola mundo".to_string()));
    assert_eq!(done.word_count, Some(2));
    assert_eq!(done.wpm_milli, Some(12_000));
}

// Day numbers (days since 1970-01-01): 2024-01-01 is 19723.
const JAN1: i64 = 19723;

#[test]
fn streak_of_three_consecutive_days() {
    let daily = vec![
        DailyActivity { day: JAN1, session_count: 1, total_minutes: 5 },
        DailyActivity { day: JAN1 + 1, session_count: 2, total_minutes: 10 },
        DailyActivity { day: JAN1 + 2, session_count: 1, total_minutes: 3 },
    ];
    // today is 2024-01-03
    let (current, longest) = calculate_streaks(&daily, JAN1 + 2);
    assert_eq!(current, 3);
    assert_eq!(longest, 3);
}

#[test]
fn streak_with_gap() {
    let daily = vec![
        DailyActivity { day: JAN1, session_count: 1, total_minutes: 5 },
        DailyActivity { day: JAN1 + 2, session_count: 1, total_minutes: 5 },
    ];
    // activity on 01-01 and 01-03 with a gap at 01-02, today 01-03
    let (current, longest) = calculate_streaks(&daily, JAN1 + 2);
    assert_eq!(current, 1);
    assert_eq!(longest, 1);
}

#[test]
fn streak_counts_run_ending_yesterday() {
    // today held no session, but yesterday did: a gap of exactly one
    // day at the start does not break the streak
    let daily = vec![
        DailyActivity { day: JAN1, session_count: 1, total_minutes: 5 },
        DailyActivity { day: JAN1 + 1, session_count: 1, total_minutes: 5 },
    ];
    let (current, longest) = calculate_streaks(&daily, JAN1 + 2);
    assert_eq!(current, 2);
    assert_eq!(longest, 2);

    let single = vec![DailyActivity { day: JAN1, session_count: 1, total_minutes: 5 }];
    let (current, _) = calculate_streaks(&single, JAN1 + 1);
    assert_eq!(current, 1);
}

#[test]
fn streak_zero_after_gap_of_more_than_one_day() {
    let daily = vec![DailyActivity { day: JAN1, session_count: 1, total_minutes: 5 }];
    let (current, longest) = calculate_streaks(&daily, JAN1 + 5);
    assert_eq!(current, 0);
    assert_eq!(longest, 1);

    let (current, _) = calculate_streaks(&daily, JAN1 + 2);
    assert_eq!(current, 0);
}

#[test]
fn daily_counts_buckets_and_rounds_minutes_up() {
    // two sessions on 2024-01-01 (UTC), one on 2024-01-03
    let day1 = JAN1 * 86400;
    let sessions = vec![
        session("a", day1 + 3600, Some(day1 + 3700), Some(61)),
        session("b", day1 + 7200, Some(day1 + 7250), Some(50)),
        session("c", day1 + 2 * 86400, Some(day1 + 2 * 86400 + 100), Some(120)),
    ];
    let buckets = daily_counts(&sessions, 0);
    assert_eq!(buckets.len(), 2);
    assert_eq!(buckets[0].day, JAN1);
    assert_eq!(buckets[0].session_count, 2);
    // 61 + 50 = 111 seconds, rounded up to 2 minutes
    assert_eq!(buckets[0].total_minutes, 2);
    assert_eq!(buckets[1].day, JAN1 + 2);
    assert_eq!(buckets[1].session_count, 1);
    assert_eq!(buckets[1].total_minutes, 2);

    let rows = to_session_counts(&buckets);
    assert_eq!(rows[0].date, "2024-01-01");
    assert_eq!(rows[1].date, "2024-01-03");
}

#[test]
fn timezone_offset_moves_sessions_between_days() {
    // 30 minutes before midnight UTC on 2024-01-02
    let ts = (JAN1 + 1) * 86400 - 1800;
    let sessions = vec![session("a", ts, None, None)];
    let utc = daily_counts(&sessions, 0);
    assert_eq!(utc[0].day, JAN1);
    // at UTC+2 the same instant is already 2024-01-02
    let east = daily_counts(&sessions, 7200);
    assert_eq!(east[0].day, JAN1 + 1);
}

#[test]
fn civil_dates_and_formatting() {
    assert_eq!(format_day(0), "1970-01-01");
    assert_eq!(format_day(JAN1), "2024-01-01");
    // 2024 is a leap year: January (31) + February (29)
    assert_eq!(civil_of_day(JAN1 + 31 + 28), (2024, 2, 29));
    assert_eq!(format_day(JAN1 + 31 + 29), "2024-03-01");
    // 1900-style century rule does not apply after 2000
    assert_eq!(civil_of_day(11016), (2000, 2, 29));
}

#[test]
fn local_clock_offset_is_bounded() {
    let (_now, offset) = local_now();
    assert!(offset > -86400 && offset < 86400);
}

#[test]
fn cleanup_selects_only_old_completed_sessions() {
    let now = 1_700_000_000i64;
    let old_time = now - 40 * 86400;
    let sessions = vec![
        session("recent", now, Some(now), Some(10)),
        session("old", old_time, Some(old_time), Some(10)),
        session("unfinished", old_time, None, None),
    ];
    let ids = select_expired_sessions(&sessions, now, 30);
    assert_eq!(ids, vec!["old".to_string()]);
}

#[test]
fn test_cleanup_old_sessions() {
    let now = 1_700_000_000i64;
    let old_time = now - 40 * 86400;
    let sessions = vec![
        session("recent", now, Some(now), Some(10)),
        session("old", old_time, Some(old_time), Some(10)),
    ];
    // run cleanup with 30 day retention
    let ids = select_expired_sessions(&sessions, now, 30);
    let deleted_count = ids.len();
    let failed_count = 0usize;

    assert_eq!(deleted_count, 1);
    assert_eq!(failed_count, 0);

    // only the old session was selected for deletion
    let remaining: Vec<&str> = sessions
        .iter()
        .map(|s| s.id.as_str())
        .filter(|id| !ids.iter().any(|d| d == id))
        .collect();
    assert_eq!(remaining.len(), 1);
    assert_eq!(remaining[0], "recent");
}

#[test]
fn transcript_assembly_trims_and_joins() {
    let segments = vec![
        TranscriptSegment { text: "  Hola,  ".to_string(), start_centis: 0, end_centis: 120 },
        TranscriptSegment { text: " ¿qué tal? ".to_string(), start_centis: 120, end_centis: 250 },
    ];
    let t = assemble_transcription(segments);
    assert_eq!(t.text, "Hola, ¿qué tal?");
    assert_eq!(t.segments.len(), 2);
    assert_eq!(t.segments[0].text, "Hola,");
    assert_eq!(t.segments[0].start_centis, 0);
    assert_eq!(t.segments[1].end_centis, 250);
}

#[test]
fn language_choice_by_session_type() {
    assert_eq!(language_mode(Some("tutor"), "es"), None);
    assert_eq!(language_mode(Some("conversation"), "es"), None);
    assert_eq!(language_mode(Some("free_speak"), "es"), Some("es".to_string()));
    assert_eq!(language_mode(Some("read_aloud"), "fr"), Some("fr".to_string()));
    assert_eq!(language_mode(None, "es"), Some("es".to_string()));
    assert_eq!(language_mode(None, ""), None);
}

#[test]
fn model_catalog_and_default() {
    let models = get_available_models();
    assert_eq!(models.len(), 7);
    assert_eq!(models[0].name, "tiny");
    assert_eq!(models[2].name, "small");
    assert_eq!(models[2].size_mb, 466);
    assert!(!models[2].premium_required);
    assert!(models[6].premium_required);
    assert_eq!(models[6].file_name, "ggml-large-v3.bin");
    assert_eq!(get_default_model(), "small");
    assert_eq!(find_model(&models, "medium"), Some(3));
    assert_eq!(find_model(&models, "gigantic"), None);
}

#[test]
fn preferred_model_follows_priority() {
    let installed = vec!["ggml-base.bin".to_string(), "ggml-medium.bin".to_string()];
    assert_eq!(preferred_model_file(&installed), "ggml-medium.bin");
    assert_eq!(preferred_model_file(&Vec::new()), "ggml-tiny.bin");
    let all = vec!["ggml-tiny.bin".to_string(), "ggml-large-v3.bin".to_string()];
    assert_eq!(preferred_model_file(&all), "ggml-large-v3.bin");
}

#[test]
fn model_recommendation_by_resources() {
    assert_eq!(recommend_model(32 * 1024, 16), "small");
    assert_eq!(recommend_model(8 * 1024, 4), "base");
    assert_eq!(recommend_model(4 * 1024, 2), "tiny");
}

#[test]
fn download_state_allows_one_download() {
    let mut st = DownloadState::new();
    assert!(!st.in_progress);
    assert!(st.begin_download("small"));
    assert!(!st.begin_download("base"));
    assert_eq!(st.current_model, Some("small".to_string()));
    st.finish_download();
    assert!(!st.in_progress);
    assert!(st.begin_download("base"));
}
