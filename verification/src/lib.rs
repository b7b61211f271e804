//! Core library of a spoken-language practice recorder: it encodes captured
//! audio samples as standard waveform files, normalizes audio to the fixed
//! format the transcription model requires, assembles timed transcripts,
//! turns transcripts into per-session statistics and a durable vocabulary
//! record, and derives daily-activity streaks from session history.

pub mod cleanup;
pub mod dates;
pub mod ids;
pub mod models;
pub mod recorder;
pub mod seqtools;
pub mod sessions;
pub mod stats;
pub mod text_library;
pub mod textops;
pub mod tokenize;
pub mod transcription;
pub mod translations;
pub mod vocabulary;
pub mod wav;
