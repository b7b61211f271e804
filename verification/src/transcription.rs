//! Transcription results and audio normalization decisions: the error
//! taxonomy, time-aligned transcript segments, assembly of the full text
//! from segment texts, the choice between forced and auto-detected
//! language, and the fast path that recognizes audio already in the
//! format the transcription model requires.

use vstd::prelude::*;

use crate::textops::{char_is_whitespace, chars_of, string_from_chars, str_eq, unicode_whitespace};
use crate::wav::{spec_parse_wav, parse_wav, WavFormat};

verus! {

/// What can go wrong around transcription: reading or converting the
/// audio, loading the model, or the inference itself.
pub enum TranscriptionError {
    AudioReadError { message: String },
    AudioConversionError { message: String },
    TranscriptionFailed { message: String },
    ModelError { message: String },
    IoError { message: String },
}

/// A span of transcribed speech. The model reports timestamps in
/// hundredths of a second; they are kept that way here, and a second is
/// one hundred centiseconds.
pub struct TranscriptSegment {
    pub text: String,
    pub start_centis: i64,
    pub end_centis: i64,
}

/// A transcription: the full text and its time-aligned segments.
pub struct TranscriptionWithSegments {
    pub text: String,
    pub segments: Vec<TranscriptSegment>,
}

/// A transcription as handed to callers.
pub struct TranscriptionResponse {
    pub text: String,
    pub segments: Vec<TranscriptSegment>,
}

/// A text with its leading whitespace removed.
pub open spec fn ws_trim_front(w: Seq<char>) -> Seq<char>
    decreases w.len(),
{
    if w.len() > 0 && unicode_whitespace(w[0]) {
        ws_trim_front(w.drop_first())
    } else {
        w
    }
}

/// A text with its trailing whitespace removed.
pub open spec fn ws_trim_back(w: Seq<char>) -> Seq<char>
    decreases w.len(),
{
    if w.len() > 0 && unicode_whitespace(w.last()) {
        ws_trim_back(w.drop_last())
    } else {
        w
    }
}

/// A text with whitespace removed from both edges.
pub open spec fn ws_trimmed(w: Seq<char>) -> Seq<char> {
    ws_trim_back(ws_trim_front(w))
}

proof fn lemma_ws_trim_front_skip(w: Seq<char>, f: int)
    requires
        0 <= f <= w.len(),
        forall|k: int| 0 <= k < f ==> unicode_whitespace(w[k]),
        f == w.len() || !unicode_whitespace(w[f]),
    ensures
        ws_trim_front(w) == w.skip(f),
    decreases f,
{
    if f == 0 {
        assert(w.skip(0) =~= w);
    } else {
        lemma_ws_trim_front_skip(w.drop_first(), f - 1);
        assert(w.drop_first().skip(f - 1) =~= w.skip(f));
    }
}

proof fn lemma_ws_trim_back_take(w: Seq<char>, b: int)
    requires
        0 <= b <= w.len(),
        forall|k: int| b <= k < w.len() ==> unicode_whitespace(w[k]),
        b == 0 || !unicode_whitespace(w[b - 1]),
    ensures
        ws_trim_back(w) == w.take(b),
    decreases w.len() - b,
{
    if b == w.len() {
        assert(w.take(b) =~= w);
    } else {
        lemma_ws_trim_back_take(w.drop_last(), b);
        assert(w.drop_last().take(b) =~= w.take(b));
    }
}

/// A text with whitespace removed from both edges.
pub fn trim_whitespace(w: &Vec<char>) -> (r: Vec<char>)
    ensures
        r@ == ws_trimmed(w@),
{
    let n = w.len();
    let mut f: usize = 0;
    while f < n && char_is_whitespace(w[f])
        invariant
            0 <= f <= n == w@.len(),
            forall|k: int| 0 <= k < f ==> unicode_whitespace(w@[k]),
        decreases n - f,
    {
        f = f + 1;
    }
    proof {
        lemma_ws_trim_front_skip(w@, f as int);
    }
    let ghost front = w@.skip(f as int);
    let mut b: usize = n;
    while b > f && char_is_whitespace(w[b - 1])
        invariant
            f <= b <= n == w@.len(),
            front == w@.skip(f as int),
            forall|k: int| b <= k < n ==> unicode_whitespace(w@[k]),
        decreases b,
    {
        b = b - 1;
    }
    proof {
        assert(forall|k: int| b - f <= k < front.len() ==> unicode_whitespace(front[k]));
        lemma_ws_trim_back_take(front, b - f);
    }
    let mut r: Vec<char> = Vec::new();
    let mut i: usize = f;
    while i < b
        invariant
            f <= i <= b <= n == w@.len(),
            r@ == w@.subrange(f as int, i as int),
        decreases b - i,
    {
        r.push(w[i]);
        i = i + 1;
    }
    proof {
        assert(front.take(b - f) =~= w@.subrange(f as int, b as int));
    }
    r
}

/// Texts joined with single spaces between them.
pub open spec fn join_space(ts: Seq<Seq<char>>) -> Seq<char>
    decreases ts.len(),
{
    if ts.len() == 0 {
        Seq::empty()
    } else if ts.len() == 1 {
        ts[0]
    } else {
        join_space(ts.drop_last()) + seq![' '] + ts.last()
    }
}

/// The trimmed text of each segment.
pub open spec fn trimmed_texts(segments: Seq<TranscriptSegment>) -> Seq<Seq<char>> {
    Seq::new(segments.len(), |k: int| ws_trimmed(segments[k].text@))
}

/// Assemble a transcription from the model's segments: each segment's
/// text is trimmed, and the full text is the trimmed texts joined with
/// single spaces, itself trimmed.
pub fn assemble_transcription(segments: Vec<TranscriptSegment>) -> (r: TranscriptionWithSegments)
    ensures
        r.segments@.len() == segments@.len(),
        forall|k: int|
            0 <= k < segments@.len() ==> {
                &&& (#[trigger] r.segments@[k]).text@ == ws_trimmed(segments@[k].text@)
                &&& r.segments@[k].start_centis == segments@[k].start_centis
                &&& r.segments@[k].end_centis == segments@[k].end_centis
            },
        r.text@ == ws_trimmed(join_space(trimmed_texts(segments@))),
{
    let ghost texts = trimmed_texts(segments@);
    let n = segments.len();
    let mut out_segments: Vec<TranscriptSegment> = Vec::new();
    let mut joined: Vec<char> = Vec::new();
    let mut k: usize = 0;
    proof {
        assert(texts.take(0) =~= Seq::<Seq<char>>::empty());
    }
    while k < n
        invariant
            0 <= k <= n == segments@.len(),
            texts == trimmed_texts(segments@),
            out_segments@.len() == k,
            forall|j: int|
                0 <= j < k ==> {
                    &&& (#[trigger] out_segments@[j]).text@ == ws_trimmed(segments@[j].text@)
                    &&& out_segments@[j].start_centis == segments@[j].start_centis
                    &&& out_segments@[j].end_centis == segments@[j].end_centis
                },
            joined@ == join_space(texts.take(k as int)),
        decreases n - k,
    {
        proof {
            assert(texts.take(k as int + 1).drop_last() =~= texts.take(k as int));
            assert(texts.take(k as int + 1).last() == texts[k as int]);
        }
        let cs = chars_of(segments[k].text.as_str());
        let t = trim_whitespace(&cs);
        let ghost before = joined@;
        if k > 0 {
            joined.push(' ');
        }
        let mut i: usize = 0;
        let tn = t.len();
        while i < tn
            invariant
                0 <= i <= tn == t@.len(),
                joined@ == (if k > 0 {
                    before.push(' ')
                } else {
                    before
                }) + t@.take(i as int),
            decreases tn - i,
        {
            let ghost mid = joined@;
            joined.push(t[i]);
            proof {
                assert(joined@ =~= mid.push(t@[i as int]));
                assert((if k > 0 {
                    before.push(' ')
                } else {
                    before
                }) + t@.take(i as int + 1) =~= mid.push(t@[i as int]));
            }
            i = i + 1;
        }
        proof {
            assert(t@.take(tn as int) =~= t@);
            if k > 0 {
                assert(joined@ =~= join_space(texts.take(k as int)) + seq![' '] + texts[k as int]);
            } else {
                assert(joined@ =~= texts[0]);
            }
        }
        let seg = TranscriptSegment {
            text: string_from_chars(&t),
            start_centis: segments[k].start_centis,
            end_centis: segments[k].end_centis,
        };
        out_segments.push(seg);
        k = k + 1;
    }
    proof {
        assert(texts.take(n as int) =~= texts);
    }
    let full = trim_whitespace(&joined);
    TranscriptionWithSegments { text: string_from_chars(&full), segments: out_segments }
}

/// Whether a parsed format is one this library can decode: integer PCM
/// of 16 or 32 bits, or 32-bit IEEE float, with at least one channel.
pub open spec fn wav_supported(f: WavFormat) -> bool {
    &&& f.channels >= 1
    &&& f.sample_rate >= 1
    &&& ((f.audio_format == 1 && (f.bits_per_sample == 16 || f.bits_per_sample == 32)) || (
    f.audio_format == 3 && f.bits_per_sample == 32))
}

/// Whether a parsed format already is what the transcription model
/// requires: 16 kHz, mono, 16-bit integer PCM.
pub open spec fn is_target_format(f: WavFormat) -> bool {
    &&& f.audio_format == 1
    &&& f.channels == 1
    &&& f.sample_rate == 16000
    &&& f.bits_per_sample == 16
}

/// The normalizer's decision on an input file.
pub enum NormalizeOutcome {
    /// The input is already 16 kHz mono 16-bit integer PCM; the very
    /// same bytes are handed back, byte for byte.
    AlreadyNormalized(Vec<u8>),
    /// The input must be decoded and converted; the bytes are handed
    /// back together with their parsed format.
    NeedsConversion(Vec<u8>, WavFormat),
}

/// Decide how to normalize a waveform file: hand it back unchanged when
/// it already is 16 kHz mono 16-bit integer PCM, report its format for
/// conversion otherwise, and reject malformed or unsupported input.
pub fn check_normalized(bytes: Vec<u8>) -> (r: Result<NormalizeOutcome, TranscriptionError>)
    ensures
        spec_parse_wav(bytes@) is None ==> (r matches Err(e) && e is AudioReadError),
        spec_parse_wav(bytes@) matches Some(f) ==> {
            &&& !wav_supported(f) ==> (r matches Err(e) && e is AudioReadError)
            &&& wav_supported(f) && is_target_format(f) ==> (r matches Ok(
                NormalizeOutcome::AlreadyNormalized(out),
            ) && out@ == bytes@)
            &&& wav_supported(f) && !is_target_format(f) ==> (r matches Ok(
                NormalizeOutcome::NeedsConversion(out, g),
            ) && out@ == bytes@ && g == f)
        },
{
    match parse_wav(&bytes) {
        None => Err(
            TranscriptionError::AudioReadError {
                message: crate::textops::string_clone("Failed to parse WAV file"),
            },
        ),
        Some(f) => {
            let supported = f.channels >= 1 && f.sample_rate >= 1 && ((f.audio_format == 1 && (
            f.bits_per_sample == 16 || f.bits_per_sample == 32)) || (f.audio_format == 3
                && f.bits_per_sample == 32));
            if !supported {
                Err(
                    TranscriptionError::AudioReadError {
                        message: crate::textops::string_clone("Unsupported audio format"),
                    },
                )
            } else if f.audio_format == 1 && f.channels == 1 && f.sample_rate == 16000
                && f.bits_per_sample == 16 {
                Ok(NormalizeOutcome::AlreadyNormalized(bytes))
            } else {
                Ok(NormalizeOutcome::NeedsConversion(bytes, f))
            }
        },
    }
}

/// The language handed to the model: tutor and conversation sessions
/// auto-detect (no language), other sessions force the given language
/// unless it is empty.
pub fn language_mode(session_type: Option<&str>, language: &str) -> (r: Option<String>)
    ensures
        ({
            let auto = match session_type {
                Some(t) => t@ == "tutor"@ || t@ == "conversation"@,
                None => false,
            };
            &&& auto ==> r is None
            &&& !auto && language@.len() == 0 ==> r is None
            &&& !auto && language@.len() > 0 ==> (r matches Some(l) && l@ == language@)
        }),
{
    let auto = match session_type {
        Some(t) => str_eq(t, "tutor") || str_eq(t, "conversation"),
        None => false,
    };
    if auto {
        None
    } else if language.is_empty() {
        None
    } else {
        Some(crate::textops::string_clone(language))
    }
}

} // verus!
