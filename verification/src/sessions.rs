//! Session completion: turn a tokenized transcript into per-session
//! statistics (word count, unique lemmas, words per minute, new words),
//! update the vocabulary store, and produce one word link per distinct
//! lemma of the session.

use vstd::prelude::*;

use crate::seqtools::{count_occ, firsts, lemma_count_occ_zero, lemma_firsts_contains,
    lemma_firsts_distinct, lemma_push_contains};
use crate::textops::{str_eq, string_clone};
use crate::vocabulary::{contains_key, record_word_only_adds_key, VocabStore, VocabWord};

verus! {

/// One lemma of one session: how often it occurred and whether it was
/// new to the user's vocabulary going into the session.
pub struct SessionWord {
    pub lemma: String,
    pub count: i64,
    pub is_new: bool,
}

/// Statistics of one completed session. Words per minute are kept in
/// thousandths, so that `wpm_milli == 150000` means 150 words a minute.
pub struct SessionStats {
    pub word_count: i64,
    pub unique_word_count: i64,
    pub wpm_milli: i64,
    pub new_word_count: i64,
}

/// Words per minute in thousandths: `word_count / (duration / 60)`,
/// and 0 when the duration is 0.
pub open spec fn spec_wpm_milli(word_count: int, duration_seconds: int) -> int {
    if duration_seconds <= 0 {
        0
    } else {
        word_count * 60000 / duration_seconds
    }
}

/// Words per minute in thousandths, 0 for a zero duration.
pub fn words_per_minute_milli(word_count: i64, duration_seconds: i64) -> (r: i64)
    requires
        0 <= word_count,
        0 <= duration_seconds,
        word_count <= i64::MAX / 60000,
    ensures
        r == spec_wpm_milli(word_count as int, duration_seconds as int),
{
    if duration_seconds <= 0 {
        0
    } else {
        (word_count * 60000) / duration_seconds
    }
}

/// The lemma of each token: the lemmatizer's answer where it had one,
/// else the token itself.
pub open spec fn resolved_lemmas(
    tokens: Seq<Seq<char>>,
    lemmas: Seq<Option<Seq<char>>>,
) -> Seq<Seq<char>> {
    Seq::new(
        tokens.len(),
        |i: int|
            match lemmas[i] {
                Some(l) => l,
                None => tokens[i],
            },
    )
}

/// How many of the lemmas in `ls` have no entry in `ws` for `lang`.
pub open spec fn count_absent(ls: Seq<Seq<char>>, ws: Seq<VocabWord>, lang: Seq<char>) -> int
    decreases ls.len(),
{
    if ls.len() == 0 {
        0
    } else {
        count_absent(ls.drop_last(), ws, lang) + if !contains_key(ws, lang, ls.last()) {
            1int
        } else {
            0int
        }
    }
}

/// The index of the link for `lemma`, if one exists.
fn find_link(links: &Vec<SessionWord>, lemma: &str) -> (r: Option<usize>)
    ensures
        match r {
            Some(k) => k < links@.len() && links@[k as int].lemma@ == lemma@,
            None => forall|j: int| 0 <= j < links@.len() ==> links@[j].lemma@ != lemma@,
        },
{
    let n = links.len();
    let mut i: usize = 0;
    while i < n
        invariant
            0 <= i <= n == links@.len(),
            forall|j: int| 0 <= j < i ==> links@[j].lemma@ != lemma@,
        decreases n - i,
    {
        if str_eq(links[i].lemma.as_str(), lemma) {
            return Some(i);
        }
        i = i + 1;
    }
    None
}

/// Process one session's tokens against the vocabulary: record every
/// token's lemma, aggregate per-lemma occurrence counts, and compute the
/// session statistics. `lemmas[i]` is the external lemmatizer's answer
/// for `tokens[i]`, or nothing where it had no mapping — the token is
/// then its own lemma. One `SessionWord` is produced per distinct lemma,
/// in first-occurrence order; its `is_new` flag says whether the lemma
/// had no vocabulary entry before the session began, and
/// `new_word_count` counts exactly those lemmas.
pub fn process_transcript(
    store: &mut VocabStore,
    tokens: &Vec<String>,
    lemmas: &Vec<Option<String>>,
    duration_seconds: i64,
    language: &str,
    timestamp: i64,
) -> (r: (SessionStats, Vec<SessionWord>))
    requires
        old(store).wf(),
        tokens@.len() == lemmas@.len(),
        tokens@.len() <= i64::MAX / 60000,
        0 <= duration_seconds,
    ensures
        final(store).wf(),
        ({
            let res = resolved_lemmas(tokens.deep_view(), lemmas.deep_view());
            let stats = r.0;
            let links = r.1;
            &&& stats.word_count == tokens@.len()
            &&& stats.unique_word_count == firsts(res).len()
            &&& stats.wpm_milli == spec_wpm_milli(tokens@.len() as int, duration_seconds as int)
            &&& stats.new_word_count == count_absent(firsts(res), old(store).words@, language@)
            &&& links@.len() == firsts(res).len()
            &&& forall|k: int|
                0 <= k < links@.len() ==> {
                    &&& (#[trigger] links@[k]).lemma@ == firsts(res)[k]
                    &&& links@[k].count == count_occ(res, firsts(res)[k])
                    &&& links@[k].is_new == !contains_key(
                        old(store).words@,
                        language@,
                        firsts(res)[k],
                    )
                }
            &&& forall|l2: Seq<char>, m2: Seq<char>|
                #[trigger] contains_key(final(store).words@, l2, m2) <==> (contains_key(
                    old(store).words@,
                    l2,
                    m2,
                ) || (l2 == language@ && res.contains(m2)))
        }),
{
    let ghost res = resolved_lemmas(tokens.deep_view(), lemmas.deep_view());
    let ghost pre = store.words@;
    let n = tokens.len();
    let mut links: Vec<SessionWord> = Vec::new();
    let mut new_count: usize = 0;
    let mut i: usize = 0;
    proof {
        assert(res.len() == n);
        assert(res.take(0) =~= Seq::<Seq<char>>::empty());
        assert(firsts(res.take(0)) =~= Seq::<Seq<char>>::empty());
    }
    while i < n
        invariant
            0 <= i <= n == tokens@.len(),
            tokens@.len() == lemmas@.len(),
            tokens@.len() <= i64::MAX / 60000,
            res == resolved_lemmas(tokens.deep_view(), lemmas.deep_view()),
            res.len() == n,
            pre == old(store).words@,
            store.wf(),
            links@.len() == firsts(res.take(i as int)).len(),
            links@.len() <= i,
            new_count <= links@.len(),
            forall|k: int|
                0 <= k < links@.len() ==> ({
                    &&& (#[trigger] links@[k]).lemma@ == firsts(res.take(i as int))[k]
                    &&& links@[k].count == count_occ(res.take(i as int), firsts(res.take(i as int))[k])
                    &&& 1 <= links@[k].count <= i
                    &&& links@[k].is_new == !contains_key(pre, language@, firsts(res.take(i as int))[k])
                }),
            new_count == count_absent(firsts(res.take(i as int)), pre, language@),
            forall|l2: Seq<char>, m2: Seq<char>|
                #[trigger] contains_key(store.words@, l2, m2) <==> (contains_key(pre, l2, m2) || (
                l2 == language@ && res.take(i as int).contains(m2))),
        decreases n - i,
    {
        let ghost take_i = res.take(i as int);
        let ghost take_i1 = res.take(i as int + 1);
        proof {
            assert(take_i1.drop_last() =~= take_i);
            assert(take_i1.last() == res[i as int]);
            assert(take_i1 =~= take_i.push(res[i as int]));
        }
        let lemma_s: String = match &lemmas[i] {
            Some(l) => string_clone(l.as_str()),
            None => string_clone(tokens[i].as_str()),
        };
        proof {
            assert(lemmas.deep_view()[i as int] == lemmas@[i as int].deep_view());
            assert(tokens.deep_view()[i as int] == tokens@[i as int]@);
            assert(lemma_s@ == res[i as int]);
        }
        let ghost sw_pre = store.words@;
        let ghost sw_nid = store.next_id as int;
        let is_new_rec = store.record_word(
            lemma_s.as_str(),
            language,
            tokens[i].as_str(),
            timestamp,
        );
        proof {
            record_word_only_adds_key(
                sw_pre,
                store.words@,
                sw_nid,
                language@,
                lemma_s@,
                tokens@[i as int]@,
                timestamp as int,
                is_new_rec,
            );
            assert forall|l2: Seq<char>, m2: Seq<char>|
                #[trigger] contains_key(store.words@, l2, m2) <==> (contains_key(pre, l2, m2) || (
                l2 == language@ && take_i1.contains(m2))) by {
                lemma_push_contains(take_i, res[i as int], m2);
            }
        }
        match find_link(&links, lemma_s.as_str()) {
            Some(k) => {
                proof {
                    lemma_firsts_distinct(take_i);
                    assert(firsts(take_i)[k as int] == res[i as int]);
                    assert(firsts(take_i).contains(res[i as int]));
                    lemma_firsts_contains(take_i, res[i as int]);
                    assert(take_i.contains(res[i as int]));
                    assert(firsts(take_i1) == firsts(take_i));
                }
                let updated = SessionWord {
                    lemma: string_clone(links[k].lemma.as_str()),
                    count: links[k].count + 1,
                    is_new: links[k].is_new,
                };
                links[k] = updated;
                proof {
                    assert forall|j: int| 0 <= j < links@.len() implies {
                        &&& (#[trigger] links@[j]).lemma@ == firsts(take_i1)[j]
                        &&& links@[j].count == count_occ(take_i1, firsts(take_i1)[j])
                        &&& 1 <= links@[j].count <= i + 1
                        &&& links@[j].is_new == !contains_key(pre, language@, firsts(take_i1)[j])
                    } by {
                        assert(count_occ(take_i1, firsts(take_i)[j]) == count_occ(
                            take_i,
                            firsts(take_i)[j],
                        ) + if firsts(take_i)[j] == res[i as int] {
                            1int
                        } else {
                            0int
                        });
                        if j != k {
                            assert(firsts(take_i)[j] != res[i as int]);
                        }
                    }
                }
            },
            None => {
                proof {
                    assert forall|j: int|
                        0 <= j < firsts(take_i).len() implies firsts(take_i)[j] != res[
                        i as int
                    ] by {
                        assert(links@[j].lemma@ == firsts(take_i)[j]);
                    }
                    assert(!firsts(take_i).contains(res[i as int]));
                    lemma_firsts_contains(take_i, res[i as int]);
                    assert(!take_i.contains(res[i as int]));
                    assert(firsts(take_i1) == firsts(take_i).push(res[i as int]));
                    assert(contains_key(sw_pre, language@, res[i as int]) == contains_key(
                        pre,
                        language@,
                        res[i as int],
                    ));
                    assert(is_new_rec == !contains_key(pre, language@, res[i as int]));
                    lemma_count_occ_zero(take_i, res[i as int]);
                    assert(count_occ(take_i1, res[i as int]) == 1);
                }
                links.push(
                    SessionWord { lemma: string_clone(lemma_s.as_str()), count: 1, is_new: is_new_rec },
                );
                if is_new_rec {
                    new_count = new_count + 1;
                }
                proof {
                    assert(firsts(take_i1).drop_last() =~= firsts(take_i));
                    assert(count_absent(firsts(take_i1), pre, language@) == count_absent(
                        firsts(take_i),
                        pre,
                        language@,
                    ) + if !contains_key(pre, language@, res[i as int]) {
                        1int
                    } else {
                        0int
                    });
                    assert forall|j: int| 0 <= j < links@.len() implies {
                        &&& (#[trigger] links@[j]).lemma@ == firsts(take_i1)[j]
                        &&& links@[j].count == count_occ(take_i1, firsts(take_i1)[j])
                        &&& 1 <= links@[j].count <= i + 1
                        &&& links@[j].is_new == !contains_key(pre, language@, firsts(take_i1)[j])
                    } by {
                        if j < links@.len() - 1 {
                            assert(firsts(take_i1)[j] == firsts(take_i)[j]);
                            assert(count_occ(take_i1, firsts(take_i)[j]) == count_occ(
                                take_i,
                                firsts(take_i)[j],
                            ) + if firsts(take_i)[j] == res[i as int] {
                                1int
                            } else {
                                0int
                            });
                            assert(firsts(take_i)[j] != res[i as int]);
                        }
                    }
                }
            },
        }
        i = i + 1;
    }
    proof {
        assert(res.take(n as int) =~= res);
    }
    let word_count: i64 = n as i64;
    let unique_word_count: i64 = links.len() as i64;
    let wpm_milli = words_per_minute_milli(word_count, duration_seconds);
    let stats = SessionStats {
        word_count,
        unique_word_count,
        wpm_milli,
        new_word_count: new_count as i64,
    };
    (stats, links)
}

/// One recording session. Created at recording start with the identity
/// fields only; the remaining fields are written once, at completion.
pub struct SessionData {
    pub id: String,
    pub language: String,
    pub primary_language: String,
    pub started_at: i64,
    pub ended_at: Option<i64>,
    pub duration: Option<i64>,
    pub audio_path: Option<String>,
    pub transcript: Option<String>,
    pub word_count: Option<i64>,
    pub unique_word_count: Option<i64>,
    pub wpm_milli: Option<i64>,
    pub new_word_count: Option<i64>,
    pub session_type: Option<String>,
    pub text_library_id: Option<String>,
    pub source_text: Option<String>,
}

/// Create a session at recording start: a fresh opaque id, the language
/// pair, the start time and the optional type and source-text reference;
/// every derived field stays unset until completion.
pub fn create_session(
    language: &str,
    primary_language: &str,
    session_type: Option<String>,
    text_library_id: Option<String>,
    source_text: Option<String>,
    started_at: i64,
) -> (r: SessionData)
    ensures
        r.id@.len() == 36,
        r.language@ == language@,
        r.primary_language@ == primary_language@,
        r.started_at == started_at,
        r.ended_at is None,
        r.duration is None,
        r.audio_path is None,
        r.transcript is None,
        r.word_count is None,
        r.unique_word_count is None,
        r.wpm_milli is None,
        r.new_word_count is None,
        r.session_type == session_type,
        r.text_library_id == text_library_id,
        r.source_text == source_text,
{
    SessionData {
        id: crate::ids::new_uuid(),
        language: string_clone(language),
        primary_language: string_clone(primary_language),
        started_at,
        ended_at: None,
        duration: None,
        audio_path: None,
        transcript: None,
        word_count: None,
        unique_word_count: None,
        wpm_milli: None,
        new_word_count: None,
        session_type,
        text_library_id,
        source_text,
    }
}

/// Complete a session: process its tokenized transcript against the
/// vocabulary, and write every derived field of the session record at
/// once. The identity fields and the start time are preserved.
pub fn complete_session(
    store: &mut VocabStore,
    session: SessionData,
    tokens: &Vec<String>,
    lemmas: &Vec<Option<String>>,
    audio_path: String,
    transcript: String,
    duration_seconds: i64,
    ended_at: i64,
) -> (r: (SessionData, SessionStats, Vec<SessionWord>))
    requires
        old(store).wf(),
        tokens@.len() == lemmas@.len(),
        tokens@.len() <= i64::MAX / 60000,
        0 <= duration_seconds,
    ensures
        final(store).wf(),
        ({
            let res = resolved_lemmas(tokens.deep_view(), lemmas.deep_view());
            let s = r.0;
            let stats = r.1;
            &&& s.id@ == session.id@
            &&& s.language@ == session.language@
            &&& s.primary_language@ == session.primary_language@
            &&& s.started_at == session.started_at
            &&& s.session_type == session.session_type
            &&& s.text_library_id == session.text_library_id
            &&& s.source_text == session.source_text
            &&& s.ended_at == Some(ended_at)
            &&& s.duration == Some(duration_seconds)
            &&& (s.audio_path matches Some(p) && p@ == audio_path@)
            &&& (s.transcript matches Some(t) && t@ == transcript@)
            &&& s.word_count == Some(stats.word_count)
            &&& s.unique_word_count == Some(stats.unique_word_count)
            &&& s.wpm_milli == Some(stats.wpm_milli)
            &&& s.new_word_count == Some(stats.new_word_count)
            &&& stats.word_count == tokens@.len()
            &&& stats.unique_word_count == firsts(res).len()
            &&& stats.wpm_milli == spec_wpm_milli(tokens@.len() as int, duration_seconds as int)
            &&& stats.new_word_count == count_absent(firsts(res), old(store).words@, language_of(
                session,
            ))
        }),
{
    let (stats, links) = process_transcript(
        store,
        tokens,
        lemmas,
        duration_seconds,
        session.language.as_str(),
        ended_at,
    );
    let updated = SessionData {
        id: session.id,
        language: session.language,
        primary_language: session.primary_language,
        started_at: session.started_at,
        ended_at: Some(ended_at),
        duration: Some(duration_seconds),
        audio_path: Some(audio_path),
        transcript: Some(transcript),
        word_count: Some(stats.word_count),
        unique_word_count: Some(stats.unique_word_count),
        wpm_milli: Some(stats.wpm_milli),
        new_word_count: Some(stats.new_word_count),
        session_type: session.session_type,
        text_library_id: session.text_library_id,
        source_text: session.source_text,
    };
    (
        updated,
        SessionStats {
            word_count: stats.word_count,
            unique_word_count: stats.unique_word_count,
            wpm_milli: stats.wpm_milli,
            new_word_count: stats.new_word_count,
        },
        links,
    )
}

/// The view of a session's target language.
pub open spec fn language_of(s: SessionData) -> Seq<char> {
    s.language@
}

} // verus!
