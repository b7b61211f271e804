//! Vocabulary store: the user's discovered words, keyed by
//! (language, lemma), with spoken surface forms, usage counts,
//! first/last-seen timestamps and mutually exclusive status tags.
//!
//! Recording a word creates the entry on first occurrence and bumps it
//! afterwards; once the usage count reaches the mastery threshold the
//! entry is tagged "mastered" automatically, unless the user tagged it
//! "needs-practice" or it is already "mastered".

use vstd::prelude::*;

use crate::textops::{contains_str, str_eq, string_clone};
use crate::translations::{tcontains, tidx_of, TranslationStore};

verus! {

/// Usage count at which an entry is automatically tagged "mastered".
pub const MASTERY_THRESHOLD: i32 = 20;

/// A vocabulary entry: one lemma of one language.
pub struct VocabWord {
    pub id: i64,
    pub language: String,
    pub lemma: String,
    pub forms_spoken: Vec<String>,
    pub first_seen_at: i64,
    pub last_seen_at: i64,
    pub usage_count: i32,
    pub mastered: bool,
    pub tags: Vec<String>,
}

/// Vocabulary statistics for one language.
pub struct VocabStats {
    pub total_words: i64,
    pub mastered_words: i64,
    pub words_this_week: i64,
}

/// Whether the entry is keyed by the given language and lemma.
pub open spec fn key_is(w: VocabWord, lang: Seq<char>, lemma: Seq<char>) -> bool {
    w.language@ == lang && w.lemma@ == lemma
}

/// Whether the store holds an entry for the given language and lemma.
pub open spec fn contains_key(ws: Seq<VocabWord>, lang: Seq<char>, lemma: Seq<char>) -> bool {
    exists|i: int| 0 <= i < ws.len() && key_is(ws[i], lang, lemma)
}

/// The index of the entry for the given language and lemma.
pub open spec fn idx_of(ws: Seq<VocabWord>, lang: Seq<char>, lemma: Seq<char>) -> int {
    choose|i: int| 0 <= i < ws.len() && key_is(ws[i], lang, lemma)
}

/// Whether a tag list holds the given tag.
pub open spec fn has_tag(tags: Seq<Seq<char>>, tag: Seq<char>) -> bool {
    tags.contains(tag)
}

/// The usage count after one more occurrence; it saturates at the
/// integer maximum rather than wrap.
pub open spec fn bump(c: i32) -> int {
    if c < i32::MAX {
        c + 1
    } else {
        c as int
    }
}

/// A fresh entry for a lemma seen for the first time.
pub open spec fn fresh_entry(
    e: VocabWord,
    id: int,
    lang: Seq<char>,
    lemma: Seq<char>,
    form: Seq<char>,
    ts: int,
) -> bool {
    &&& e.id == id
    &&& e.language@ == lang
    &&& e.lemma@ == lemma
    &&& e.forms_spoken.deep_view() == seq![form]
    &&& e.first_seen_at == ts
    &&& e.last_seen_at == ts
    &&& e.usage_count == 1
    &&& e.mastered == false
    &&& e.tags.deep_view() == Seq::<Seq<char>>::empty()
}

/// Whether the auto-mastery rule fires for an entry whose count was just
/// bumped: the new count reaches the threshold and the user has neither
/// tagged the entry "needs-practice" nor is it "mastered" already.
pub open spec fn auto_masters(e_old: VocabWord) -> bool {
    &&& bump(e_old.usage_count) >= MASTERY_THRESHOLD
    &&& !has_tag(e_old.tags.deep_view(), "mastered"@)
    &&& !has_tag(e_old.tags.deep_view(), "needs-practice"@)
}

/// An existing entry after one more occurrence with surface form `form`
/// at time `ts`: count bumped, last-seen updated, the form added to the
/// spoken forms if not yet there, and the auto-mastery rule applied.
pub open spec fn bumped_entry(e_new: VocabWord, e_old: VocabWord, form: Seq<char>, ts: int) -> bool {
    &&& e_new.id == e_old.id
    &&& e_new.language@ == e_old.language@
    &&& e_new.lemma@ == e_old.lemma@
    &&& e_new.first_seen_at == e_old.first_seen_at
    &&& e_new.last_seen_at == ts
    &&& e_new.usage_count == bump(e_old.usage_count)
    &&& e_new.forms_spoken.deep_view() == (if e_old.forms_spoken.deep_view().contains(form) {
        e_old.forms_spoken.deep_view()
    } else {
        e_old.forms_spoken.deep_view().push(form)
    })
    &&& if auto_masters(e_old) {
        e_new.tags.deep_view() == seq!["mastered"@] && e_new.mastered == true
    } else {
        e_new.tags.deep_view() == e_old.tags.deep_view() && e_new.mastered == e_old.mastered
    }
}

/// How `record_word` relates the store before the call to the store
/// after it.
pub open spec fn record_word_post(
    pre: Seq<VocabWord>,
    post: Seq<VocabWord>,
    pre_next_id: int,
    lang: Seq<char>,
    lemma: Seq<char>,
    form: Seq<char>,
    ts: int,
    is_new: bool,
) -> bool {
    &&& is_new == !contains_key(pre, lang, lemma)
    &&& if is_new {
        &&& post.len() == pre.len() + 1
        &&& post.subrange(0, pre.len() as int) == pre
        &&& fresh_entry(post.last(), pre_next_id, lang, lemma, form, ts)
    } else {
        let i = idx_of(pre, lang, lemma);
        &&& post.len() == pre.len()
        &&& bumped_entry(post[i], pre[i], form, ts)
        &&& forall|j: int| 0 <= j < pre.len() && j != i ==> post[j] == pre[j]
    }
}

/// The user's vocabulary: entries with pairwise distinct
/// (language, lemma) keys and ids below `next_id`.
pub struct VocabStore {
    pub words: Vec<VocabWord>,
    pub next_id: i64,
}

impl VocabStore {
    /// Well-formed: keys are pairwise distinct and counts are positive.
    pub open spec fn wf(self) -> bool {
        &&& forall|i: int, j: int|
            0 <= i < j < self.words@.len() ==> !key_is(
                self.words@[j],
                self.words@[i].language@,
                self.words@[i].lemma@,
            )
        &&& forall|i: int| 0 <= i < self.words@.len() ==> #[trigger] self.words@[i].usage_count >= 1
    }

    /// An empty vocabulary.
    pub fn new() -> (r: VocabStore)
        ensures
            r.wf(),
            r.words@.len() == 0,
    {
        VocabStore { words: Vec::new(), next_id: 1 }
    }

    /// The index of the entry for (language, lemma), if present.
    fn find_entry(&self, lemma: &str, language: &str) -> (r: Option<usize>)
        ensures
            match r {
                Some(i) => i < self.words@.len() && key_is(self.words@[i as int], language@, lemma@),
                None => !contains_key(self.words@, language@, lemma@),
            },
    {
        let n = self.words.len();
        let mut i: usize = 0;
        while i < n
            invariant
                0 <= i <= n == self.words@.len(),
                forall|k: int| 0 <= k < i ==> !key_is(self.words@[k], language@, lemma@),
            decreases n - i,
        {
            if str_eq(self.words[i].language.as_str(), language) && str_eq(
                self.words[i].lemma.as_str(),
                lemma,
            ) {
                return Some(i);
            }
            i = i + 1;
        }
        None
    }

    /// Whether the lemma has never been recorded for this language.
    pub fn is_new_word(&self, lemma: &str, language: &str) -> (r: bool)
        ensures
            r == !contains_key(self.words@, language@, lemma@),
    {
        match self.find_entry(lemma, language) {
            Some(_) => false,
            None => true,
        }
    }

    /// Record one spoken occurrence of a lemma: create the entry on
    /// first occurrence, bump it otherwise, applying the auto-mastery
    /// rule. Returns whether the lemma was new to the vocabulary.
    pub fn record_word(&mut self, lemma: &str, language: &str, form_spoken: &str, timestamp: i64)
        -> (is_new: bool)
        requires
            old(self).wf(),
        ensures
            final(self).wf(),
            final(self).next_id >= old(self).next_id,
            record_word_post(
                old(self).words@,
                final(self).words@,
                old(self).next_id as int,
                language@,
                lemma@,
                form_spoken@,
                timestamp as int,
                is_new,
            ),
    {
        match self.find_entry(lemma, language) {
            None => {
                let entry = VocabWord {
                    id: self.next_id,
                    language: string_clone(language),
                    lemma: string_clone(lemma),
                    forms_spoken: vec_one(form_spoken),
                    first_seen_at: timestamp,
                    last_seen_at: timestamp,
                    usage_count: 1,
                    mastered: false,
                    tags: Vec::new(),
                };
                proof {
                    assert(entry.forms_spoken.deep_view() =~= seq![form_spoken@]);
                    assert(entry.tags.deep_view() =~= Seq::<Seq<char>>::empty());
                }
                self.words.push(entry);
                if self.next_id < i64::MAX {
                    self.next_id = self.next_id + 1;
                }
                proof {
                    assert(self.words@.subrange(0, self.words@.len() - 1) =~= old(self).words@);
                }
                true
            },
            Some(i) => {
                let ghost pre = self.words@;
                let ghost e_old = self.words@[i as int];
                proof {
                    assert(contains_key(pre, language@, lemma@));
                    let k = idx_of(pre, language@, lemma@);
                    assert(key_is(pre[k], language@, lemma@));
                    if k != i {
                        if k < i {
                            assert(!key_is(pre[i as int], pre[k].language@, pre[k].lemma@));
                        } else {
                            assert(!key_is(pre[k], pre[i as int].language@, pre[i as int].lemma@));
                        }
                    }
                    assert(idx_of(pre, language@, lemma@) == i as int);
                }
                let has_form = contains_str(&self.words[i].forms_spoken, form_spoken);
                let mut forms = clone_strings(&self.words[i].forms_spoken);
                if !has_form {
                    forms.push(string_clone(form_spoken));
                    proof {
                        assert(forms.deep_view() =~= e_old.forms_spoken.deep_view().push(
                            form_spoken@,
                        ));
                    }
                }
                let new_count: i32 = if self.words[i].usage_count < i32::MAX {
                    self.words[i].usage_count + 1
                } else {
                    self.words[i].usage_count
                };
                let will_master: bool = new_count >= MASTERY_THRESHOLD && !contains_str(
                    &self.words[i].tags,
                    "mastered",
                ) && !contains_str(&self.words[i].tags, "needs-practice");
                let tags: Vec<String> = if will_master {
                    vec_one("mastered")
                } else {
                    clone_strings(&self.words[i].tags)
                };
                let mastered: bool = if will_master {
                    true
                } else {
                    self.words[i].mastered
                };
                proof {
                    if will_master {
                        assert(tags.deep_view() =~= seq!["mastered"@]);
                    }
                }
                let entry = VocabWord {
                    id: self.words[i].id,
                    language: string_clone(self.words[i].language.as_str()),
                    lemma: string_clone(self.words[i].lemma.as_str()),
                    forms_spoken: forms,
                    first_seen_at: self.words[i].first_seen_at,
                    last_seen_at: timestamp,
                    usage_count: new_count,
                    mastered,
                    tags,
                };
                self.words[i] = entry;
                proof {
                    assert(bumped_entry(self.words@[i as int], e_old, form_spoken@, timestamp as int));
                    assert(forall|a: int, b: int|
                        0 <= a < b < self.words@.len() ==> !key_is(
                            self.words@[b],
                            self.words@[a].language@,
                            self.words@[a].lemma@,
                        ));
                }
                false
            },
        }
    }
}

/// A one-element string vector.
fn vec_one(s: &str) -> (r: Vec<String>)
    ensures
        r.deep_view() == seq![s@],
{
    let mut r: Vec<String> = Vec::new();
    r.push(string_clone(s));
    proof {
        assert(r.deep_view() =~= seq![s@]);
    }
    r
}

/// A copy of a string vector.
fn clone_strings(v: &Vec<String>) -> (r: Vec<String>)
    ensures
        r.deep_view() == v.deep_view(),
{
    let n = v.len();
    let mut r: Vec<String> = Vec::new();
    let mut i: usize = 0;
    while i < n
        invariant
            0 <= i <= n == v@.len(),
            r.deep_view() == v.deep_view().take(i as int),
        decreases n - i,
    {
        let ghost prefix = r.deep_view();
        r.push(string_clone(v[i].as_str()));
        proof {
            assert(r.deep_view() =~= prefix.push(v@[i as int]@));
            assert(v.deep_view().take(i as int + 1) =~= v.deep_view().take(i as int).push(
                v@[i as int]@,
            ));
        }
        i = i + 1;
    }
    proof {
        assert(v.deep_view().take(n as int) =~= v.deep_view());
    }
    r
}

/// Law: `record_word` reports a lemma as new exactly when the vocabulary
/// held no entry for that (language, lemma) pair before the call.
pub proof fn record_word_new_iff_absent(
    pre: Seq<VocabWord>,
    post: Seq<VocabWord>,
    pre_next_id: int,
    lang: Seq<char>,
    lemma: Seq<char>,
    form: Seq<char>,
    ts: int,
    is_new: bool,
)
    requires
        record_word_post(pre, post, pre_next_id, lang, lemma, form, ts, is_new),
    ensures
        is_new == !contains_key(pre, lang, lemma),
{
}

/// Law: after any recording the recorded key is present, and every key
/// present before stays present. Together with
/// `record_word_new_iff_absent` this means a given (language, lemma)
/// pair is reported new at most once over any sequence of recordings,
/// whatever surface forms are supplied.
pub proof fn record_word_keeps_keys(
    pre: Seq<VocabWord>,
    post: Seq<VocabWord>,
    pre_next_id: int,
    lang: Seq<char>,
    lemma: Seq<char>,
    form: Seq<char>,
    ts: int,
    is_new: bool,
    lang2: Seq<char>,
    lemma2: Seq<char>,
)
    requires
        record_word_post(pre, post, pre_next_id, lang, lemma, form, ts, is_new),
    ensures
        contains_key(post, lang, lemma),
        contains_key(pre, lang2, lemma2) ==> contains_key(post, lang2, lemma2),
{
    if is_new {
        assert(key_is(post[pre.len() as int], lang, lemma));
        if contains_key(pre, lang2, lemma2) {
            let j = idx_of(pre, lang2, lemma2);
            assert(post.subrange(0, pre.len() as int)[j] == post[j]);
            assert(key_is(post[j], lang2, lemma2));
        }
    } else {
        let i = idx_of(pre, lang, lemma);
        assert(key_is(pre[i], lang, lemma));
        assert(key_is(post[i], lang, lemma));
        if contains_key(pre, lang2, lemma2) {
            let j = idx_of(pre, lang2, lemma2);
            assert(key_is(post[j], lang2, lemma2));
        }
    }
}

/// Law: a recording changes the key set by at most adding the recorded
/// key: afterwards a key is present exactly when it was present before
/// or is the one just recorded.
pub proof fn record_word_only_adds_key(
    pre: Seq<VocabWord>,
    post: Seq<VocabWord>,
    pre_next_id: int,
    lang: Seq<char>,
    lemma: Seq<char>,
    form: Seq<char>,
    ts: int,
    is_new: bool,
)
    requires
        record_word_post(pre, post, pre_next_id, lang, lemma, form, ts, is_new),
    ensures
        forall|l2: Seq<char>, m2: Seq<char>|
            #[trigger] contains_key(post, l2, m2) <==> (contains_key(pre, l2, m2) || (l2 == lang
                && m2 == lemma)),
{
    assert forall|l2: Seq<char>, m2: Seq<char>| #[trigger]
        contains_key(post, l2, m2) <==> (contains_key(pre, l2, m2) || (l2 == lang
        && m2 == lemma)) by {
        if is_new {
            if contains_key(post, l2, m2) {
                let k = idx_of(post, l2, m2);
                if k < pre.len() {
                    assert(post.subrange(0, pre.len() as int)[k] == post[k]);
                    assert(key_is(pre[k], l2, m2));
                } else {
                    assert(l2 == lang && m2 == lemma);
                }
            }
            if contains_key(pre, l2, m2) {
                let k = idx_of(pre, l2, m2);
                assert(post.subrange(0, pre.len() as int)[k] == post[k]);
                assert(key_is(post[k], l2, m2));
            }
            if l2 == lang && m2 == lemma {
                assert(key_is(post[pre.len() as int], l2, m2));
            }
        } else {
            let i = idx_of(pre, lang, lemma);
            assert(key_is(pre[i], lang, lemma));
            assert(forall|k: int|
                0 <= k < pre.len() ==> #[trigger] post[k].language@ == pre[k].language@
                    && post[k].lemma@ == pre[k].lemma@);
            if contains_key(post, l2, m2) {
                let k = idx_of(post, l2, m2);
                assert(key_is(pre[k], l2, m2));
            }
            if contains_key(pre, l2, m2) {
                let k = idx_of(pre, l2, m2);
                assert(key_is(post[k], l2, m2));
            }
        }
    }
}

/// Law: recording a pair that was reported new, then recording the same
/// pair again, with any surface form and at any later time, reports it
/// as already known.
pub proof fn record_word_new_only_once(
    pre: Seq<VocabWord>,
    mid: Seq<VocabWord>,
    post: Seq<VocabWord>,
    nid1: int,
    nid2: int,
    lang: Seq<char>,
    lemma: Seq<char>,
    form1: Seq<char>,
    form2: Seq<char>,
    ts1: int,
    ts2: int,
    new1: bool,
    new2: bool,
)
    requires
        record_word_post(pre, mid, nid1, lang, lemma, form1, ts1, new1),
        record_word_post(mid, post, nid2, lang, lemma, form2, ts2, new2),
    ensures
        !new2,
{
    record_word_keeps_keys(pre, mid, nid1, lang, lemma, form1, ts1, new1, lang, lemma);
}

/// Law: a recording that leaves an untagged entry's usage count below
/// the mastery threshold leaves it untagged and unmastered.
pub proof fn record_word_below_threshold_untagged(
    pre: Seq<VocabWord>,
    post: Seq<VocabWord>,
    pre_next_id: int,
    lang: Seq<char>,
    lemma: Seq<char>,
    form: Seq<char>,
    ts: int,
    is_new: bool,
)
    requires
        record_word_post(pre, post, pre_next_id, lang, lemma, form, ts, is_new),
        contains_key(pre, lang, lemma),
        pre[idx_of(pre, lang, lemma)].tags.deep_view() == Seq::<Seq<char>>::empty(),
        bump(pre[idx_of(pre, lang, lemma)].usage_count) < MASTERY_THRESHOLD,
    ensures
        post[idx_of(pre, lang, lemma)].tags.deep_view() == Seq::<Seq<char>>::empty(),
        post[idx_of(pre, lang, lemma)].mastered == pre[idx_of(pre, lang, lemma)].mastered,
        post[idx_of(pre, lang, lemma)].usage_count == bump(
            pre[idx_of(pre, lang, lemma)].usage_count,
        ),
{
}

/// Law: the recording that brings an untagged entry's usage count up to
/// the mastery threshold tags it "mastered".
pub proof fn record_word_threshold_masters(
    pre: Seq<VocabWord>,
    post: Seq<VocabWord>,
    pre_next_id: int,
    lang: Seq<char>,
    lemma: Seq<char>,
    form: Seq<char>,
    ts: int,
    is_new: bool,
)
    requires
        record_word_post(pre, post, pre_next_id, lang, lemma, form, ts, is_new),
        contains_key(pre, lang, lemma),
        pre[idx_of(pre, lang, lemma)].tags.deep_view() == Seq::<Seq<char>>::empty(),
        bump(pre[idx_of(pre, lang, lemma)].usage_count) >= MASTERY_THRESHOLD,
    ensures
        post[idx_of(pre, lang, lemma)].tags.deep_view() == seq!["mastered"@],
        post[idx_of(pre, lang, lemma)].mastered,
{
    let i = idx_of(pre, lang, lemma);
    assert(!has_tag(pre[i].tags.deep_view(), "mastered"@));
    assert(!has_tag(pre[i].tags.deep_view(), "needs-practice"@));
}

/// Law: an entry the user tagged "needs-practice" is never auto-tagged,
/// however often it is recorded.
pub proof fn record_word_needs_practice_never_auto(
    pre: Seq<VocabWord>,
    post: Seq<VocabWord>,
    pre_next_id: int,
    lang: Seq<char>,
    lemma: Seq<char>,
    form: Seq<char>,
    ts: int,
    is_new: bool,
)
    requires
        record_word_post(pre, post, pre_next_id, lang, lemma, form, ts, is_new),
        contains_key(pre, lang, lemma),
        has_tag(pre[idx_of(pre, lang, lemma)].tags.deep_view(), "needs-practice"@),
    ensures
        post[idx_of(pre, lang, lemma)].tags.deep_view() == pre[idx_of(
            pre,
            lang,
            lemma,
        )].tags.deep_view(),
        post[idx_of(pre, lang, lemma)].mastered == pre[idx_of(pre, lang, lemma)].mastered,
{
}

/// Whether an entry belongs to the given language.
pub open spec fn in_lang(w: VocabWord, lang: Seq<char>) -> bool {
    w.language@ == lang
}

/// How many entries belong to the given language.
pub open spec fn count_lang(ws: Seq<VocabWord>, lang: Seq<char>) -> int
    decreases ws.len(),
{
    if ws.len() == 0 {
        0
    } else {
        count_lang(ws.drop_last(), lang) + if in_lang(ws.last(), lang) {
            1int
        } else {
            0int
        }
    }
}

/// How many entries of the given language are mastered.
pub open spec fn count_mastered(ws: Seq<VocabWord>, lang: Seq<char>) -> int
    decreases ws.len(),
{
    if ws.len() == 0 {
        0
    } else {
        count_mastered(ws.drop_last(), lang) + if in_lang(ws.last(), lang) && ws.last().mastered {
            1int
        } else {
            0int
        }
    }
}

/// How many entries of the given language were first seen at or after
/// the cutoff time.
pub open spec fn count_seen_since(ws: Seq<VocabWord>, lang: Seq<char>, cutoff: int) -> int
    decreases ws.len(),
{
    if ws.len() == 0 {
        0
    } else {
        count_seen_since(ws.drop_last(), lang, cutoff) + if in_lang(ws.last(), lang)
            && ws.last().first_seen_at >= cutoff {
            1int
        } else {
            0int
        }
    }
}

/// Seconds in one week.
pub const WEEK_SECONDS: i64 = 604800;

impl VocabStore {
    /// Delete the entry for (language, lemma); deleting an absent entry
    /// changes nothing.
    pub fn delete_word(&mut self, lemma: &str, language: &str)
        requires
            old(self).wf(),
        ensures
            final(self).wf(),
            final(self).next_id == old(self).next_id,
            !contains_key(final(self).words@, language@, lemma@),
            contains_key(old(self).words@, language@, lemma@) ==> final(self).words@ == old(
                self,
            ).words@.remove(idx_of(old(self).words@, language@, lemma@)),
            !contains_key(old(self).words@, language@, lemma@) ==> final(self).words@ == old(
                self,
            ).words@,
    {
        let ghost pre = self.words@;
        match self.find_entry(lemma, language) {
            None => {},
            Some(i) => {
                proof {
                    lemma_found_is_idx_of(pre, language@, lemma@, i as int);
                }
                self.words.remove(i);
                proof {
                    assert forall|k: int| 0 <= k < self.words@.len() implies !key_is(
                        self.words@[k],
                        language@,
                        lemma@,
                    ) by {
                        if k < i {
                            assert(self.words@[k] == pre[k]);
                            if key_is(pre[k], language@, lemma@) {
                                assert(key_is(pre[i as int], pre[k].language@, pre[k].lemma@));
                            }
                        } else {
                            assert(self.words@[k] == pre[k + 1]);
                            if key_is(pre[k + 1], language@, lemma@) {
                                assert(key_is(pre[k + 1], pre[i as int].language@, pre[
                                    i as int
                                ].lemma@));
                            }
                        }
                    }
                }
            },
        }
    }

    /// Flip the mastered flag of the entry for (language, lemma); tags
    /// are left as they are. Returns the new flag, or nothing when the
    /// entry does not exist.
    pub fn toggle_mastered(&mut self, lemma: &str, language: &str) -> (r: Option<bool>)
        requires
            old(self).wf(),
        ensures
            final(self).wf(),
            final(self).next_id == old(self).next_id,
            r is None <==> !contains_key(old(self).words@, language@, lemma@),
            r is None ==> final(self).words@ == old(self).words@,
            r is Some ==> ({
                let i = idx_of(old(self).words@, language@, lemma@);
                let e_old = old(self).words@[i];
                let e_new = final(self).words@[i];
                &&& r == Some(!e_old.mastered)
                &&& final(self).words@.len() == old(self).words@.len()
                &&& e_new.mastered == !e_old.mastered
                &&& e_new.id == e_old.id
                &&& e_new.language@ == e_old.language@
                &&& e_new.lemma@ == e_old.lemma@
                &&& e_new.forms_spoken.deep_view() == e_old.forms_spoken.deep_view()
                &&& e_new.first_seen_at == e_old.first_seen_at
                &&& e_new.last_seen_at == e_old.last_seen_at
                &&& e_new.usage_count == e_old.usage_count
                &&& e_new.tags.deep_view() == e_old.tags.deep_view()
                &&& forall|j: int|
                    0 <= j < old(self).words@.len() && j != i ==> final(self).words@[j] == old(
                        self,
                    ).words@[j]
            }),
    {
        let ghost pre = self.words@;
        match self.find_entry(lemma, language) {
            None => None,
            Some(i) => {
                proof {
                    lemma_found_is_idx_of(pre, language@, lemma@, i as int);
                }
                let e_old = &self.words[i];
                let flipped = !e_old.mastered;
                let entry = VocabWord {
                    id: e_old.id,
                    language: string_clone(e_old.language.as_str()),
                    lemma: string_clone(e_old.lemma.as_str()),
                    forms_spoken: clone_strings(&e_old.forms_spoken),
                    first_seen_at: e_old.first_seen_at,
                    last_seen_at: e_old.last_seen_at,
                    usage_count: e_old.usage_count,
                    mastered: flipped,
                    tags: clone_strings(&e_old.tags),
                };
                self.words[i] = entry;
                Some(flipped)
            },
        }
    }

    /// Put the single tag `tag` on the entry for (language, lemma):
    /// tags are mutually exclusive, so any existing tags are cleared
    /// first. The mastered flag follows whether the new tag is
    /// "mastered". Returns the new tag list, or nothing when the entry
    /// does not exist.
    pub fn add_tag(&mut self, lemma: &str, language: &str, tag: &str) -> (r: Option<Vec<String>>)
        requires
            old(self).wf(),
        ensures
            final(self).wf(),
            final(self).next_id == old(self).next_id,
            r is None <==> !contains_key(old(self).words@, language@, lemma@),
            r is None ==> final(self).words@ == old(self).words@,
            r is Some ==> ({
                let i = idx_of(old(self).words@, language@, lemma@);
                let e_old = old(self).words@[i];
                let e_new = final(self).words@[i];
                &&& r->0.deep_view() == seq![tag@]
                &&& final(self).words@.len() == old(self).words@.len()
                &&& e_new.tags.deep_view() == seq![tag@]
                &&& e_new.mastered == (tag@ == "mastered"@)
                &&& e_new.id == e_old.id
                &&& e_new.language@ == e_old.language@
                &&& e_new.lemma@ == e_old.lemma@
                &&& e_new.forms_spoken.deep_view() == e_old.forms_spoken.deep_view()
                &&& e_new.first_seen_at == e_old.first_seen_at
                &&& e_new.last_seen_at == e_old.last_seen_at
                &&& e_new.usage_count == e_old.usage_count
                &&& forall|j: int|
                    0 <= j < old(self).words@.len() && j != i ==> final(self).words@[j] == old(
                        self,
                    ).words@[j]
            }),
    {
        let ghost pre = self.words@;
        match self.find_entry(lemma, language) {
            None => None,
            Some(i) => {
                proof {
                    lemma_found_is_idx_of(pre, language@, lemma@, i as int);
                }
                let new_tags = vec_one(tag);
                let mastered = str_eq(tag, "mastered");
                let e_old = &self.words[i];
                let entry = VocabWord {
                    id: e_old.id,
                    language: string_clone(e_old.language.as_str()),
                    lemma: string_clone(e_old.lemma.as_str()),
                    forms_spoken: clone_strings(&e_old.forms_spoken),
                    first_seen_at: e_old.first_seen_at,
                    last_seen_at: e_old.last_seen_at,
                    usage_count: e_old.usage_count,
                    mastered,
                    tags: new_tags,
                };
                self.words[i] = entry;
                Some(vec_one(tag))
            },
        }
    }

    /// Remove the tag `tag` from the entry for (language, lemma); the
    /// mastered flag follows whether a "mastered" tag remains. Returns
    /// the remaining tags, or nothing when the entry does not exist.
    pub fn remove_tag(&mut self, lemma: &str, language: &str, tag: &str) -> (r: Option<
        Vec<String>,
    >)
        requires
            old(self).wf(),
        ensures
            final(self).wf(),
            final(self).next_id == old(self).next_id,
            r is None <==> !contains_key(old(self).words@, language@, lemma@),
            r is None ==> final(self).words@ == old(self).words@,
            r is Some ==> ({
                let i = idx_of(old(self).words@, language@, lemma@);
                let e_old = old(self).words@[i];
                let e_new = final(self).words@[i];
                let kept = tags_without(e_old.tags.deep_view(), tag@);
                &&& r->0.deep_view() == kept
                &&& final(self).words@.len() == old(self).words@.len()
                &&& e_new.tags.deep_view() == kept
                &&& e_new.mastered == has_tag(kept, "mastered"@)
                &&& e_new.id == e_old.id
                &&& e_new.language@ == e_old.language@
                &&& e_new.lemma@ == e_old.lemma@
                &&& e_new.forms_spoken.deep_view() == e_old.forms_spoken.deep_view()
                &&& e_new.first_seen_at == e_old.first_seen_at
                &&& e_new.last_seen_at == e_old.last_seen_at
                &&& e_new.usage_count == e_old.usage_count
                &&& forall|j: int|
                    0 <= j < old(self).words@.len() && j != i ==> final(self).words@[j] == old(
                        self,
                    ).words@[j]
            }),
    {
        let ghost pre = self.words@;
        match self.find_entry(lemma, language) {
            None => None,
            Some(i) => {
                proof {
                    lemma_found_is_idx_of(pre, language@, lemma@, i as int);
                }
                let kept = retain_not_eq(&self.words[i].tags, tag);
                let mastered = contains_str(&kept, "mastered");
                let e_old = &self.words[i];
                let entry = VocabWord {
                    id: e_old.id,
                    language: string_clone(e_old.language.as_str()),
                    lemma: string_clone(e_old.lemma.as_str()),
                    forms_spoken: clone_strings(&e_old.forms_spoken),
                    first_seen_at: e_old.first_seen_at,
                    last_seen_at: e_old.last_seen_at,
                    usage_count: e_old.usage_count,
                    mastered,
                    tags: retain_not_eq(&e_old.tags, tag),
                };
                self.words[i] = entry;
                Some(kept)
            },
        }
    }

    /// Vocabulary statistics for one language at time `now_ts`: total
    /// entries, mastered entries, and entries first seen within the
    /// last week.
    pub fn get_vocab_stats(&self, language: &str, now_ts: i64) -> (r: VocabStats)
        requires
            now_ts >= 0,
            self.words@.len() <= i64::MAX,
        ensures
            r.total_words == count_lang(self.words@, language@),
            r.mastered_words == count_mastered(self.words@, language@),
            r.words_this_week == count_seen_since(
                self.words@,
                language@,
                now_ts - WEEK_SECONDS,
            ),
    {
        let cutoff: i64 = now_ts - WEEK_SECONDS;
        let n = self.words.len();
        let mut total: usize = 0;
        let mut mastered: usize = 0;
        let mut this_week: usize = 0;
        let mut i: usize = 0;
        proof {
            assert(self.words@.take(0) =~= Seq::<VocabWord>::empty());
        }
        while i < n
            invariant
                0 <= i <= n == self.words@.len(),
                total <= i,
                mastered <= i,
                this_week <= i,
                total == count_lang(self.words@.take(i as int), language@),
                mastered == count_mastered(self.words@.take(i as int), language@),
                this_week == count_seen_since(self.words@.take(i as int), language@, cutoff as int),
            decreases n - i,
        {
            proof {
                assert(self.words@.take(i as int + 1).drop_last() =~= self.words@.take(i as int));
                assert(self.words@.take(i as int + 1).last() == self.words@[i as int]);
            }
            if str_eq(self.words[i].language.as_str(), language) {
                total = total + 1;
                if self.words[i].mastered {
                    mastered = mastered + 1;
                }
                if self.words[i].first_seen_at >= cutoff {
                    this_week = this_week + 1;
                }
            }
            i = i + 1;
        }
        proof {
            assert(self.words@.take(n as int) =~= self.words@);
        }
        VocabStats {
            total_words: total as i64,
            mastered_words: mastered as i64,
            words_this_week: this_week as i64,
        }
    }
}

/// In a well-formed store, any index whose entry has the key is the
/// index `idx_of` picks.
proof fn lemma_found_is_idx_of(ws: Seq<VocabWord>, lang: Seq<char>, lemma: Seq<char>, i: int)
    requires
        0 <= i < ws.len(),
        key_is(ws[i], lang, lemma),
        forall|a: int, b: int|
            0 <= a < b < ws.len() ==> !key_is(ws[b], ws[a].language@, ws[a].lemma@),
    ensures
        contains_key(ws, lang, lemma),
        idx_of(ws, lang, lemma) == i,
{
    assert(contains_key(ws, lang, lemma));
    let k = idx_of(ws, lang, lemma);
    assert(key_is(ws[k], lang, lemma));
    if k < i {
        assert(!key_is(ws[i], ws[k].language@, ws[k].lemma@));
    } else if i < k {
        assert(!key_is(ws[k], ws[i].language@, ws[i].lemma@));
    }
}

/// The tags of `tags` other than `tag`, in order.
pub open spec fn tags_without(tags: Seq<Seq<char>>, tag: Seq<char>) -> Seq<Seq<char>>
    decreases tags.len(),
{
    if tags.len() == 0 {
        Seq::empty()
    } else {
        let rest = tags_without(tags.drop_last(), tag);
        if tags.last() != tag {
            rest.push(tags.last())
        } else {
            rest
        }
    }
}

/// The strings of `v` other than `s`, in order.
fn retain_not_eq(v: &Vec<String>, s: &str) -> (r: Vec<String>)
    ensures
        r.deep_view() == tags_without(v.deep_view(), s@),
{
    let n = v.len();
    let mut r: Vec<String> = Vec::new();
    let mut i: usize = 0;
    proof {
        assert(v.deep_view().take(0) =~= Seq::<Seq<char>>::empty());
    }
    while i < n
        invariant
            0 <= i <= n == v@.len(),
            v.deep_view().len() == n,
            r.deep_view() == tags_without(v.deep_view().take(i as int), s@),
        decreases n - i,
    {
        proof {
            assert(v.deep_view().take(i as int + 1).drop_last() =~= v.deep_view().take(i as int));
            assert(v.deep_view().take(i as int + 1).last() == v.deep_view()[i as int]);
            assert(v.deep_view()[i as int] == v@[i as int]@);
        }
        let ghost prefix = r.deep_view();
        if !str_eq(v[i].as_str(), s) {
            r.push(string_clone(v[i].as_str()));
            proof {
                assert(r.deep_view() =~= prefix.push(v.deep_view()[i as int]));
            }
        }
        i = i + 1;
    }
    proof {
        assert(v.deep_view().take(n as int) =~= v.deep_view());
    }
    r
}

/// Whether two entries agree in every field.
pub open spec fn entry_like(a: VocabWord, b: VocabWord) -> bool {
    &&& a.id == b.id
    &&& a.language@ == b.language@
    &&& a.lemma@ == b.lemma@
    &&& a.forms_spoken.deep_view() == b.forms_spoken.deep_view()
    &&& a.first_seen_at == b.first_seen_at
    &&& a.last_seen_at == b.last_seen_at
    &&& a.usage_count == b.usage_count
    &&& a.mastered == b.mastered
    &&& a.tags.deep_view() == b.tags.deep_view()
}

/// The listing order: most used first, most recently seen first among
/// equally used entries.
pub open spec fn listed_before(a: VocabWord, b: VocabWord) -> bool {
    ||| a.usage_count > b.usage_count
    ||| (a.usage_count == b.usage_count && a.last_seen_at >= b.last_seen_at)
}

/// A field-for-field copy of an entry.
fn clone_entry(w: &VocabWord) -> (r: VocabWord)
    ensures
        entry_like(r, *w),
{
    VocabWord {
        id: w.id,
        language: string_clone(w.language.as_str()),
        lemma: string_clone(w.lemma.as_str()),
        forms_spoken: clone_strings(&w.forms_spoken),
        first_seen_at: w.first_seen_at,
        last_seen_at: w.last_seen_at,
        usage_count: w.usage_count,
        mastered: w.mastered,
        tags: clone_strings(&w.tags),
    }
}

impl VocabStore {
    /// The vocabulary of one language: a copy of each entry of that
    /// language, most used first, most recently seen first among
    /// equally used entries.
    pub fn get_user_vocab(&self, language: &str) -> (r: Vec<VocabWord>)
        requires
            self.wf(),
        ensures
            r@.len() == count_lang(self.words@, language@),
            forall|a: int, b: int|
                0 <= a < b < r@.len() ==> listed_before(r@[a], r@[b]),
            forall|k: int|
                0 <= k < r@.len() ==> {
                    &&& (#[trigger] r@[k]).language@ == language@
                    &&& contains_key(self.words@, language@, r@[k].lemma@)
                    &&& entry_like(r@[k], self.words@[idx_of(self.words@, language@, r@[k].lemma@)])
                },
            forall|a: int, b: int| 0 <= a < b < r@.len() ==> r@[a].lemma@ != r@[b].lemma@,
            forall|j: int|
                0 <= j < self.words@.len() && (#[trigger] self.words@[j]).language@ == language@
                    ==> exists|k: int| 0 <= k < r@.len() && (#[trigger] r@[k]).lemma@
                    == self.words@[j].lemma@,
    {
        let n = self.words.len();
        let mut r: Vec<VocabWord> = Vec::new();
        let mut i: usize = 0;
        proof {
            assert(self.words@.take(0) =~= Seq::<VocabWord>::empty());
        }
        while i < n
            invariant
                0 <= i <= n == self.words@.len(),
                self.wf(),
                r@.len() == count_lang(self.words@.take(i as int), language@),
                forall|a: int, b: int|
                    0 <= a < b < r@.len() ==> listed_before(r@[a], r@[b]),
                forall|k: int|
                    0 <= k < r@.len() ==> {
                        &&& (#[trigger] r@[k]).language@ == language@
                        &&& contains_key(self.words@, language@, r@[k].lemma@)
                        &&& entry_like(
                            r@[k],
                            self.words@[idx_of(self.words@, language@, r@[k].lemma@)],
                        )
                    },
                forall|a: int, b: int| 0 <= a < b < r@.len() ==> r@[a].lemma@ != r@[b].lemma@,
                forall|k: int|
                    0 <= k < r@.len() ==> idx_of(self.words@, language@, (#[trigger] r@[k]).lemma@)
                        < i,
                forall|j: int|
                    0 <= j < i && (#[trigger] self.words@[j]).language@ == language@ ==> exists|
                        k: int,
                    | 0 <= k < r@.len() && (#[trigger] r@[k]).lemma@ == self.words@[j].lemma@,
            decreases n - i,
        {
            proof {
                assert(self.words@.take(i as int + 1).drop_last() =~= self.words@.take(i as int));
                assert(self.words@.take(i as int + 1).last() == self.words@[i as int]);
            }
            if str_eq(self.words[i].language.as_str(), language) {
                let e = clone_entry(&self.words[i]);
                proof {
                    lemma_found_is_idx_of(self.words@, language@, lemma_view(e), i as int);
                }
                let m = r.len();
                let mut p: usize = 0;
                while p < m && (r[p].usage_count > e.usage_count || (r[p].usage_count
                    == e.usage_count && r[p].last_seen_at >= e.last_seen_at))
                    invariant
                        0 <= p <= m == r@.len(),
                        forall|q: int| 0 <= q < p ==> listed_before(r@[q], e),
                    decreases m - p,
                {
                    p = p + 1;
                }
                let ghost before = r@;
                proof {
                    if p < m {
                        assert(listed_before(e, before[p as int]));
                    }
                }
                r.insert(p, e);
                proof {
                    assert(r@ == before.insert(p as int, e));
                    assert forall|a: int, b: int|
                        0 <= a < b < r@.len() implies listed_before(r@[a], r@[b]) by {
                        if b < p {
                            assert(r@[a] == before[a] && r@[b] == before[b]);
                        } else if a < p && b == p {
                            assert(r@[a] == before[a] && r@[b] == e);
                        } else if a < p && b > p {
                            assert(r@[a] == before[a] && r@[b] == before[b - 1]);
                        } else if a == p {
                            assert(r@[a] == e && r@[b] == before[b - 1]);
                            if (p as int) < b - 1 {
                                assert(listed_before(before[p as int], before[b - 1]));
                            }
                        } else {
                            assert(r@[a] == before[a - 1] && r@[b] == before[b - 1]);
                        }
                    }
                    assert forall|k: int| 0 <= k < r@.len() implies {
                        &&& (#[trigger] r@[k]).language@ == language@
                        &&& contains_key(self.words@, language@, r@[k].lemma@)
                        &&& entry_like(
                            r@[k],
                            self.words@[idx_of(self.words@, language@, r@[k].lemma@)],
                        )
                    } by {
                        if k < p {
                            assert(r@[k] == before[k]);
                        } else if k == p {
                            assert(r@[k] == e);
                        } else {
                            assert(r@[k] == before[k - 1]);
                        }
                    }
                    assert forall|k: int|
                        0 <= k < r@.len() implies idx_of(
                        self.words@,
                        language@,
                        (#[trigger] r@[k]).lemma@,
                    ) < i + 1 by {
                        if k < p {
                            assert(r@[k] == before[k]);
                        } else if k == p {
                            assert(r@[k] == e);
                            assert(idx_of(self.words@, language@, e.lemma@) == i as int);
                        } else {
                            assert(r@[k] == before[k - 1]);
                        }
                    }
                    assert forall|a: int, b: int|
                        0 <= a < b < r@.len() implies r@[a].lemma@ != r@[b].lemma@ by {
                        let ea = if a < p {
                            before[a]
                        } else if a == p {
                            e
                        } else {
                            before[a - 1]
                        };
                        let eb = if b < p {
                            before[b]
                        } else if b == p {
                            e
                        } else {
                            before[b - 1]
                        };
                        assert(r@[a] == ea && r@[b] == eb);
                        if a == p || b == p {
                            let other = if a == p {
                                eb
                            } else {
                                ea
                            };
                            if other.lemma@ == e.lemma@ {
                                assert(entry_like(
                                    other,
                                    self.words@[idx_of(self.words@, language@, other.lemma@)],
                                ));
                                assert(idx_of(self.words@, language@, other.lemma@) == i as int);
                            }
                        }
                    }
                    assert forall|j: int|
                        0 <= j < i + 1 && (#[trigger] self.words@[j]).language@ == language@
                            implies exists|k: int|
                        0 <= k < r@.len() && (#[trigger] r@[k]).lemma@
                            == self.words@[j].lemma@ by {
                        if j == i {
                            assert(r@[p as int].lemma@ == self.words@[j].lemma@);
                        } else {
                            let k0 = choose|k0: int|
                                0 <= k0 < before.len() && before[k0].lemma@
                                    == self.words@[j].lemma@;
                            if k0 < p {
                                assert(r@[k0].lemma@ == self.words@[j].lemma@);
                            } else {
                                assert(r@[k0 + 1].lemma@ == self.words@[j].lemma@);
                            }
                        }
                    }
                }
            }
            i = i + 1;
        }
        proof {
            assert(self.words@.take(n as int) =~= self.words@);
        }
        r
    }
}

/// The view of an entry's lemma.
pub open spec fn lemma_view(w: VocabWord) -> Seq<char> {
    w.lemma@
}

impl VocabStore {
    /// The most practiced words of one language: up to `limit` entries,
    /// most used first.
    pub fn get_top_words(&self, language: &str, limit: usize) -> (r: Vec<crate::stats::TopWord>)
        requires
            self.wf(),
        ensures
            r@.len() == (if count_lang(self.words@, language@) <= limit {
                count_lang(self.words@, language@)
            } else {
                limit as int
            }),
            forall|a: int, b: int|
                0 <= a < b < r@.len() ==> r@[a].usage_count >= r@[b].usage_count,
            forall|k: int|
                0 <= k < r@.len() ==> {
                    &&& contains_key(self.words@, language@, (#[trigger] r@[k]).lemma@)
                    &&& ({
                        let e = self.words@[idx_of(self.words@, language@, r@[k].lemma@)];
                        &&& r@[k].usage_count == e.usage_count
                        &&& r@[k].forms_spoken.deep_view() == e.forms_spoken.deep_view()
                    })
                },
            forall|a: int, b: int| 0 <= a < b < r@.len() ==> r@[a].lemma@ != r@[b].lemma@,
    {
        let all = self.get_user_vocab(language);
        let n = all.len();
        let mut r: Vec<crate::stats::TopWord> = Vec::new();
        let mut k: usize = 0;
        while k < n && k < limit
            invariant
                0 <= k <= n == all@.len(),
                k <= limit,
                r@.len() == k,
                self.wf(),
                forall|a: int, b: int|
                    0 <= a < b < all@.len() ==> listed_before(all@[a], all@[b]),
                forall|j: int|
                    0 <= j < all@.len() ==> {
                        &&& contains_key(self.words@, language@, (#[trigger] all@[j]).lemma@)
                        &&& entry_like(
                            all@[j],
                            self.words@[idx_of(self.words@, language@, all@[j].lemma@)],
                        )
                    },
                forall|a: int, b: int| 0 <= a < b < all@.len() ==> all@[a].lemma@ != all@[b].lemma@,
                forall|j: int|
                    0 <= j < k ==> {
                        &&& (#[trigger] r@[j]).lemma@ == all@[j].lemma@
                        &&& r@[j].usage_count == all@[j].usage_count as int
                        &&& r@[j].forms_spoken.deep_view() == all@[j].forms_spoken.deep_view()
                    },
            decreases n - k,
        {
            r.push(
                crate::stats::TopWord {
                    lemma: string_clone(all[k].lemma.as_str()),
                    usage_count: all[k].usage_count as i64,
                    forms_spoken: clone_strings(&all[k].forms_spoken),
                },
            );
            k = k + 1;
        }
        proof {
            assert forall|a: int, b: int|
                0 <= a < b < r@.len() implies r@[a].usage_count >= r@[b].usage_count by {
                assert(listed_before(all@[a], all@[b]));
            }
        }
        r
    }
}

impl VocabStore {
    /// Rewrite an entry's lemma, as the punctuation-cleanup and
    /// re-lemmatization maintenance passes do. The rewrite happens only
    /// when the entry exists, the new lemma differs and is not empty,
    /// and no entry of the language already has the new lemma — a
    /// colliding rewrite changes nothing, since lemmas are unique per
    /// language. Returns whether the entry was rewritten.
    pub fn rewrite_lemma(&mut self, lemma: &str, language: &str, new_lemma: &str) -> (r: bool)
        requires
            old(self).wf(),
        ensures
            final(self).wf(),
            final(self).next_id == old(self).next_id,
            r == (contains_key(old(self).words@, language@, lemma@) && new_lemma@ != lemma@
                && new_lemma@.len() > 0 && !contains_key(old(self).words@, language@, new_lemma@)),
            !r ==> final(self).words@ == old(self).words@,
            r ==> ({
                let i = idx_of(old(self).words@, language@, lemma@);
                let e_old = old(self).words@[i];
                let e_new = final(self).words@[i];
                &&& final(self).words@.len() == old(self).words@.len()
                &&& e_new.lemma@ == new_lemma@
                &&& e_new.id == e_old.id
                &&& e_new.language@ == e_old.language@
                &&& e_new.forms_spoken.deep_view() == e_old.forms_spoken.deep_view()
                &&& e_new.first_seen_at == e_old.first_seen_at
                &&& e_new.last_seen_at == e_old.last_seen_at
                &&& e_new.usage_count == e_old.usage_count
                &&& e_new.mastered == e_old.mastered
                &&& e_new.tags.deep_view() == e_old.tags.deep_view()
                &&& forall|j: int|
                    0 <= j < old(self).words@.len() && j != i ==> final(self).words@[j] == old(
                        self,
                    ).words@[j]
            }),
    {
        let ghost pre = self.words@;
        if str_eq(new_lemma, lemma) || new_lemma.is_empty() {
            return false;
        }
        match self.find_entry(new_lemma, language) {
            Some(_) => false,
            None => {
                match self.find_entry(lemma, language) {
                    None => false,
                    Some(i) => {
                        proof {
                            lemma_found_is_idx_of(pre, language@, lemma@, i as int);
                        }
                        let e_old = &self.words[i];
                        let entry = VocabWord {
                            id: e_old.id,
                            language: string_clone(e_old.language.as_str()),
                            lemma: string_clone(new_lemma),
                            forms_spoken: clone_strings(&e_old.forms_spoken),
                            first_seen_at: e_old.first_seen_at,
                            last_seen_at: e_old.last_seen_at,
                            usage_count: e_old.usage_count,
                            mastered: e_old.mastered,
                            tags: clone_strings(&e_old.tags),
                        };
                        self.words[i] = entry;
                        proof {
                            assert forall|a: int, b: int|
                                0 <= a < b < self.words@.len() implies !key_is(
                                self.words@[b],
                                self.words@[a].language@,
                                self.words@[a].lemma@,
                            ) by {
                                if a == i as int {
                                    if key_is(self.words@[b], language@, new_lemma@) {
                                        assert(key_is(pre[b], language@, new_lemma@));
                                        assert(contains_key(pre, language@, new_lemma@));
                                    }
                                } else if b == i as int {
                                    if key_is(self.words@[b], pre[a].language@, pre[a].lemma@) {
                                        assert(pre[a].language@ == language@ && pre[a].lemma@
                                            == new_lemma@);
                                        assert(key_is(pre[a], language@, new_lemma@));
                                        assert(contains_key(pre, language@, new_lemma@));
                                    }
                                }
                            }
                        }
                        true
                    },
                }
            },
        }
    }
}

/// A vocabulary entry together with its custom translation, if the user
/// set one.
pub struct VocabWordWithTranslation {
    pub id: i64,
    pub language: String,
    pub lemma: String,
    pub forms_spoken: Vec<String>,
    pub first_seen_at: i64,
    pub last_seen_at: i64,
    pub usage_count: i32,
    pub mastered: bool,
    pub tags: Vec<String>,
    pub translation: Option<String>,
}

/// Whether the entry belongs to the language and was first seen at or
/// after the cutoff.
pub open spec fn recent_in(w: VocabWord, lang: Seq<char>, cutoff: int) -> bool {
    w.language@ == lang && w.first_seen_at >= cutoff
}

/// How many entries of the language were first seen at or after the
/// cutoff.
pub open spec fn count_recent(ws: Seq<VocabWord>, lang: Seq<char>, cutoff: int) -> int
    decreases ws.len(),
{
    if ws.len() == 0 {
        0
    } else {
        count_recent(ws.drop_last(), lang, cutoff) + if recent_in(ws.last(), lang, cutoff) {
            1int
        } else {
            0int
        }
    }
}

impl VocabStore {
    /// The entries of the language first seen at or after the cutoff,
    /// most recently discovered first.
    fn recent_entries(&self, language: &str, cutoff: i64) -> (r: Vec<VocabWord>)
        requires
            self.wf(),
        ensures
            r@.len() == count_recent(self.words@, language@, cutoff as int),
            forall|a: int, b: int|
                0 <= a < b < r@.len() ==> r@[a].first_seen_at >= r@[b].first_seen_at,
            forall|k: int|
                0 <= k < r@.len() ==> {
                    &&& (#[trigger] r@[k]).language@ == language@
                    &&& r@[k].first_seen_at >= cutoff
                    &&& contains_key(self.words@, language@, r@[k].lemma@)
                    &&& entry_like(r@[k], self.words@[idx_of(self.words@, language@, r@[k].lemma@)])
                },
            forall|a: int, b: int| 0 <= a < b < r@.len() ==> r@[a].lemma@ != r@[b].lemma@,
            forall|j: int|
                0 <= j < self.words@.len() && recent_in(
                    #[trigger] self.words@[j],
                    language@,
                    cutoff as int,
                ) ==> exists|k: int| 0 <= k < r@.len() && (#[trigger] r@[k]).lemma@
                    == self.words@[j].lemma@,
    {
        let n = self.words.len();
        let mut r: Vec<VocabWord> = Vec::new();
        let mut i: usize = 0;
        proof {
            assert(self.words@.take(0) =~= Seq::<VocabWord>::empty());
        }
        while i < n
            invariant
                0 <= i <= n == self.words@.len(),
                self.wf(),
                r@.len() == count_recent(self.words@.take(i as int), language@, cutoff as int),
                forall|a: int, b: int|
                    0 <= a < b < r@.len() ==> r@[a].first_seen_at >= r@[b].first_seen_at,
                forall|k: int|
                    0 <= k < r@.len() ==> {
                        &&& (#[trigger] r@[k]).language@ == language@
                        &&& r@[k].first_seen_at >= cutoff
                        &&& contains_key(self.words@, language@, r@[k].lemma@)
                        &&& entry_like(
                            r@[k],
                            self.words@[idx_of(self.words@, language@, r@[k].lemma@)],
                        )
                    },
                forall|a: int, b: int| 0 <= a < b < r@.len() ==> r@[a].lemma@ != r@[b].lemma@,
                forall|k: int|
                    0 <= k < r@.len() ==> idx_of(self.words@, language@, (#[trigger] r@[k]).lemma@)
                        < i,
                forall|j: int|
                    0 <= j < i && recent_in(#[trigger] self.words@[j], language@, cutoff as int)
                        ==> exists|k: int| 0 <= k < r@.len() && (#[trigger] r@[k]).lemma@
                        == self.words@[j].lemma@,
            decreases n - i,
        {
            proof {
                assert(self.words@.take(i as int + 1).drop_last() =~= self.words@.take(i as int));
                assert(self.words@.take(i as int + 1).last() == self.words@[i as int]);
            }
            if str_eq(self.words[i].language.as_str(), language) && self.words[i].first_seen_at
                >= cutoff {
                let e = clone_entry(&self.words[i]);
                proof {
                    lemma_found_is_idx_of(self.words@, language@, lemma_view(e), i as int);
                }
                let m = r.len();
                let mut p: usize = 0;
                while p < m && r[p].first_seen_at >= e.first_seen_at
                    invariant
                        0 <= p <= m == r@.len(),
                        forall|q: int| 0 <= q < p ==> r@[q].first_seen_at >= e.first_seen_at,
                    decreases m - p,
                {
                    p = p + 1;
                }
                let ghost before = r@;
                proof {
                    if p < m {
                        assert(before[p as int].first_seen_at < e.first_seen_at);
                    }
                }
                r.insert(p, e);
                proof {
                    assert(r@ == before.insert(p as int, e));
                    assert forall|a: int, b: int|
                        0 <= a < b < r@.len() implies r@[a].first_seen_at
                        >= r@[b].first_seen_at by {
                        if b < p {
                            assert(r@[a] == before[a] && r@[b] == before[b]);
                        } else if a < p && b == p {
                            assert(r@[a] == before[a] && r@[b] == e);
                        } else if a < p && b > p {
                            assert(r@[a] == before[a] && r@[b] == before[b - 1]);
                        } else if a == p {
                            assert(r@[a] == e && r@[b] == before[b - 1]);
                            if (p as int) < b - 1 {
                                assert(before[p as int].first_seen_at
                                    >= before[b - 1].first_seen_at);
                            }
                        } else {
                            assert(r@[a] == before[a - 1] && r@[b] == before[b - 1]);
                        }
                    }
                    assert forall|k: int| 0 <= k < r@.len() implies {
                        &&& (#[trigger] r@[k]).language@ == language@
                        &&& r@[k].first_seen_at >= cutoff
                        &&& contains_key(self.words@, language@, r@[k].lemma@)
                        &&& entry_like(
                            r@[k],
                            self.words@[idx_of(self.words@, language@, r@[k].lemma@)],
                        )
                    } by {
                        if k < p {
                            assert(r@[k] == before[k]);
                        } else if k == p {
                            assert(r@[k] == e);
                        } else {
                            assert(r@[k] == before[k - 1]);
                        }
                    }
                    assert forall|k: int|
                        0 <= k < r@.len() implies idx_of(
                        self.words@,
                        language@,
                        (#[trigger] r@[k]).lemma@,
                    ) < i + 1 by {
                        if k < p {
                            assert(r@[k] == before[k]);
                        } else if k == p {
                            assert(r@[k] == e);
                            assert(idx_of(self.words@, language@, e.lemma@) == i as int);
                        } else {
                            assert(r@[k] == before[k - 1]);
                        }
                    }
                    assert forall|a: int, b: int|
                        0 <= a < b < r@.len() implies r@[a].lemma@ != r@[b].lemma@ by {
                        let ea = if a < p {
                            before[a]
                        } else if a == p {
                            e
                        } else {
                            before[a - 1]
                        };
                        let eb = if b < p {
                            before[b]
                        } else if b == p {
                            e
                        } else {
                            before[b - 1]
                        };
                        assert(r@[a] == ea && r@[b] == eb);
                        if a == p || b == p {
                            let other = if a == p {
                                eb
                            } else {
                                ea
                            };
                            if other.lemma@ == e.lemma@ {
                                assert(entry_like(
                                    other,
                                    self.words@[idx_of(self.words@, language@, other.lemma@)],
                                ));
                                assert(idx_of(self.words@, language@, other.lemma@) == i as int);
                            }
                        }
                    }
                    assert forall|j: int|
                        0 <= j < i + 1 && recent_in(
                        #[trigger] self.words@[j],
                        language@,
                        cutoff as int,
                    ) implies exists|k: int|
                        0 <= k < r@.len() && (#[trigger] r@[k]).lemma@
                            == self.words@[j].lemma@ by {
                        if j == i {
                            assert(r@[p as int].lemma@ == self.words@[j].lemma@);
                        } else {
                            let k0 = choose|k0: int|
                                0 <= k0 < before.len() && before[k0].lemma@
                                    == self.words@[j].lemma@;
                            if k0 < p {
                                assert(r@[k0].lemma@ == self.words@[j].lemma@);
                            } else {
                                assert(r@[k0 + 1].lemma@ == self.words@[j].lemma@);
                            }
                        }
                    }
                }
            }
            i = i + 1;
        }
        proof {
            assert(self.words@.take(n as int) =~= self.words@);
        }
        r
    }

    /// The vocabulary of the language discovered at or after the cutoff
    /// time, most recently discovered first, at most `limit` entries,
    /// each joined with the user's custom translation into the primary
    /// language where one was set.
    pub fn get_recent_vocab(
        &self,
        translations: &TranslationStore,
        language: &str,
        primary_language: &str,
        cutoff: i64,
        limit: usize,
    ) -> (r: Vec<VocabWordWithTranslation>)
        requires
            self.wf(),
            translations.wf(),
        ensures
            r@.len() == (if count_recent(self.words@, language@, cutoff as int) <= limit {
                count_recent(self.words@, language@, cutoff as int)
            } else {
                limit as int
            }),
            forall|a: int, b: int|
                0 <= a < b < r@.len() ==> r@[a].first_seen_at >= r@[b].first_seen_at,
            forall|a: int, b: int| 0 <= a < b < r@.len() ==> r@[a].lemma@ != r@[b].lemma@,
            forall|k: int|
                0 <= k < r@.len() ==> {
                    let e = self.words@[idx_of(self.words@, language@, (#[trigger] r@[k]).lemma@)];
                    &&& r@[k].language@ == language@
                    &&& r@[k].first_seen_at >= cutoff
                    &&& contains_key(self.words@, language@, r@[k].lemma@)
                    &&& r@[k].id == e.id
                    &&& r@[k].lemma@ == e.lemma@
                    &&& r@[k].forms_spoken.deep_view() == e.forms_spoken.deep_view()
                    &&& r@[k].first_seen_at == e.first_seen_at
                    &&& r@[k].last_seen_at == e.last_seen_at
                    &&& r@[k].usage_count == e.usage_count
                    &&& r@[k].mastered == e.mastered
                    &&& r@[k].tags.deep_view() == e.tags.deep_view()
                    &&& (r@[k].translation is Some <==> tcontains(
                        translations.entries@,
                        r@[k].lemma@,
                        language@,
                        primary_language@,
                    ))
                    &&& (r@[k].translation matches Some(t) ==> t@ == translations.entries@[tidx_of(
                        translations.entries@,
                        r@[k].lemma@,
                        language@,
                        primary_language@,
                    )].custom_translation@)
                },
    {
        let recent = self.recent_entries(language, cutoff);
        let n = recent.len();
        let mut r: Vec<VocabWordWithTranslation> = Vec::new();
        let mut k: usize = 0;
        while k < n && k < limit
            invariant
                0 <= k <= n == recent@.len(),
                k <= limit,
                r@.len() == k,
                self.wf(),
                translations.wf(),
                forall|a: int, b: int|
                    0 <= a < b < recent@.len() ==> recent@[a].first_seen_at
                        >= recent@[b].first_seen_at,
                forall|a: int, b: int|
                    0 <= a < b < recent@.len() ==> recent@[a].lemma@ != recent@[b].lemma@,
                forall|j: int|
                    0 <= j < recent@.len() ==> {
                        &&& (#[trigger] recent@[j]).language@ == language@
                        &&& recent@[j].first_seen_at >= cutoff
                        &&& contains_key(self.words@, language@, recent@[j].lemma@)
                        &&& entry_like(
                            recent@[j],
                            self.words@[idx_of(self.words@, language@, recent@[j].lemma@)],
                        )
                    },
                forall|j: int|
                    0 <= j < k ==> {
                        let e = recent@[j];
                        &&& (#[trigger] r@[j]).lemma@ == e.lemma@
                        &&& r@[j].language@ == e.language@
                        &&& r@[j].id == e.id
                        &&& r@[j].forms_spoken.deep_view() == e.forms_spoken.deep_view()
                        &&& r@[j].first_seen_at == e.first_seen_at
                        &&& r@[j].last_seen_at == e.last_seen_at
                        &&& r@[j].usage_count == e.usage_count
                        &&& r@[j].mastered == e.mastered
                        &&& r@[j].tags.deep_view() == e.tags.deep_view()
                        &&& (r@[j].translation is Some <==> tcontains(
                            translations.entries@,
                            e.lemma@,
                            language@,
                            primary_language@,
                        ))
                        &&& (r@[j].translation matches Some(t) ==> t@
                            == translations.entries@[tidx_of(
                            translations.entries@,
                            e.lemma@,
                            language@,
                            primary_language@,
                        )].custom_translation@)
                    },
            decreases n - k,
        {
            let e = &recent[k];
            let translation = translations.get_custom_translation(
                e.lemma.as_str(),
                language,
                primary_language,
            );
            r.push(
                VocabWordWithTranslation {
                    id: e.id,
                    language: string_clone(e.language.as_str()),
                    lemma: string_clone(e.lemma.as_str()),
                    forms_spoken: clone_strings(&e.forms_spoken),
                    first_seen_at: e.first_seen_at,
                    last_seen_at: e.last_seen_at,
                    usage_count: e.usage_count,
                    mastered: e.mastered,
                    tags: clone_strings(&e.tags),
                    translation,
                },
            );
            k = k + 1;
        }
        r
    }
}

impl VocabStore {
    /// The vocabulary of one language carrying the given tag, in the
    /// same order as the full listing: most used first, most recently
    /// seen first among equally used entries.
    pub fn get_vocab_by_tag(&self, language: &str, tag: &str) -> (r: Vec<VocabWord>)
        requires
            self.wf(),
        ensures
            forall|a: int, b: int|
                0 <= a < b < r@.len() ==> listed_before(r@[a], r@[b]),
            forall|a: int, b: int| 0 <= a < b < r@.len() ==> r@[a].lemma@ != r@[b].lemma@,
            forall|k: int|
                0 <= k < r@.len() ==> {
                    &&& (#[trigger] r@[k]).language@ == language@
                    &&& has_tag(r@[k].tags.deep_view(), tag@)
                    &&& contains_key(self.words@, language@, r@[k].lemma@)
                    &&& entry_like(r@[k], self.words@[idx_of(self.words@, language@, r@[k].lemma@)])
                },
            forall|j: int|
                0 <= j < self.words@.len() && (#[trigger] self.words@[j]).language@ == language@
                    && has_tag(self.words@[j].tags.deep_view(), tag@) ==> exists|k: int|
                    0 <= k < r@.len() && (#[trigger] r@[k]).lemma@ == self.words@[j].lemma@,
    {
        let all = self.get_user_vocab(language);
        let n = all.len();
        let mut r: Vec<VocabWord> = Vec::new();
        let ghost mut srcs: Seq<int> = Seq::empty();
        let mut i: usize = 0;
        while i < n
            invariant
                0 <= i <= n == all@.len(),
                self.wf(),
                srcs.len() == r@.len(),
                forall|a: int| 0 <= a < srcs.len() ==> 0 <= #[trigger] srcs[a] < i,
                forall|a: int, b: int| 0 <= a < b < srcs.len() ==> srcs[a] < srcs[b],
                forall|a: int| 0 <= a < r@.len() ==> entry_like(#[trigger] r@[a], all@[srcs[a]]),
                forall|a: int|
                    0 <= a < r@.len() ==> has_tag((#[trigger] r@[a]).tags.deep_view(), tag@),
                forall|a: int, b: int|
                    0 <= a < b < all@.len() ==> listed_before(all@[a], all@[b]),
                forall|a: int, b: int|
                    0 <= a < b < all@.len() ==> all@[a].lemma@ != all@[b].lemma@,
                forall|j: int|
                    0 <= j < all@.len() ==> {
                        &&& (#[trigger] all@[j]).language@ == language@
                        &&& contains_key(self.words@, language@, all@[j].lemma@)
                        &&& entry_like(
                            all@[j],
                            self.words@[idx_of(self.words@, language@, all@[j].lemma@)],
                        )
                    },
                forall|j: int|
                    0 <= j < self.words@.len() && (#[trigger] self.words@[j]).language@ == language@
                        ==> exists|k: int| 0 <= k < all@.len() && (#[trigger] all@[k]).lemma@
                        == self.words@[j].lemma@,
                forall|j: int|
                    0 <= j < i && has_tag((#[trigger] all@[j]).tags.deep_view(), tag@) ==> exists|
                        a: int,
                    | 0 <= a < r@.len() && (#[trigger] r@[a]).lemma@ == all@[j].lemma@,
            decreases n - i,
        {
            if contains_str(&all[i].tags, tag) {
                let ghost before = r@;
                r.push(clone_entry(&all[i]));
                proof {
                    srcs = srcs.push(i as int);
                    assert(entry_like(r@[before.len() as int], all@[i as int]));
                    assert forall|a: int| 0 <= a < r@.len() implies entry_like(
                        #[trigger] r@[a],
                        all@[srcs[a]],
                    ) by {
                        if a < before.len() {
                            assert(r@[a] == before[a]);
                            assert(srcs[a] == srcs.drop_last()[a]);
                        }
                    }
                    assert forall|j: int|
                        0 <= j < i + 1 && has_tag((#[trigger] all@[j]).tags.deep_view(), tag@)
                            implies exists|a: int|
                        0 <= a < r@.len() && (#[trigger] r@[a]).lemma@ == all@[j].lemma@ by {
                        if j == i {
                            assert(r@[before.len() as int].lemma@ == all@[j].lemma@);
                        } else {
                            let a0 = choose|a0: int|
                                0 <= a0 < before.len() && (#[trigger] before[a0]).lemma@
                                    == all@[j].lemma@;
                            assert(r@[a0].lemma@ == all@[j].lemma@);
                        }
                    }
                }
            }
            i = i + 1;
        }
        proof {
            assert forall|a: int, b: int|
                0 <= a < b < r@.len() implies listed_before(r@[a], r@[b]) && r@[a].lemma@
                != r@[b].lemma@ by {
                assert(entry_like(r@[a], all@[srcs[a]]));
                assert(entry_like(r@[b], all@[srcs[b]]));
                assert(listed_before(all@[srcs[a]], all@[srcs[b]]));
            }
            assert forall|k: int| 0 <= k < r@.len() implies {
                &&& (#[trigger] r@[k]).language@ == language@
                &&& contains_key(self.words@, language@, r@[k].lemma@)
                &&& entry_like(r@[k], self.words@[idx_of(self.words@, language@, r@[k].lemma@)])
            } by {
                assert(entry_like(r@[k], all@[srcs[k]]));
            }
            assert forall|j: int|
                0 <= j < self.words@.len() && (#[trigger] self.words@[j]).language@ == language@
                    && has_tag(self.words@[j].tags.deep_view(), tag@) implies exists|k: int|
                0 <= k < r@.len() && (#[trigger] r@[k]).lemma@ == self.words@[j].lemma@ by {
                let k0 = choose|k0: int|
                    0 <= k0 < all@.len() && (#[trigger] all@[k0]).lemma@ == self.words@[j].lemma@;
                lemma_found_is_idx_of(self.words@, language@, self.words@[j].lemma@, j);
                assert(entry_like(all@[k0], self.words@[j]));
                assert(has_tag(all@[k0].tags.deep_view(), tag@));
            }
        }
        r
    }
}

/// Whether the entries have pairwise distinct (language, lemma) keys.
pub open spec fn keys_unique(ws: Seq<VocabWord>) -> bool {
    forall|i: int, j: int|
        0 <= i < j < ws.len() ==> !key_is(ws[j], ws[i].language@, ws[i].lemma@)
}

/// Law: a recording keeps the keys pairwise distinct.
pub proof fn record_word_keeps_keys_unique(
    pre: Seq<VocabWord>,
    post: Seq<VocabWord>,
    pre_next_id: int,
    lang: Seq<char>,
    lemma: Seq<char>,
    form: Seq<char>,
    ts: int,
    is_new: bool,
)
    requires
        keys_unique(pre),
        record_word_post(pre, post, pre_next_id, lang, lemma, form, ts, is_new),
    ensures
        keys_unique(post),
{
    if is_new {
        assert forall|i: int, j: int|
            0 <= i < j < post.len() implies !key_is(post[j], post[i].language@, post[i].lemma@) by {
            assert(post.subrange(0, pre.len() as int)[i] == post[i]);
            if j < pre.len() {
                assert(post.subrange(0, pre.len() as int)[j] == post[j]);
            } else {
                if key_is(post[j], post[i].language@, post[i].lemma@) {
                    assert(key_is(pre[i], lang, lemma));
                    assert(contains_key(pre, lang, lemma));
                }
            }
        }
    } else {
        let w = idx_of(pre, lang, lemma);
        assert forall|i: int, j: int|
            0 <= i < j < post.len() implies !key_is(post[j], post[i].language@, post[i].lemma@) by {
            assert(post[i].language@ == pre[i].language@ && post[i].lemma@ == pre[i].lemma@);
            assert(post[j].language@ == pre[j].language@ && post[j].lemma@ == pre[j].lemma@);
        }
    }
}

/// Whether each consecutive pair of states is one recording of the same
/// (language, lemma) pair, with some surface form at some time.
pub open spec fn recording_chain(states: Seq<Seq<VocabWord>>, lang: Seq<char>, lemma: Seq<char>) -> bool {
    forall|k: int|
        #![trigger states[k]]
        0 <= k < states.len() - 1 ==> exists|nid: int, form: Seq<char>, ts: int, is_new: bool|
            #[trigger] record_word_post(states[k], states[k + 1], nid, lang, lemma, form, ts, is_new)
}

/// The entry's state after the first `m - 1` recordings of the chain:
/// usage count `m - 1`, untagged below the mastery threshold, tagged
/// "mastered" at it.
proof fn lemma_chain_state(states: Seq<Seq<VocabWord>>, lang: Seq<char>, lemma: Seq<char>, m: int)
    requires
        1 <= m <= states.len(),
        m <= 21,
        keys_unique(states[0]),
        !contains_key(states[0], lang, lemma),
        recording_chain(states, lang, lemma),
    ensures
        keys_unique(states[m - 1]),
        m == 1 ==> !contains_key(states[0], lang, lemma),
        m >= 2 ==> ({
            let n = m - 1;
            let ws = states[m - 1];
            &&& contains_key(ws, lang, lemma)
            &&& ws[idx_of(ws, lang, lemma)].usage_count == n
            &&& n < MASTERY_THRESHOLD ==> ws[idx_of(ws, lang, lemma)].tags.deep_view()
                == Seq::<Seq<char>>::empty() && !ws[idx_of(ws, lang, lemma)].mastered
            &&& n == MASTERY_THRESHOLD ==> ws[idx_of(ws, lang, lemma)].tags.deep_view()
                == seq!["mastered"@] && ws[idx_of(ws, lang, lemma)].mastered
        }),
    decreases m,
{
    if m >= 2 {
        lemma_chain_state(states, lang, lemma, m - 1);
        let n = m - 1;
        let before = states[n - 1];
        let after = states[n];
        assert(0 <= n - 1 < states.len() - 1);
        assert(exists|nid: int, form: Seq<char>, ts: int, is_new: bool|
            #[trigger] record_word_post(
                states[n - 1],
                states[n],
                nid,
                lang,
                lemma,
                form,
                ts,
                is_new,
            ));
        let (nid, form, ts, is_new) = choose|nid: int, form: Seq<char>, ts: int, is_new: bool|
            #[trigger] record_word_post(
                states[n - 1],
                states[n],
                nid,
                lang,
                lemma,
                form,
                ts,
                is_new,
            );
        record_word_keeps_keys_unique(before, after, nid, lang, lemma, form, ts, is_new);
        if n == 1 {
            assert(is_new);
            assert(key_is(after.last(), lang, lemma));
            lemma_found_is_idx_of(after, lang, lemma, after.len() - 1);
            assert(after[idx_of(after, lang, lemma)].usage_count == 1);
        } else {
            assert(contains_key(before, lang, lemma));
            assert(!is_new);
            let i = idx_of(before, lang, lemma);
            assert(bumped_entry(after[i], before[i], form, ts));
            assert(before[i].usage_count == n - 1);
            assert(after[i].usage_count == n);
            assert(key_is(after[i], lang, lemma));
            lemma_found_is_idx_of(after, lang, lemma, i);
            if n < MASTERY_THRESHOLD {
                assert(bump(before[i].usage_count) == n < MASTERY_THRESHOLD);
                assert(!auto_masters(before[i]));
            }
            if n == MASTERY_THRESHOLD {
                assert(before[i].tags.deep_view() == Seq::<Seq<char>>::empty());
                assert(!has_tag(before[i].tags.deep_view(), "mastered"@));
                assert(!has_tag(before[i].tags.deep_view(), "needs-practice"@));
                assert(auto_masters(before[i]));
            }
        }
    }
}

/// Law: starting from a vocabulary with distinct keys that does not hold
/// the lemma, recording it n times gives it usage count n; through the
/// nineteenth recording it stays untagged and unmastered, and the
/// twentieth tags it "mastered".
pub proof fn repeated_recording_masters_at_threshold(
    states: Seq<Seq<VocabWord>>,
    lang: Seq<char>,
    lemma: Seq<char>,
)
    requires
        2 <= states.len() <= 21,
        keys_unique(states[0]),
        !contains_key(states[0], lang, lemma),
        recording_chain(states, lang, lemma),
    ensures
        ({
            let n = states.len() - 1;
            let ws = states.last();
            &&& keys_unique(ws)
            &&& contains_key(ws, lang, lemma)
            &&& ws[idx_of(ws, lang, lemma)].usage_count == n
            &&& n < MASTERY_THRESHOLD ==> ws[idx_of(ws, lang, lemma)].tags.deep_view()
                == Seq::<Seq<char>>::empty() && !ws[idx_of(ws, lang, lemma)].mastered
            &&& n == MASTERY_THRESHOLD ==> ws[idx_of(ws, lang, lemma)].tags.deep_view()
                == seq!["mastered"@] && ws[idx_of(ws, lang, lemma)].mastered
        }),
{
    lemma_chain_state(states, lang, lemma, states.len() as int);
    assert(states.last() == states[states.len() - 1]);
}

/// One step of the punctuation cleanup: entry `j`'s lemma is replaced
/// by its edge-stripped form when that differs, is not empty, and
/// collides with no existing key of the store at that moment; otherwise
/// the step changes nothing.
pub open spec fn cleanup_step(pre: Seq<VocabWord>, post: Seq<VocabWord>, j: int) -> bool {
    let cl = crate::tokenize::trimmed(pre[j].lemma@);
    if cl != pre[j].lemma@ && cl.len() > 0 && !contains_key(pre, pre[j].language@, cl) {
        &&& post.len() == pre.len()
        &&& post[j].lemma@ == cl
        &&& post[j].id == pre[j].id
        &&& post[j].language@ == pre[j].language@
        &&& post[j].forms_spoken.deep_view() == pre[j].forms_spoken.deep_view()
        &&& post[j].first_seen_at == pre[j].first_seen_at
        &&& post[j].last_seen_at == pre[j].last_seen_at
        &&& post[j].usage_count == pre[j].usage_count
        &&& post[j].mastered == pre[j].mastered
        &&& post[j].tags.deep_view() == pre[j].tags.deep_view()
        &&& forall|t: int| 0 <= t < pre.len() && t != j ==> post[t] == pre[t]
    } else {
        post == pre
    }
}

/// How many steps of a chain of states changed the store.
pub open spec fn changed_steps(chain: Seq<Seq<VocabWord>>) -> int
    decreases chain.len(),
{
    if chain.len() <= 1 {
        0
    } else {
        changed_steps(chain.drop_last()) + if chain.last() == chain[chain.len() - 2] {
            0int
        } else {
            1int
        }
    }
}

impl VocabStore {
    /// Strip stray punctuation off every stored lemma, entry by entry
    /// in store order: each entry's lemma is replaced by its
    /// edge-stripped form unless the result is empty, unchanged, or
    /// already another entry's lemma in that language. Returns how many
    /// entries were cleaned.
    pub fn clean_punctuation(&mut self) -> (r: i64)
        requires
            old(self).wf(),
            old(self).words@.len() <= i64::MAX,
        ensures
            final(self).wf(),
            final(self).next_id == old(self).next_id,
            final(self).words@.len() == old(self).words@.len(),
            exists|chain: Seq<Seq<VocabWord>>|
                {
                    &&& #[trigger] chain.len() == old(self).words@.len() + 1
                    &&& chain[0] == old(self).words@
                    &&& chain.last() == final(self).words@
                    &&& forall|j: int|
                        0 <= j < old(self).words@.len() ==> cleanup_step(
                            #[trigger] chain[j],
                            chain[j + 1],
                            j,
                        )
                    &&& r == changed_steps(chain)
                },
    {
        let n = self.words.len();
        let ghost first = self.words@;
        let ghost mut chain: Seq<Seq<VocabWord>> = seq![self.words@];
        let mut cleaned_count: i64 = 0;
        let mut j: usize = 0;
        while j < n
            invariant
                0 <= j <= n,
                n <= i64::MAX,
                self.wf(),
                self.next_id == old(self).next_id,
                self.words@.len() == n,
                first == old(self).words@,
                first.len() == n,
                chain.len() == j + 1,
                chain[0] == first,
                chain.last() == self.words@,
                forall|t: int| 0 <= t < j ==> cleanup_step(#[trigger] chain[t], chain[t + 1], t),
                cleaned_count == changed_steps(chain),
                0 <= cleaned_count <= j,
            decreases n - j,
        {
            let lemma_s = string_clone(self.words[j].lemma.as_str());
            let lang_s = string_clone(self.words[j].language.as_str());
            let cleaned = crate::tokenize::cleaned_lemma(lemma_s.as_str());
            let ghost pre = self.words@;
            proof {
                assert(key_is(pre[j as int], lang_s@, lemma_s@));
                lemma_found_is_idx_of(pre, lang_s@, lemma_s@, j as int);
            }
            let did = self.rewrite_lemma(lemma_s.as_str(), lang_s.as_str(), cleaned.as_str());
            proof {
                let post = self.words@;
                let prev_chain = chain;
                chain = prev_chain.push(post);
                assert(chain.drop_last() =~= prev_chain);
                assert(chain.last() == post);
                assert(chain[chain.len() - 2] == prev_chain[prev_chain.len() - 1]);
                assert(prev_chain.last() == pre);
                if did {
                    assert(cleanup_step(pre, post, j as int));
                    assert(post[j as int].lemma@ != pre[j as int].lemma@);
                    assert(post != pre) by {
                        if post == pre {
                            assert(post[j as int] == pre[j as int]);
                        }
                    }
                } else {
                    assert(post == pre);
                    assert(cleanup_step(pre, post, j as int));
                }
                assert(changed_steps(chain) == changed_steps(prev_chain) + if did {
                    1int
                } else {
                    0int
                });
                assert forall|t: int|
                    0 <= t < j + 1 implies cleanup_step(#[trigger] chain[t], chain[t + 1], t) by {
                    if t < j {
                        assert(chain[t] == prev_chain[t]);
                        assert(chain[t + 1] == prev_chain[t + 1]);
                        assert(cleanup_step(prev_chain[t], prev_chain[t + 1], t));
                    } else {
                        assert(chain[t] == pre && chain[t + 1] == post);
                    }
                }
            }
            if did {
                cleaned_count = cleaned_count + 1;
            }
            j = j + 1;
        }
        proof {
            assert(chain.len() == first.len() + 1);
        }
        cleaned_count
    }
}

} // verus!
