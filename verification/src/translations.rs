//! User-edited custom translations, keyed by (lemma, source language,
//! target language). Setting one creates or overwrites; deleting one
//! resets the word to its default translation.

use vstd::prelude::*;

use crate::textops::{str_eq, string_clone};

verus! {

/// A user-edited translation of one lemma between two languages.
pub struct CustomTranslation {
    pub id: i64,
    pub lemma: String,
    pub lang_from: String,
    pub lang_to: String,
    pub custom_translation: String,
    pub notes: Option<String>,
    pub created_at: i64,
    pub updated_at: i64,
}

/// Whether the entry is keyed by the given lemma and language pair.
pub open spec fn tkey_is(
    e: CustomTranslation,
    lemma: Seq<char>,
    from: Seq<char>,
    to: Seq<char>,
) -> bool {
    e.lemma@ == lemma && e.lang_from@ == from && e.lang_to@ == to
}

/// Whether the store holds an entry for the key.
pub open spec fn tcontains(
    es: Seq<CustomTranslation>,
    lemma: Seq<char>,
    from: Seq<char>,
    to: Seq<char>,
) -> bool {
    exists|i: int| 0 <= i < es.len() && tkey_is(es[i], lemma, from, to)
}

/// The index of the entry for the key.
pub open spec fn tidx_of(
    es: Seq<CustomTranslation>,
    lemma: Seq<char>,
    from: Seq<char>,
    to: Seq<char>,
) -> int {
    choose|i: int| 0 <= i < es.len() && tkey_is(es[i], lemma, from, to)
}

/// The user's custom translations, with pairwise distinct keys.
pub struct TranslationStore {
    pub entries: Vec<CustomTranslation>,
    pub next_id: i64,
}

impl TranslationStore {
    /// Well-formed: keys are pairwise distinct.
    pub open spec fn wf(self) -> bool {
        forall|i: int, j: int|
            0 <= i < j < self.entries@.len() ==> !tkey_is(
                self.entries@[j],
                self.entries@[i].lemma@,
                self.entries@[i].lang_from@,
                self.entries@[i].lang_to@,
            )
    }

    /// An empty store.
    pub fn new() -> (r: TranslationStore)
        ensures
            r.wf(),
            r.entries@.len() == 0,
    {
        TranslationStore { entries: Vec::new(), next_id: 1 }
    }

    /// The index of the entry for the key, if present.
    fn find(&self, lemma: &str, lang_from: &str, lang_to: &str) -> (r: Option<usize>)
        ensures
            match r {
                Some(i) => i < self.entries@.len() && tkey_is(
                    self.entries@[i as int],
                    lemma@,
                    lang_from@,
                    lang_to@,
                ),
                None => !tcontains(self.entries@, lemma@, lang_from@, lang_to@),
            },
    {
        let n = self.entries.len();
        let mut i: usize = 0;
        while i < n
            invariant
                0 <= i <= n == self.entries@.len(),
                forall|k: int| 0 <= k < i ==> !tkey_is(self.entries@[k], lemma@, lang_from@, lang_to@),
            decreases n - i,
        {
            if str_eq(self.entries[i].lemma.as_str(), lemma) && str_eq(
                self.entries[i].lang_from.as_str(),
                lang_from,
            ) && str_eq(self.entries[i].lang_to.as_str(), lang_to) {
                return Some(i);
            }
            i = i + 1;
        }
        None
    }

    /// The custom translation for the key, if one was set.
    pub fn get_custom_translation(&self, lemma: &str, lang_from: &str, lang_to: &str) -> (r:
        Option<String>)
        requires
            self.wf(),
        ensures
            r is Some <==> tcontains(self.entries@, lemma@, lang_from@, lang_to@),
            r matches Some(t) ==> t@ == self.entries@[tidx_of(
                self.entries@,
                lemma@,
                lang_from@,
                lang_to@,
            )].custom_translation@,
    {
        match self.find(lemma, lang_from, lang_to) {
            None => None,
            Some(i) => {
                proof {
                    lemma_tfound_is_tidx(self.entries@, lemma@, lang_from@, lang_to@, i as int);
                }
                Some(string_clone(self.entries[i].custom_translation.as_str()))
            },
        }
    }

    /// Set the custom translation for the key: create the entry on first
    /// use, overwrite the translation and notes afterwards.
    pub fn set_custom_translation(
        &mut self,
        lemma: &str,
        lang_from: &str,
        lang_to: &str,
        custom_translation: &str,
        notes: Option<String>,
        timestamp: i64,
    )
        requires
            old(self).wf(),
        ensures
            final(self).wf(),
            tcontains(final(self).entries@, lemma@, lang_from@, lang_to@),
            !tcontains(old(self).entries@, lemma@, lang_from@, lang_to@) ==> {
                let e = final(self).entries@.last();
                &&& final(self).entries@.len() == old(self).entries@.len() + 1
                &&& final(self).entries@.subrange(0, old(self).entries@.len() as int) == old(
                    self,
                ).entries@
                &&& tkey_is(e, lemma@, lang_from@, lang_to@)
                &&& e.custom_translation@ == custom_translation@
                &&& e.notes == notes
                &&& e.created_at == timestamp
                &&& e.updated_at == timestamp
            },
            tcontains(old(self).entries@, lemma@, lang_from@, lang_to@) ==> {
                let i = tidx_of(old(self).entries@, lemma@, lang_from@, lang_to@);
                let e_old = old(self).entries@[i];
                let e_new = final(self).entries@[i];
                &&& final(self).entries@.len() == old(self).entries@.len()
                &&& tkey_is(e_new, lemma@, lang_from@, lang_to@)
                &&& e_new.custom_translation@ == custom_translation@
                &&& e_new.notes == notes
                &&& e_new.created_at == e_old.created_at
                &&& e_new.updated_at == timestamp
                &&& e_new.id == e_old.id
                &&& forall|j: int|
                    0 <= j < old(self).entries@.len() && j != i ==> final(self).entries@[j] == old(
                        self,
                    ).entries@[j]
            },
    {
        let ghost pre = self.entries@;
        match self.find(lemma, lang_from, lang_to) {
            None => {
                let entry = CustomTranslation {
                    id: self.next_id,
                    lemma: string_clone(lemma),
                    lang_from: string_clone(lang_from),
                    lang_to: string_clone(lang_to),
                    custom_translation: string_clone(custom_translation),
                    notes,
                    created_at: timestamp,
                    updated_at: timestamp,
                };
                self.entries.push(entry);
                if self.next_id < i64::MAX {
                    self.next_id = self.next_id + 1;
                }
                proof {
                    assert(self.entries@.subrange(0, pre.len() as int) =~= pre);
                    assert(tkey_is(
                        self.entries@[pre.len() as int],
                        lemma@,
                        lang_from@,
                        lang_to@,
                    ));
                }
            },
            Some(i) => {
                proof {
                    lemma_tfound_is_tidx(pre, lemma@, lang_from@, lang_to@, i as int);
                }
                let e = &self.entries[i];
                let entry = CustomTranslation {
                    id: e.id,
                    lemma: string_clone(e.lemma.as_str()),
                    lang_from: string_clone(e.lang_from.as_str()),
                    lang_to: string_clone(e.lang_to.as_str()),
                    custom_translation: string_clone(custom_translation),
                    notes,
                    created_at: e.created_at,
                    updated_at: timestamp,
                };
                self.entries[i] = entry;
                proof {
                    assert(tkey_is(self.entries@[i as int], lemma@, lang_from@, lang_to@));
                }
            },
        }
    }

    /// Delete the custom translation for the key; deleting an absent one
    /// changes nothing.
    pub fn delete_custom_translation(&mut self, lemma: &str, lang_from: &str, lang_to: &str)
        requires
            old(self).wf(),
        ensures
            final(self).wf(),
            !tcontains(final(self).entries@, lemma@, lang_from@, lang_to@),
            tcontains(old(self).entries@, lemma@, lang_from@, lang_to@) ==> final(self).entries@
                == old(self).entries@.remove(
                tidx_of(old(self).entries@, lemma@, lang_from@, lang_to@),
            ),
            !tcontains(old(self).entries@, lemma@, lang_from@, lang_to@) ==> final(self).entries@
                == old(self).entries@,
    {
        let ghost pre = self.entries@;
        match self.find(lemma, lang_from, lang_to) {
            None => {},
            Some(i) => {
                proof {
                    lemma_tfound_is_tidx(pre, lemma@, lang_from@, lang_to@, i as int);
                }
                self.entries.remove(i);
                proof {
                    assert forall|k: int| 0 <= k < self.entries@.len() implies !tkey_is(
                        self.entries@[k],
                        lemma@,
                        lang_from@,
                        lang_to@,
                    ) by {
                        if k < i {
                            assert(self.entries@[k] == pre[k]);
                            if tkey_is(pre[k], lemma@, lang_from@, lang_to@) {
                                assert(tkey_is(
                                    pre[i as int],
                                    pre[k].lemma@,
                                    pre[k].lang_from@,
                                    pre[k].lang_to@,
                                ));
                            }
                        } else {
                            assert(self.entries@[k] == pre[k + 1]);
                            if tkey_is(pre[k + 1], lemma@, lang_from@, lang_to@) {
                                assert(tkey_is(
                                    pre[k + 1],
                                    pre[i as int].lemma@,
                                    pre[i as int].lang_from@,
                                    pre[i as int].lang_to@,
                                ));
                            }
                        }
                    }
                }
            },
        }
    }
}

/// In a well-formed store, any index whose entry has the key is the one
/// `tidx_of` picks.
proof fn lemma_tfound_is_tidx(
    es: Seq<CustomTranslation>,
    lemma: Seq<char>,
    from: Seq<char>,
    to: Seq<char>,
    i: int,
)
    requires
        0 <= i < es.len(),
        tkey_is(es[i], lemma, from, to),
        forall|a: int, b: int|
            0 <= a < b < es.len() ==> !tkey_is(es[b], es[a].lemma@, es[a].lang_from@, es[a].lang_to@),
    ensures
        tcontains(es, lemma, from, to),
        tidx_of(es, lemma, from, to) == i,
{
    assert(tcontains(es, lemma, from, to));
    let k = tidx_of(es, lemma, from, to);
    assert(tkey_is(es[k], lemma, from, to));
    if k < i {
        assert(!tkey_is(es[i], es[k].lemma@, es[k].lang_from@, es[k].lang_to@));
    } else if i < k {
        assert(!tkey_is(es[k], es[i].lemma@, es[i].lang_from@, es[i].lang_to@));
    }
}

} // verus!
