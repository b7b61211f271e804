//! Text library: imported texts for read-aloud practice, with their
//! derived statistics (word count and estimated reading duration).

use vstd::prelude::*;

use crate::ids::new_uuid;
use crate::tokenize::{calculate_word_count, lemma_split_ws_len, split_ws};

verus! {

/// An imported text.
pub struct TextLibraryItem {
    pub id: String,
    pub title: String,
    pub source_type: String,
    pub source_url: Option<String>,
    pub content: String,
    pub language: String,
    pub word_count: Option<i64>,
    pub estimated_duration: Option<i64>,
    pub difficulty_level: Option<String>,
    pub created_at: i64,
    pub updated_at: i64,
    pub tags: Option<Vec<String>>,
}

/// What a new text is created from.
pub struct CreateTextLibraryItem {
    pub title: String,
    pub source_type: String,
    pub source_url: Option<String>,
    pub content: String,
    pub language: String,
    pub difficulty_level: Option<String>,
    pub tags: Option<Vec<String>>,
}

/// A partial update of a text: unset fields keep their current value.
pub struct UpdateTextLibraryItem {
    pub title: Option<String>,
    pub source_type: Option<String>,
    pub source_url: Option<String>,
    pub content: Option<String>,
    pub difficulty_level: Option<String>,
    pub tags: Option<Vec<String>>,
}

/// Estimated reading duration in seconds, assuming an average reading
/// speed of 150 words per minute: `word_count / 150 * 60`, truncated
/// to whole seconds.
pub open spec fn spec_estimate_duration(word_count: int) -> int {
    word_count * 60 / 150
}

/// Estimate reading duration in seconds (assumes 150 WPM average reading speed).
pub fn estimate_duration(word_count: i64) -> (r: i64)
    requires
        0 <= word_count <= i64::MAX / 60,
    ensures
        r == spec_estimate_duration(word_count as int),
{
    word_count * 60 / 150
}

/// Create a text library item: a fresh id, the given fields, and the
/// derived word count and estimated reading duration.
pub fn create_text_library_item(input: CreateTextLibraryItem, now: i64) -> (r: TextLibraryItem)
    requires
        input.content@.len() <= i64::MAX / 60,
    ensures
        r.id@.len() == 36,
        r.title@ == input.title@,
        r.source_type@ == input.source_type@,
        r.source_url == input.source_url,
        r.content@ == input.content@,
        r.language@ == input.language@,
        r.word_count == Some(split_ws(input.content@).len() as i64),
        r.estimated_duration == Some(
            spec_estimate_duration(split_ws(input.content@).len() as int) as i64,
        ),
        r.difficulty_level == input.difficulty_level,
        r.created_at == now,
        r.updated_at == now,
        r.tags == input.tags,
{
    proof {
        lemma_split_ws_len(input.content@, Seq::empty());
        assert(Seq::<char>::empty().len() == 0);
    }
    let word_count = calculate_word_count(input.content.as_str());
    let estimated_duration = estimate_duration(word_count);
    TextLibraryItem {
        id: new_uuid(),
        title: input.title,
        source_type: input.source_type,
        source_url: input.source_url,
        content: input.content,
        language: input.language,
        word_count: Some(word_count),
        estimated_duration: Some(estimated_duration),
        difficulty_level: input.difficulty_level,
        created_at: now,
        updated_at: now,
        tags: input.tags,
    }
}

/// Apply a partial update to a text: unset fields keep their current
/// value, the word count and estimated duration are recomputed from the
/// resulting content, and the update time is set.
pub fn update_text_library_item(current: TextLibraryItem, updates: UpdateTextLibraryItem, now: i64)
    -> (r: TextLibraryItem)
    requires
        current.content@.len() <= i64::MAX / 60,
        (updates.content matches Some(c) ==> c@.len() <= i64::MAX / 60),
    ensures
        r.id@ == current.id@,
        r.title@ == (match updates.title {
            Some(t) => t@,
            None => current.title@,
        }),
        r.source_type@ == (match updates.source_type {
            Some(t) => t@,
            None => current.source_type@,
        }),
        r.source_url == (if updates.source_url is Some {
            updates.source_url
        } else {
            current.source_url
        }),
        r.content@ == (match updates.content {
            Some(c) => c@,
            None => current.content@,
        }),
        r.language@ == current.language@,
        r.word_count == Some(split_ws(r.content@).len() as i64),
        r.estimated_duration == Some(spec_estimate_duration(split_ws(r.content@).len() as int) as i64),
        r.difficulty_level == (if updates.difficulty_level is Some {
            updates.difficulty_level
        } else {
            current.difficulty_level
        }),
        r.created_at == current.created_at,
        r.updated_at == now,
        r.tags == (if updates.tags is Some {
            updates.tags
        } else {
            current.tags
        }),
{
    let title = match updates.title {
        Some(t) => t,
        None => current.title,
    };
    let source_type = match updates.source_type {
        Some(t) => t,
        None => current.source_type,
    };
    let source_url = match updates.source_url {
        Some(u) => Some(u),
        None => current.source_url,
    };
    let content = match updates.content {
        Some(c) => c,
        None => current.content,
    };
    let difficulty_level = match updates.difficulty_level {
        Some(d) => Some(d),
        None => current.difficulty_level,
    };
    let tags = match updates.tags {
        Some(t) => Some(t),
        None => current.tags,
    };
    proof {
        lemma_split_ws_len(content@, Seq::empty());
    }
    let word_count = calculate_word_count(content.as_str());
    let estimated_duration = estimate_duration(word_count);
    TextLibraryItem {
        id: current.id,
        title,
        source_type,
        source_url,
        content,
        language: current.language,
        word_count: Some(word_count),
        estimated_duration: Some(estimated_duration),
        difficulty_level,
        created_at: current.created_at,
        updated_at: now,
        tags,
    }
}

} // verus!
