//! Transcript tokenization: split on whitespace, strip leading and
//! trailing punctuation and other non-alphanumeric characters, lowercase,
//! and drop tokens that end up empty.

use vstd::prelude::*;

use crate::textops::{
    char_is_alphanumeric, char_is_whitespace, chars_of, lower_chars, lower_of, spec_ascii_punct,
    ascii_punct, string_from_chars, unicode_alphanumeric, unicode_whitespace,
};

verus! {

/// Whether a character is stripped from a token's edges: ASCII
/// punctuation or anything that is not alphanumeric.
pub open spec fn strip_char(c: char) -> bool {
    spec_ascii_punct(c) || !unicode_alphanumeric(c)
}

/// A word with its leading stripped characters removed.
pub open spec fn trim_front(w: Seq<char>) -> Seq<char>
    decreases w.len(),
{
    if w.len() > 0 && strip_char(w[0]) {
        trim_front(w.drop_first())
    } else {
        w
    }
}

/// A word with its trailing stripped characters removed.
pub open spec fn trim_back(w: Seq<char>) -> Seq<char>
    decreases w.len(),
{
    if w.len() > 0 && strip_char(w.last()) {
        trim_back(w.drop_last())
    } else {
        w
    }
}

/// A word with stripped characters removed from both edges.
pub open spec fn trimmed(w: Seq<char>) -> Seq<char> {
    trim_back(trim_front(w))
}

/// A whitespace-separated word turned into a token: edges stripped,
/// then lowercased.
pub open spec fn clean_token(w: Seq<char>) -> Seq<char> {
    lower_of(trimmed(w))
}

/// The whitespace-separated words of `s`, given that the characters of
/// an unfinished word `cur` came right before `s`.
pub open spec fn split_ws_acc(s: Seq<char>, cur: Seq<char>) -> Seq<Seq<char>>
    decreases s.len(),
{
    if s.len() == 0 {
        if cur.len() > 0 {
            seq![cur]
        } else {
            seq![]
        }
    } else if unicode_whitespace(s[0]) {
        (if cur.len() > 0 {
            seq![cur]
        } else {
            seq![]
        }) + split_ws_acc(s.drop_first(), seq![])
    } else {
        split_ws_acc(s.drop_first(), cur.push(s[0]))
    }
}

/// The whitespace-separated words of `s`, in order.
pub open spec fn split_ws(s: Seq<char>) -> Seq<Seq<char>> {
    split_ws_acc(s, seq![])
}

/// The words of `ws` cleaned into tokens, with words that strip down to
/// nothing dropped.
pub open spec fn clean_tokens(ws: Seq<Seq<char>>) -> Seq<Seq<char>>
    decreases ws.len(),
{
    if ws.len() == 0 {
        seq![]
    } else {
        let t = clean_token(ws[0]);
        (if t.len() > 0 {
            seq![t]
        } else {
            seq![]
        }) + clean_tokens(ws.drop_first())
    }
}

/// The tokens of a transcript: whitespace-separated words, stripped,
/// lowercased, empties dropped.
pub open spec fn tokens_of(text: Seq<char>) -> Seq<Seq<char>> {
    clean_tokens(split_ws(text))
}

/// The words of `cur` as a (possibly empty) finished-word list.
pub open spec fn flush(cur: Seq<char>) -> Seq<Seq<char>> {
    if cur.len() > 0 {
        seq![cur]
    } else {
        seq![]
    }
}

proof fn lemma_clean_tokens_flush(cur: Seq<char>)
    requires
        cur.len() > 0,
    ensures
        clean_tokens(flush(cur)) == flush(clean_token(cur)),
{
    let s = seq![cur];
    assert(s.drop_first() =~= Seq::<Seq<char>>::empty());
    assert(clean_tokens(Seq::<Seq<char>>::empty()) =~= Seq::<Seq<char>>::empty());
    if clean_token(cur).len() > 0 {
        assert(clean_tokens(s) =~= seq![clean_token(cur)]);
    } else {
        assert(clean_tokens(s) =~= Seq::<Seq<char>>::empty());
    }
}

proof fn lemma_clean_tokens_add(a: Seq<Seq<char>>, b: Seq<Seq<char>>)
    ensures
        clean_tokens(a + b) == clean_tokens(a) + clean_tokens(b),
    decreases a.len(),
{
    if a.len() == 0 {
        assert(a + b =~= b);
        assert(clean_tokens(a) + clean_tokens(b) =~= clean_tokens(b));
    } else {
        assert((a + b).drop_first() =~= a.drop_first() + b);
        lemma_clean_tokens_add(a.drop_first(), b);
        let t = clean_token(a[0]);
        if t.len() > 0 {
            assert(clean_tokens(a + b) =~= seq![t] + (clean_tokens(a.drop_first()) + clean_tokens(
                b,
            )));
            assert(clean_tokens(a) + clean_tokens(b) =~= seq![t] + (clean_tokens(a.drop_first())
                + clean_tokens(b)));
        } else {
            assert(clean_tokens(a + b) =~= clean_tokens(a.drop_first()) + clean_tokens(b));
            assert(clean_tokens(a) + clean_tokens(b) =~= clean_tokens(a.drop_first())
                + clean_tokens(b));
        }
    }
}

proof fn lemma_trim_front_skip(w: Seq<char>, f: int)
    requires
        0 <= f <= w.len(),
        forall|k: int| 0 <= k < f ==> strip_char(w[k]),
        f == w.len() || !strip_char(w[f]),
    ensures
        trim_front(w) == w.skip(f),
    decreases f,
{
    if f == 0 {
        assert(w.skip(0) =~= w);
    } else {
        assert(strip_char(w[0]));
        lemma_trim_front_skip(w.drop_first(), f - 1);
        assert(w.drop_first().skip(f - 1) =~= w.skip(f));
    }
}

proof fn lemma_trim_back_take(w: Seq<char>, b: int)
    requires
        0 <= b <= w.len(),
        forall|k: int| b <= k < w.len() ==> strip_char(w[k]),
        b == 0 || !strip_char(w[b - 1]),
    ensures
        trim_back(w) == w.take(b),
    decreases w.len() - b,
{
    if b == w.len() {
        assert(w.take(b) =~= w);
    } else {
        assert(strip_char(w.last()));
        lemma_trim_back_take(w.drop_last(), b);
        assert(w.drop_last().take(b) =~= w.take(b));
    }
}

/// A word with stripped characters removed from both edges.
pub fn trim_word(w: &Vec<char>) -> (r: Vec<char>)
    ensures
        r@ == trimmed(w@),
{
    let n = w.len();
    let mut f: usize = 0;
    while f < n && (ascii_punct(w[f]) || !char_is_alphanumeric(w[f]))
        invariant
            0 <= f <= n == w@.len(),
            forall|k: int| 0 <= k < f ==> strip_char(w@[k]),
        decreases n - f,
    {
        f = f + 1;
    }
    proof {
        lemma_trim_front_skip(w@, f as int);
    }
    let ghost front = w@.skip(f as int);
    let mut b: usize = n;
    while b > f && (ascii_punct(w[b - 1]) || !char_is_alphanumeric(w[b - 1]))
        invariant
            f <= b <= n == w@.len(),
            front == w@.skip(f as int),
            forall|k: int| b <= k < n ==> strip_char(w@[k]),
        decreases b,
    {
        b = b - 1;
    }
    proof {
        assert(forall|k: int| b - f <= k < front.len() ==> strip_char(front[k]));
        lemma_trim_back_take(front, b - f);
    }
    let mut r: Vec<char> = Vec::new();
    let mut i: usize = f;
    while i < b
        invariant
            f <= i <= b <= n == w@.len(),
            r@ == w@.subrange(f as int, i as int),
        decreases b - i,
    {
        r.push(w[i]);
        i = i + 1;
    }
    proof {
        assert(front.take(b - f) =~= w@.subrange(f as int, b as int));
    }
    r
}


/// Clean the finished word `cur` and append the resulting token to `r`,
/// unless the word strips down to nothing.
fn flush_word(r: &mut Vec<String>, cur: &Vec<char>)
    requires
        cur@.len() > 0,
    ensures
        final(r).deep_view() == old(r).deep_view() + flush(clean_token(cur@)),
{
    let t = lower_chars(&trim_word(cur));
    if t.len() > 0 {
        let s = string_from_chars(&t);
        let ghost old_r = r.deep_view();
        r.push(s);
        proof {
            assert(r.deep_view() =~= old_r + seq![t@]);
        }
    } else {
        proof {
            assert(r.deep_view() =~= r.deep_view() + flush(clean_token(cur@)));
        }
    }
}

/// Tokenize a transcript: split on whitespace, strip leading and
/// trailing punctuation and non-alphanumeric characters, lowercase, and
/// drop empty tokens.
pub fn tokenize_transcript(text: &str) -> (r: Vec<String>)
    ensures
        r.deep_view() == tokens_of(text@),
{
    let cs = chars_of(text);
    let n = cs.len();
    let mut r: Vec<String> = Vec::new();
    let mut cur: Vec<char> = Vec::new();
    let mut i: usize = 0;
    proof {
        assert(cs@.skip(0) =~= cs@);
        assert(r.deep_view() =~= Seq::<Seq<char>>::empty());
        assert(Seq::<Seq<char>>::empty() + clean_tokens(split_ws(text@)) =~= tokens_of(text@));
    }
    while i < n
        invariant
            0 <= i <= n == cs@.len(),
            cs@ == text@,
            tokens_of(text@) == r.deep_view() + clean_tokens(
                split_ws_acc(cs@.skip(i as int), cur@),
            ),
        decreases n - i,
    {
        let ghost rest = cs@.skip(i as int);
        proof {
            assert(rest.len() == n - i);
            assert(rest[0] == cs@[i as int]);
            assert(rest.drop_first() =~= cs@.skip(i as int + 1));
        }
        let c = cs[i];
        if char_is_whitespace(c) {
            let ghost old_r = r.deep_view();
            let ghost ct_rest = clean_tokens(split_ws_acc(rest.drop_first(), seq![]));
            proof {
                assert(split_ws_acc(rest, cur@) == flush(cur@) + split_ws_acc(
                    rest.drop_first(),
                    seq![],
                ));
                lemma_clean_tokens_add(flush(cur@), split_ws_acc(rest.drop_first(), seq![]));
            }
            if cur.len() > 0 {
                proof {
                    lemma_clean_tokens_flush(cur@);
                }
                flush_word(&mut r, &cur);
                proof {
                    assert(old_r + (flush(clean_token(cur@)) + ct_rest) =~= (old_r + flush(
                        clean_token(cur@),
                    )) + ct_rest);
                }
                cur = Vec::new();
            } else {
                proof {
                    assert(cur@ =~= Seq::<char>::empty());
                    assert(flush(cur@) =~= Seq::<Seq<char>>::empty());
                    assert(clean_tokens(Seq::<Seq<char>>::empty()) =~= Seq::<Seq<char>>::empty());
                    assert(Seq::<Seq<char>>::empty() + ct_rest =~= ct_rest);
                }
            }
        } else {
            proof {
                assert(split_ws_acc(rest, cur@) == split_ws_acc(
                    rest.drop_first(),
                    cur@.push(rest[0]),
                ));
            }
            cur.push(c);
        }
        i = i + 1;
    }
    proof {
        assert(cs@.skip(n as int) =~= Seq::<char>::empty());
        assert(split_ws_acc(Seq::<char>::empty(), cur@) == flush(cur@));
    }
    if cur.len() > 0 {
        let ghost old_r = r.deep_view();
        proof {
            lemma_clean_tokens_flush(cur@);
        }
        flush_word(&mut r, &cur);
        proof {
            assert(r.deep_view() =~= old_r + clean_tokens(flush(cur@)));
        }
    } else {
        proof {
            assert(flush(cur@) =~= Seq::<Seq<char>>::empty());
            assert(clean_tokens(Seq::<Seq<char>>::empty()) =~= Seq::<Seq<char>>::empty());
            assert(r.deep_view() + Seq::<Seq<char>>::empty() =~= r.deep_view());
        }
    }
    r
}

/// The number of words does not depend on what the characters of the
/// unfinished word are, only on whether there are any.
proof fn lemma_split_ws_acc_len_cur(s: Seq<char>, cur1: Seq<char>, cur2: Seq<char>)
    requires
        cur1.len() > 0,
        cur2.len() > 0,
    ensures
        split_ws_acc(s, cur1).len() == split_ws_acc(s, cur2).len(),
    decreases s.len(),
{
    if s.len() == 0 {
    } else if unicode_whitespace(s[0]) {
    } else {
        lemma_split_ws_acc_len_cur(s.drop_first(), cur1.push(s[0]), cur2.push(s[0]));
    }
}

/// The number of whitespace-separated words in a text, before any
/// stripping or filtering.
pub fn calculate_word_count(text: &str) -> (r: i64)
    requires
        text@.len() <= i64::MAX,
    ensures
        r == split_ws(text@).len(),
{
    let cs = chars_of(text);
    let n = cs.len();
    let mut count: usize = 0;
    let mut in_word: bool = false;
    let mut i: usize = 0;
    proof {
        assert(cs@.skip(0) =~= cs@);
    }
    while i < n
        invariant
            0 <= i <= n == cs@.len(),
            cs@ == text@,
            count + (if in_word {
                1int
            } else {
                0int
            }) <= i,
            split_ws(text@).len() == count + split_ws_acc(
                cs@.skip(i as int),
                if in_word {
                    seq![' ']
                } else {
                    seq![]
                },
            ).len(),
        decreases n - i,
    {
        let ghost rest = cs@.skip(i as int);
        let ghost cur: Seq<char> = if in_word {
            seq![' ']
        } else {
            seq![]
        };
        proof {
            assert(rest.len() == n - i);
            assert(rest[0] == cs@[i as int]);
            assert(rest.drop_first() =~= cs@.skip(i as int + 1));
        }
        let c = cs[i];
        if char_is_whitespace(c) {
            proof {
                assert(split_ws_acc(rest, cur) == flush(cur) + split_ws_acc(
                    rest.drop_first(),
                    seq![],
                ));
            }
            if in_word {
                count = count + 1;
                in_word = false;
            }
        } else {
            proof {
                assert(split_ws_acc(rest, cur) == split_ws_acc(
                    rest.drop_first(),
                    cur.push(rest[0]),
                ));
                lemma_split_ws_acc_len_cur(rest.drop_first(), cur.push(rest[0]), seq![' ']);
            }
            if !in_word {
                in_word = true;
            }
        }
        i = i + 1;
    }
    proof {
        assert(cs@.skip(n as int) =~= Seq::<char>::empty());
    }
    if in_word {
        count = count + 1;
    }
    count as i64
}

/// There are at most as many words as characters.
pub proof fn lemma_split_ws_len(s: Seq<char>, cur: Seq<char>)
    ensures
        split_ws_acc(s, cur).len() <= s.len() + if cur.len() > 0 {
            1int
        } else {
            0int
        },
    decreases s.len(),
{
    if s.len() == 0 {
    } else if unicode_whitespace(s[0]) {
        lemma_split_ws_len(s.drop_first(), seq![]);
    } else {
        lemma_split_ws_len(s.drop_first(), cur.push(s[0]));
    }
}

/// A lemma with punctuation and other non-alphanumeric characters
/// stripped from its edges, as the vocabulary cleanup uses it.
pub fn cleaned_lemma(lemma: &str) -> (r: String)
    ensures
        r@ == trimmed(lemma@),
{
    let cs = chars_of(lemma);
    let t = trim_word(&cs);
    string_from_chars(&t)
}

} // verus!
