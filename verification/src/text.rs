//! Tokenization of raw message text.
//!
//! A message is split on Unicode whitespace; each piece is case-folded
//! and the characters `"`, `;`, `:` and `'` are stripped from it.  The
//! whitespace set and the stripping are fully defined here and the
//! exec functions are proved to match; case folding is the Unicode
//! lowercase mapping, carried out by `str::to_lowercase` and named by
//! the uninterpreted [`fold_of`], since its tables are not something
//! this crate restates.

use vstd::prelude::*;

use crate::strutil::{chars_of, string_from_chars};

verus! {

/// A separator character for the splitting step: the Unicode
/// White_Space set, written out, exactly as std's
/// `char::is_whitespace` documents it.
pub open spec fn is_space_char(c: char) -> bool {
    ||| c == '\u{0009}'
    ||| c == '\u{000A}'
    ||| c == '\u{000B}'
    ||| c == '\u{000C}'
    ||| c == '\u{000D}'
    ||| c == '\u{0020}'
    ||| c == '\u{0085}'
    ||| c == '\u{00A0}'
    ||| c == '\u{1680}'
    ||| c == '\u{2000}'
    ||| c == '\u{2001}'
    ||| c == '\u{2002}'
    ||| c == '\u{2003}'
    ||| c == '\u{2004}'
    ||| c == '\u{2005}'
    ||| c == '\u{2006}'
    ||| c == '\u{2007}'
    ||| c == '\u{2008}'
    ||| c == '\u{2009}'
    ||| c == '\u{200A}'
    ||| c == '\u{2028}'
    ||| c == '\u{2029}'
    ||| c == '\u{202F}'
    ||| c == '\u{205F}'
    ||| c == '\u{3000}'
}

/// A character that tokenization removes from every piece.
pub open spec fn is_stripped_char(c: char) -> bool {
    c == '"' || c == ';' || c == ':' || c == '\''
}

/// What Unicode case folding makes of a piece of text, as std's
/// `str::to_lowercase` computes it; a function of the characters
/// alone.
pub uninterp spec fn fold_of(s: Seq<char>) -> Seq<char>;

/// Relies on std's `str::to_lowercase`: the Unicode lowercase mapping
/// of the text, a function of the characters alone.  An empty string
/// folds to the empty string.
#[verifier::external_body]
pub fn fold(s: &str) -> (r: String)
    ensures
        r@ == fold_of(s@),
        s@.len() == 0 ==> r@.len() == 0,
{
    s.to_lowercase()
}

/// The words of `s`: maximal runs of non-separator characters.
pub open spec fn split_words(s: Seq<char>) -> Seq<Seq<char>>
    decreases s.len(),
{
    if s.len() == 0 {
        Seq::empty()
    } else {
        let rest = split_words(s.drop_last());
        let c = s.last();
        if is_space_char(c) {
            rest
        } else if s.len() == 1 || is_space_char(s[s.len() - 2]) {
            rest.push(seq![c])
        } else {
            rest.update(rest.len() - 1, rest.last().push(c))
        }
    }
}

/// Strips the removed characters out of a word.
pub open spec fn strip_word(w: Seq<char>) -> Seq<char>
    decreases w.len(),
{
    if w.len() == 0 {
        Seq::empty()
    } else {
        let rest = strip_word(w.drop_last());
        if is_stripped_char(w.last()) {
            rest
        } else {
            rest.push(w.last())
        }
    }
}

/// Case-folds a word and strips the removed characters from it.
pub open spec fn clean_word(w: Seq<char>) -> Seq<char> {
    strip_word(fold_of(w))
}

/// Cleans every word of a word list.
pub open spec fn clean_words(ws: Seq<Seq<char>>) -> Seq<Seq<char>>
    decreases ws.len(),
{
    if ws.len() == 0 {
        Seq::empty()
    } else {
        clean_words(ws.drop_last()).push(clean_word(ws.last()))
    }
}

/// The token sequence of a raw message: its words, each case-folded
/// and stripped.
pub open spec fn tokenize_spec(s: Seq<char>) -> Seq<Seq<char>> {
    clean_words(split_words(s))
}

/// The words joined back into one text with single spaces between
/// them.
pub open spec fn join_words(ws: Seq<Seq<char>>) -> Seq<char>
    decreases ws.len(),
{
    if ws.len() == 0 {
        Seq::empty()
    } else if ws.len() == 1 {
        ws[0]
    } else {
        join_words(ws.drop_last()) + seq![' '] + ws.last()
    }
}

/// A word list with every word case-folded.
pub open spec fn fold_words(ws: Seq<Seq<char>>) -> Seq<Seq<char>>
    decreases ws.len(),
{
    if ws.len() == 0 {
        Seq::empty()
    } else {
        fold_words(ws.drop_last()).push(fold_of(ws.last()))
    }
}

/// Case folding of a word list works element by element.
pub proof fn lemma_fold_words_index(ws: Seq<Seq<char>>)
    ensures
        fold_words(ws).len() == ws.len(),
        forall|k: int| 0 <= k < ws.len() ==> #[trigger] fold_words(ws)[k] == fold_of(ws[k]),
    decreases ws.len(),
{
    if ws.len() > 0 {
        lemma_fold_words_index(ws.drop_last());
    }
}

/// Whether a separator character occurs in `w`.
pub open spec fn has_space(w: Seq<char>) -> bool {
    exists|i: int| 0 <= i < w.len() && is_space_char(w[i])
}

/// Words produced by splitting are non-empty and hold no separator
/// character.
pub proof fn lemma_split_words_shape(s: Seq<char>)
    ensures
        forall|k: int| 0 <= k < split_words(s).len()
            ==> (#[trigger] split_words(s)[k]).len() >= 1 && !has_space(split_words(s)[k]),
        s.len() > 0 && !is_space_char(s.last()) ==> split_words(s).len() >= 1,
    decreases s.len(),
{
    if s.len() > 0 {
        lemma_split_words_shape(s.drop_last());
        let rest = split_words(s.drop_last());
        let c = s.last();
        if is_space_char(c) {
        } else if s.len() == 1 || is_space_char(s[s.len() - 2]) {
            assert forall|k: int| 0 <= k < split_words(s).len()
                implies (#[trigger] split_words(s)[k]).len() >= 1 && !has_space(split_words(s)[k]) by {
                if k == rest.len() {
                    assert(split_words(s)[k] =~= seq![c]);
                    assert(forall|j: int| 0 <= j < seq![c].len() ==> !is_space_char(seq![c][j]));
                }
            }
        } else {
            assert(s.drop_last().len() > 0 && !is_space_char(s.drop_last().last()));
            let w = rest.last().push(c);
            assert forall|k: int| 0 <= k < split_words(s).len()
                implies (#[trigger] split_words(s)[k]).len() >= 1 && !has_space(split_words(s)[k]) by {
                if k == rest.len() - 1 {
                    assert(split_words(s)[k] == w);
                    assert(!has_space(rest.last()));
                    assert(forall|j: int| 0 <= j < w.len() ==> !is_space_char(w[j]));
                }
            }
        }
    }
}

/// Cleaning a word list cleans it element by element.
pub proof fn lemma_clean_words_index(ws: Seq<Seq<char>>)
    ensures
        clean_words(ws).len() == ws.len(),
        forall|k: int| 0 <= k < ws.len() ==> #[trigger] clean_words(ws)[k] == clean_word(ws[k]),
    decreases ws.len(),
{
    if ws.len() > 0 {
        lemma_clean_words_index(ws.drop_last());
    }
}

/// Appending a space-free, non-empty word to a text that is empty or
/// ends in a separator appends that word to the split.
proof fn lemma_split_append_word(t: Seq<char>, w: Seq<char>)
    requires
        w.len() >= 1,
        !has_space(w),
        t.len() == 0 || is_space_char(t.last()),
    ensures
        split_words(t + w) == split_words(t).push(w),
    decreases w.len(),
{
    let s = t + w;
    assert(s.last() == w.last());
    assert(!is_space_char(w.last()));
    if w.len() == 1 {
        assert(s.drop_last() =~= t);
        if s.len() == 1 {
            assert(seq![s.last()] =~= w);
        } else {
            assert(s[s.len() - 2] == t.last());
            assert(seq![s.last()] =~= w);
        }
        assert(split_words(s) =~= split_words(t).push(w));
    } else {
        lemma_split_append_word(t, w.drop_last());
        assert(s.drop_last() =~= t + w.drop_last());
        assert(s[s.len() - 2] == w[w.len() - 2]);
        let rest = split_words(s.drop_last());
        assert(rest == split_words(t).push(w.drop_last()));
        assert(rest.last() == w.drop_last());
        assert(rest.last().push(w.last()) =~= w);
        assert(split_words(s) =~= split_words(t).push(w));
    }
}

/// Joining space-free, non-empty words with single spaces and
/// splitting again recovers exactly those words.
pub proof fn lemma_split_join(ws: Seq<Seq<char>>)
    requires
        forall|k: int| 0 <= k < ws.len()
            ==> (#[trigger] ws[k]).len() >= 1 && !has_space(ws[k]),
    ensures
        split_words(join_words(ws)) == ws,
    decreases ws.len(),
{
    if ws.len() == 0 {
    } else if ws.len() == 1 {
        let e = Seq::<char>::empty();
        lemma_split_append_word(e, ws[0]);
        assert(e + ws[0] =~= ws[0]);
        assert(join_words(ws) == ws[0]);
        assert(split_words(ws[0]) =~= ws);
    } else {
        lemma_split_join(ws.drop_last());
        let t0 = join_words(ws.drop_last());
        let t1 = t0 + seq![' '];
        assert(split_words(t1) == split_words(t0)) by {
            assert(t1.last() == ' ');
            assert(t1.drop_last() =~= t0);
        }
        lemma_split_append_word(t1, ws.last());
        assert(join_words(ws) =~= t1 + ws.last());
        assert(split_words(join_words(ws)) =~= ws);
    }
}

/// Tokenization is idempotent on texts whose tokens the cleaning
/// pipeline leaves fixed: re-tokenizing the space-joined token
/// sequence gives that sequence back.  The hypotheses are exactly
/// what the law needs: no token stripped down to nothing (a word such
/// as `::` yields an empty token, which joining with spaces cannot
/// represent, so the unrestricted law is false), no whitespace inside
/// a token, and each token a fixed point of fold-and-strip.  That an
/// already-folded token is such a fixed point is a property of the
/// Unicode tables which the folding contract does not state, so it
/// stands as a hypothesis rather than a proved fact.
pub proof fn lemma_tokenize_idempotent(t: Seq<char>)
    requires
        forall|k: int| 0 <= k < tokenize_spec(t).len() ==> {
            let tok = #[trigger] tokenize_spec(t)[k];
            tok.len() >= 1 && !has_space(tok) && clean_word(tok) == tok
        },
    ensures
        tokenize_spec(join_words(tokenize_spec(t))) == tokenize_spec(t),
{
    let toks = tokenize_spec(t);
    assert forall|k: int| 0 <= k < toks.len()
        implies (#[trigger] toks[k]).len() >= 1 && !has_space(toks[k]) by {
        assert(tokenize_spec(t)[k] == toks[k]);
    }
    lemma_split_join(toks);
    lemma_clean_words_index(toks);
    assert forall|k: int| 0 <= k < toks.len()
        implies #[trigger] clean_words(toks)[k] == toks[k] by {
        assert(tokenize_spec(t)[k] == toks[k]);
    }
    assert(clean_words(toks) =~= toks);
}

/// Exec form of `is_space_char`.
pub fn is_space(c: char) -> (r: bool)
    ensures
        r == is_space_char(c),
{
    match c {
        '\u{0009}' | '\u{000A}' | '\u{000B}' | '\u{000C}' | '\u{000D}' | '\u{0020}'
        | '\u{0085}' | '\u{00A0}' | '\u{1680}' | '\u{2000}' | '\u{2001}' | '\u{2002}'
        | '\u{2003}' | '\u{2004}' | '\u{2005}' | '\u{2006}' | '\u{2007}' | '\u{2008}'
        | '\u{2009}' | '\u{200A}' | '\u{2028}' | '\u{2029}' | '\u{202F}' | '\u{205F}'
        | '\u{3000}' => true,
        _ => false,
    }
}

/// Exec form of `is_stripped_char`.
pub fn is_stripped(c: char) -> (r: bool)
    ensures
        r == is_stripped_char(c),
{
    c == '"' || c == ';' || c == ':' || c == '\''
}

/// Splits a character vector into its words.
fn split_chars(cs: &Vec<char>) -> (r: Vec<Vec<char>>)
    ensures
        r.deep_view() == split_words(cs@),
{
    let mut words: Vec<Vec<char>> = Vec::new();
    let mut i: usize = 0;
    while i < cs.len()
        invariant
            i <= cs.len(),
            words.deep_view() == split_words(cs@.take(i as int)),
        decreases cs.len() - i,
    {
        let c = cs[i];
        proof {
            assert(cs@.take(i + 1).drop_last() =~= cs@.take(i as int));
            assert(cs@.take(i + 1).last() == cs@[i as int]);
        }
        if !is_space(c) {
            if i == 0 || is_space(cs[i - 1]) {
                let mut w: Vec<char> = Vec::new();
                w.push(c);
                proof {
                    assert(w.deep_view() == w@);
                    assert(w@ =~= seq![c]);
                }
                words.push(w);
                proof {
                    assert(words.deep_view() =~~= split_words(cs@.take(i + 1)));
                }
            } else {
                proof {
                    assert(cs@.take(i + 1)[i - 1] == cs@[i - 1]);
                    assert(split_words(cs@.take(i as int)).len() > 0) by {
                        assert(cs@.take(i as int).last() == cs@[i - 1]);
                        lemma_split_words_shape(cs@.take(i as int));
                    }
                    assert(words.len() > 0);
                }
                let mut w = words.pop().unwrap();
                w.push(c);
                words.push(w);
                proof {
                    assert(words.deep_view() =~~= split_words(cs@.take(i + 1)));
                }
            }
        } else {
            proof {
                assert(words.deep_view() =~~= split_words(cs@.take(i + 1)));
            }
        }
        i = i + 1;
    }
    proof {
        assert(cs@.take(cs@.len() as int) =~= cs@);
    }
    words
}

/// Cleans one word: case-folds it and strips the removed characters.
fn clean_chars(w: &Vec<char>) -> (r: Vec<char>)
    ensures
        r@ == clean_word(w@),
{
    let raw = string_from_chars(w);
    let folded = fold(raw.as_str());
    let cs = chars_of(folded.as_str());
    let mut out: Vec<char> = Vec::new();
    let mut j: usize = 0;
    while j < cs.len()
        invariant
            j <= cs.len(),
            cs@ == fold_of(w@),
            out@ == strip_word(cs@.take(j as int)),
        decreases cs.len() - j,
    {
        proof {
            assert(cs@.take(j + 1).drop_last() =~= cs@.take(j as int));
            assert(cs@.take(j + 1).last() == cs@[j as int]);
        }
        let c = cs[j];
        if !is_stripped(c) {
            out.push(c);
        }
        j = j + 1;
    }
    proof {
        assert(cs@.take(cs@.len() as int) =~= cs@);
    }
    out
}

/// Splits raw message text into normalized tokens: words are
/// separated by Unicode whitespace, case-folded, and stripped of `"`,
/// `;`, `:` and `'`.  Empty input yields an empty token sequence.
pub fn tokenize(msg: &str) -> (r: Vec<String>)
    ensures
        r.deep_view() == tokenize_spec(msg@),
{
    let cs = chars_of(msg);
    let words = split_chars(&cs);
    let mut out: Vec<String> = Vec::new();
    let mut i: usize = 0;
    while i < words.len()
        invariant
            i <= words.len(),
            words.deep_view() == split_words(cs@),
            out.deep_view() == clean_words(words.deep_view().take(i as int)),
        decreases words.len() - i,
    {
        proof {
            assert(words.deep_view().take(i + 1).drop_last() =~= words.deep_view().take(i as int));
            assert(words.deep_view().take(i + 1).last() == words.deep_view()[i as int]);
            assert(words.deep_view()[i as int] == words@[i as int].deep_view());
            assert(words@[i as int].deep_view() =~= words@[i as int]@);
        }
        let cleaned = clean_chars(&words[i]);
        out.push(string_from_chars(&cleaned));
        proof {
            assert(out.deep_view() =~~= clean_words(words.deep_view().take(i + 1)));
        }
        i = i + 1;
    }
    proof {
        assert(words.deep_view().take(words@.len() as int) =~= words.deep_view());
    }
    out
}

/// Case-folds every token of a list.
pub fn fold_tokens(ts: &Vec<String>) -> (r: Vec<String>)
    ensures
        r.deep_view() == fold_words(ts.deep_view()),
{
    let mut out: Vec<String> = Vec::new();
    let mut i: usize = 0;
    while i < ts.len()
        invariant
            i <= ts.len(),
            out.deep_view() == fold_words(ts.deep_view().take(i as int)),
        decreases ts.len() - i,
    {
        proof {
            assert(ts.deep_view().take(i + 1).drop_last() =~= ts.deep_view().take(i as int));
            assert(ts.deep_view().take(i + 1).last() == ts.deep_view()[i as int]);
            assert(ts.deep_view()[i as int] == ts@[i as int].deep_view());
        }
        out.push(fold(ts[i].as_str()));
        proof {
            assert(out.deep_view() =~~= fold_words(ts.deep_view().take(i + 1)));
        }
        i = i + 1;
    }
    proof {
        assert(ts.deep_view().take(ts@.len() as int) =~= ts.deep_view());
    }
    out
}

/// Joins tokens with single spaces, as replies are rendered.
pub fn join_tokens(tokens: &Vec<String>) -> (r: String)
    ensures
        r@ == join_words(tokens.deep_view()),
{
    let mut out = String::new();
    let mut i: usize = 0;
    while i < tokens.len()
        invariant
            i <= tokens.len(),
            out@ == join_words(tokens.deep_view().take(i as int)),
        decreases tokens.len() - i,
    {
        proof {
            assert(tokens.deep_view().take(i + 1).drop_last() =~= tokens.deep_view().take(i as int));
            assert(tokens.deep_view().take(i + 1).last() == tokens.deep_view()[i as int]);
            assert(tokens.deep_view()[i as int] == tokens@[i as int].deep_view());
        }
        if i > 0 {
            out.append(" ");
            proof {
                reveal_strlit(" ");
            }
        }
        out.append(tokens[i].as_str());
        proof {
            assert(out@ =~= join_words(tokens.deep_view().take(i + 1)));
        }
        i = i + 1;
    }
    proof {
        assert(tokens.deep_view().take(tokens@.len() as int) =~= tokens.deep_view());
    }
    out
}

} // verus!
