//! A deterministic digest of token sequences.
//!
//! The dedup index stores digests of token sequences rather than the
//! sequences themselves.  The digest is a rotate-and-xor fold over the
//! characters of each token, with a fixed mark mixed in after every
//! token so that token boundaries matter (`["ab"]` and `["a", "b"]`
//! digest differently).  It is fully defined here, so equal token
//! sequences always digest equally.

use vstd::prelude::*;

verus! {

/// The digest of the empty token sequence.
pub const DIGEST_SEED: u64 = 0xcbf29ce484222325;

/// Mixed in after each token to separate token boundaries.
pub const TOKEN_MARK: u64 = 0x9e3779b97f4a7c15;

/// One mixing step: rotate the accumulator and fold a value in.
pub open spec fn mix(h: u64, v: u64) -> u64 {
    (((h << 7) | (h >> 57)) ^ v)
}

/// Folds the characters of one token into the accumulator.
pub open spec fn digest_word(h: u64, w: Seq<char>) -> u64
    decreases w.len(),
{
    if w.len() == 0 {
        h
    } else {
        mix(digest_word(h, w.drop_last()), w.last() as u64)
    }
}

/// Folds a whole token sequence, marking each token boundary.
pub open spec fn digest_from(h: u64, ts: Seq<Seq<char>>) -> u64
    decreases ts.len(),
{
    if ts.len() == 0 {
        h
    } else {
        mix(digest_word(digest_from(h, ts.drop_last()), ts.last()), TOKEN_MARK)
    }
}

/// The digest of a token sequence.
pub open spec fn digest(ts: Seq<Seq<char>>) -> u64 {
    digest_from(DIGEST_SEED, ts)
}

/// Exec form of `mix`.
pub fn mix_step(h: u64, v: u64) -> (r: u64)
    ensures
        r == mix(h, v),
{
    ((h << 7u64) | (h >> 57u64)) ^ v
}

/// Folds one token into a running digest.
pub fn fold_token(h: u64, t: &str) -> (r: u64)
    ensures
        r == mix(digest_word(h, t@), TOKEN_MARK),
{
    let cs = crate::strutil::chars_of(t);
    let mut acc = h;
    let mut j: usize = 0;
    while j < cs.len()
        invariant
            j <= cs.len(),
            acc == digest_word(h, cs@.take(j as int)),
        decreases cs.len() - j,
    {
        proof {
            assert(cs@.take(j + 1).drop_last() =~= cs@.take(j as int));
            assert(cs@.take(j + 1).last() == cs@[j as int]);
        }
        acc = mix_step(acc, cs[j] as u64);
        j = j + 1;
    }
    proof {
        assert(cs@.take(cs@.len() as int) =~= cs@);
    }
    mix_step(acc, TOKEN_MARK)
}

/// Extending a token sequence by one token extends its digest by one
/// fold.
pub proof fn lemma_digest_snoc(h: u64, ts: Seq<Seq<char>>, w: Seq<char>)
    ensures
        digest_from(h, ts.push(w)) == mix(digest_word(digest_from(h, ts), w), TOKEN_MARK),
{
    assert(ts.push(w).drop_last() =~= ts);
    assert(ts.push(w).last() == w);
}

/// The digest of a whole token list.
pub fn digest_tokens(ts: &Vec<String>) -> (r: u64)
    ensures
        r == digest(ts.deep_view()),
{
    let mut acc = DIGEST_SEED;
    let mut i: usize = 0;
    while i < ts.len()
        invariant
            i <= ts.len(),
            acc == digest_from(DIGEST_SEED, ts.deep_view().take(i as int)),
        decreases ts.len() - i,
    {
        proof {
            assert(ts.deep_view().take(i + 1).drop_last() =~= ts.deep_view().take(i as int));
            assert(ts.deep_view().take(i + 1).last() == ts.deep_view()[i as int]);
            assert(ts.deep_view()[i as int] == ts@[i as int].deep_view());
        }
        acc = fold_token(acc, ts[i].as_str());
        i = i + 1;
    }
    proof {
        assert(ts.deep_view().take(ts@.len() as int) =~= ts.deep_view());
    }
    acc
}

} // verus!
