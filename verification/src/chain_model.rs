//! Trusted interface to the `markov` crate.
//!
//! The order-*k* chain itself is the `markov` crate's `Chain<String>`.
//! Verus cannot declare that type directly (its `Chainable` bound is a
//! trait of the outside crate), so a chain travels inside the opaque
//! [`TokenChain`] holder below, and verification believes only the
//! contracts here, each checked against that crate's source.  The
//! whole novelty policy is enforced outside the chain, in verified
//! code, so nothing here needs to describe which tokens a generation
//! returns.

use vstd::prelude::*;

verus! {

/// The `serde_yaml` error type, returned by the blob codec calls.
#[verifier::external_type_specification]
#[verifier::external_body]
pub struct ExYamlError(serde_yaml::Error);

/// An opaque holder of one `markov::Chain<String>`.
#[verifier::external_body]
pub struct TokenChain {
    inner: markov::Chain<String>,
}

/// Whether nothing has ever been fed into the chain, as the `markov`
/// crate's `Chain::is_empty` reports it.
pub uninterp spec fn chain_empty(c: TokenChain) -> bool;

/// Whether the chain has the shape that feeding builds: a positive
/// order, the start state present in the state map, and every state a
/// walk can reach populated.  `Chain::of_order` establishes it and
/// `Chain::feed` preserves it; the reading calls require it, because
/// on a chain of any other shape (such as one deserialized from a
/// crafted text) the `markov` crate indexes missing map entries, or
/// draws from an empty range, and panics.
pub uninterp spec fn chain_wf(c: TokenChain) -> bool;

/// Whether `s` is a `serde_yaml` rendering of the chain value `c`
/// (the output of `to_string` on that value).
pub uninterp spec fn yaml_renders(c: TokenChain, s: Seq<char>) -> bool;

/// Whether `serde_yaml::to_string` succeeds on the chain value — a
/// function of the value alone.
pub uninterp spec fn chain_serializes(c: TokenChain) -> bool;

impl TokenChain {
    /// Relies on markov's `Chain::of_order`: a fresh chain of the
    /// given order with nothing fed into it, its start state present.
    /// That crate panics on order zero, so zero is excluded here.
    #[verifier::external_body]
    pub fn of_order(order: usize) -> (r: TokenChain)
        requires
            order >= 1,
        ensures
            chain_empty(r),
            chain_wf(r),
    {
        TokenChain { inner: markov::Chain::of_order(order) }
    }

    /// Relies on markov's `Chain::is_empty`: true exactly when nothing
    /// has been fed.  It indexes the start state, so the chain must be
    /// well-shaped.
    #[verifier::external_body]
    pub fn is_empty(&self) -> (r: bool)
        requires
            chain_wf(*self),
        ensures
            r == chain_empty(*self),
    {
        self.inner.is_empty()
    }

    /// Relies on markov's `Chain::feed`: records the windows of the
    /// token sequence through the entry API (which inserts missing
    /// states, so well-shapedness is preserved).  An empty sequence is
    /// ignored by that crate; a non-empty one leaves the chain
    /// non-empty.
    #[verifier::external_body]
    pub fn feed(&mut self, tokens: &Vec<String>)
        ensures
            tokens@.len() > 0 ==> !chain_empty(*final(self)),
            tokens@.len() == 0 ==> chain_empty(*final(self)) == chain_empty(*old(self)),
            chain_wf(*old(self)) ==> chain_wf(*final(self)),
    {
        self.inner.feed(tokens.as_slice());
    }

    /// Relies on markov's `Chain::generate`: a random walk from the
    /// start state.  The walk indexes the state map, and on an empty
    /// chain the start state has no successor, so the chain must be
    /// well-shaped and non-empty.  Which tokens come back is random;
    /// callers validate the result themselves.
    #[verifier::external_body]
    pub fn generate(&self) -> Vec<String>
        requires
            chain_wf(*self),
            !chain_empty(*self),
    {
        self.inner.generate()
    }

    /// Relies on markov's `Chain::generate_from_token`: the empty
    /// vector when the token never opened a fed sequence (checked
    /// before any walk), else a random walk whose first token is the
    /// seed.  The walk indexes the state map, so the chain must be
    /// well-shaped.
    #[verifier::external_body]
    pub fn generate_from_token(&self, token: &str) -> (r: Vec<String>)
        requires
            chain_wf(*self),
        ensures
            r@.len() > 0 ==> r@[0]@ == token@,
    {
        self.inner.generate_from_token(token.to_owned())
    }

    /// Relies on serde_yaml's `to_string` over markov's `Chain` (which
    /// derives `Serialize`): a textual rendering of the chain's state.
    /// Whether the call succeeds is a function of the value alone
    /// (`chain_serializes`); on success the text renders this value.
    /// A string holds at most `usize::MAX` characters.
    #[verifier::external_body]
    pub fn to_yaml(&self) -> (r: Result<String, serde_yaml::Error>)
        ensures
            r is Ok <==> chain_serializes(*self),
            r is Ok ==> yaml_renders(*self, r->Ok_0@) && r->Ok_0@.len() <= usize::MAX,
    {
        serde_yaml::to_string(&self.inner)
    }

    /// Relies on serde_yaml's `from_str` over markov's `Chain` (which
    /// derives `Deserialize`): rebuilds a chain from such a rendering,
    /// or reports why the text is not one.  The serde round trip of
    /// these derived impls is faithful: a text that renders some chain
    /// value deserializes successfully, back to exactly that value.
    /// Of a text that renders no chain value, only the `Result` shape
    /// is known.
    #[verifier::external_body]
    pub fn from_yaml(s: &str) -> (r: Result<TokenChain, serde_yaml::Error>)
        ensures
            forall|c: TokenChain| #[trigger] yaml_renders(c, s@) ==> r is Ok && r->Ok_0 == c,
    {
        Ok(TokenChain { inner: serde_yaml::from_str(s)? })
    }
}

} // verus!
