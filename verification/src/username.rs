//! A participant's text identity.
//!
//! Equality between names is case-insensitive: the name is folded once
//! at construction, and the folded form is what comparisons, registry
//! slots and durable-store keys use.  The original casing is kept only
//! for display.

use vstd::prelude::*;

use crate::text::{fold, fold_of};
use vstd::std_specs::cmp::PartialEqSpec;

verus! {

/// A user name; compares case-insensitively.
pub struct UserName {
    original: String,
    folded: String,
}

impl UserName {
    /// The name as written.
    pub closed spec fn orig(self) -> Seq<char> {
        self.original@
    }

    /// The folded form: the identity used everywhere names are
    /// compared or stored.
    pub closed spec fn key(self) -> Seq<char> {
        self.folded@
    }

    /// The folded form is the case folding of the written form.
    pub open spec fn wf(self) -> bool {
        self.key() == fold_of(self.orig())
    }

    /// Builds a name, folding it once for identity purposes.
    pub fn new(name: &str) -> (r: UserName)
        ensures
            r.wf(),
            r.orig() == name@,
            r.key() == fold_of(name@),
    {
        UserName { original: name.to_owned(), folded: fold(name) }
    }

    /// The name as written, for display.
    pub fn display(&self) -> (r: &str)
        ensures
            r@ == self.orig(),
    {
        self.original.as_str()
    }

    /// The folded form, as used in store keys.
    pub fn key_str(&self) -> (r: &str)
        ensures
            r@ == self.key(),
    {
        self.folded.as_str()
    }

    /// Whether another name has the same identity (folded form).
    pub fn same_key(&self, other: &UserName) -> (r: bool)
        ensures
            r == (self.key() == other.key()),
    {
        self.folded == other.folded
    }

    /// An owned copy of the same identity.
    pub fn duplicate(&self) -> (r: UserName)
        ensures
            r.orig() == self.orig(),
            r.key() == self.key(),
    {
        UserName { original: self.original.clone(), folded: self.folded.clone() }
    }
}

impl PartialEq for UserName {
    /// Case-insensitive equality: the folded forms are compared.
    fn eq(&self, other: &UserName) -> (r: bool) {
        self.folded == other.folded
    }
}

impl vstd::std_specs::cmp::PartialEqSpecImpl for UserName {
    open spec fn obeys_eq_spec() -> bool {
        true
    }

    open spec fn eq_spec(&self, other: &UserName) -> bool {
        self.key() == other.key()
    }
}

/// Identity law: two names whose written forms fold to the same
/// characters are equal, and carry the same key, so every registry
/// keyed by that form gives them one slot.
pub proof fn lemma_username_case_insensitive(a: UserName, b: UserName)
    requires
        a.wf(),
        b.wf(),
        fold_of(a.orig()) == fold_of(b.orig()),
    ensures
        a.key() == b.key(),
        a.eq_spec(&b),
{
}

} // verus!
