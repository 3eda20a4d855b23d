//! Scope names, compared by their text.

use vstd::prelude::*;

verus! {

/// The name of a scope: either a string known at compile time or one built
/// at run time. Two names are the same name when their text is the same,
/// whichever variant holds it.
#[derive(Debug)]
pub enum ScopeName {
    Borrowed(&'static str),
    Owned(String),
}

impl View for ScopeName {
    type V = Seq<char>;

    open spec fn view(&self) -> Seq<char> {
        match self {
            ScopeName::Borrowed(s) => s@,
            ScopeName::Owned(s) => s@,
        }
    }
}

/// Trusted: `str`'s `==` from the standard library. The contract claims that
/// it holds exactly when both slices hold the same characters.
#[verifier::external_body]
fn str_eq(a: &str, b: &str) -> (same: bool)
    ensures
        same == (a@ == b@),
{
    a == b
}

impl Clone for ScopeName {
    fn clone(&self) -> (copy: ScopeName)
        ensures
            copy@ == self@,
    {
        match self {
            ScopeName::Borrowed(s) => ScopeName::Borrowed(s),
            ScopeName::Owned(s) => ScopeName::Owned(s.clone()),
        }
    }
}

impl PartialEq for ScopeName {
    fn eq(&self, other: &ScopeName) -> (same: bool) {
        str_eq(self.as_str(), other.as_str())
    }
}

impl vstd::std_specs::cmp::PartialEqSpecImpl for ScopeName {
    open spec fn obeys_eq_spec() -> bool {
        true
    }

    open spec fn eq_spec(&self, other: &ScopeName) -> bool {
        self@ == other@
    }
}

impl Eq for ScopeName {

}

impl ScopeName {
    /// The text of the name.
    pub fn as_str(&self) -> (text: &str)
        ensures
            text@ == self@,
    {
        match self {
            ScopeName::Borrowed(s) => s,
            ScopeName::Owned(s) => s.as_str(),
        }
    }

    /// Whether `self` and `other` are the same name.
    pub fn same_as(&self, other: &ScopeName) -> (same: bool)
        ensures
            same == (self@ == other@),
    {
        self == other
    }
}

} // verus!
