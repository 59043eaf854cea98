//! States: the kinds of files that a driver knows.

use crate::text::str_eq;
use vstd::prelude::*;

verus! {

/// The details about a given state.
pub struct State {
    pub name: String,
    pub extensions: Vec<String>,
}

impl State {
    /// Whether `ext` is among the extensions of the state.
    pub open spec fn has_extension(self, ext: Seq<char>) -> bool {
        exists|i: int| 0 <= i < self.extensions@.len() && #[trigger] self.extensions@[i]@ == ext
    }

    /// Check whether a filename extension indicates this state.
    pub fn ext_matches(&self, ext: &str) -> (matches: bool)
        ensures
            matches == self.has_extension(ext@),
    {
        for i in 0..self.extensions.len()
            invariant
                forall|j: int| 0 <= j < i ==> #[trigger] self.extensions@[j]@ != ext@,
        {
            if str_eq(self.extensions[i].as_str(), ext) {
                return true;
            }
        }
        false
    }

    /// An extension indicates a state exactly if it is equal, whole, to one of the
    /// extensions of the state.
    pub proof fn law_ext_matches(self, ext: &str, matches: bool)
        requires
            call_ensures(State::ext_matches, (&self, ext), matches),
        ensures
            matches <==> exists|i: int|
                0 <= i < self.extensions@.len() && (#[trigger] self.extensions@[i])@ == ext@,
    {
        if matches {
            let i = choose|i: int|
                0 <= i < self.extensions@.len() && #[trigger] self.extensions@[i]@ == ext@;
            assert(self.extensions@[i]@ == ext@);
        }
    }
}

} // verus!
