use vstd::prelude::*;

verus! {

/// The two ways an operation on a disjoint set can be misused.
#[derive(Debug, Clone, Copy, PartialEq, Eq, Structural)]
pub enum HashDisjointSetError {
    /// An operation looked for an element that was never added.
    ElementNotDefined,
    /// An insertion named an element that is already present.
    DuplicateElement,
}

impl HashDisjointSetError {
    /// The sentence that describes the error.
    pub open spec fn message(self) -> Seq<char> {
        match self {
            HashDisjointSetError::ElementNotDefined => "The provided element is not defined in this set."@,
            HashDisjointSetError::DuplicateElement => "The element is already defined in this set."@,
        }
    }

    /// The error as a sentence for people to read.
    pub fn to_string(&self) -> (s: String)
        ensures
            s@ == self.message(),
    {
        match self {
            HashDisjointSetError::ElementNotDefined => {
                "The provided element is not defined in this set.".to_owned()
            },
            HashDisjointSetError::DuplicateElement => {
                "The element is already defined in this set.".to_owned()
            },
        }
    }
}

} // verus!
