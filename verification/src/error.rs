//! Why a dataset was refused.

use vstd::prelude::*;

verus! {

/// The failure of a load.
#[derive(Clone, Copy, Debug, PartialEq, Eq, Structural)]
pub enum LoadError {
    /// The dataset is not a table of the expected columns, or one of its rows
    /// holds a value that its column cannot take.
    DatasetCorrupt,
}

impl LoadError {
    /// A sentence that says what went wrong.
    pub fn message(&self) -> (s: String)
        ensures
            s@ == "the dataset is corrupt"@,
    {
        "the dataset is corrupt".to_owned()
    }
}

} // verus!
