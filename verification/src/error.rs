//! Why a save could not be loaded.

use vstd::prelude::*;

verus! {

/// A failure that concerns the whole document. A record that cannot be
/// decoded is no error: it is left out.
#[derive(Debug, Clone, PartialEq, Eq)]
pub enum LoadError {
    /// The file could not be read; the text says why.
    Io(String),
    /// The text is not well-formed XML; the text says where and why.
    Parse(String),
}

impl LoadError {
    /// The text that the error carries.
    pub open spec fn text(&self) -> Seq<char> {
        match *self {
            LoadError::Io(m) => m@,
            LoadError::Parse(m) => m@,
        }
    }

    /// The text to show to the user.
    pub fn message(&self) -> (text: String)
        ensures
            text@ == self.text(),
    {
        match self {
            LoadError::Io(m) => m.clone(),
            LoadError::Parse(m) => m.clone(),
        }
    }
}

} // verus!
