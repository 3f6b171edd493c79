//! What a cache key is made from.

use crate::order::texts;
use vstd::prelude::*;

verus! {

/// The patterns whose files go into a key, and what is put in front of it.
#[derive(Debug, Clone)]
pub struct Key {
    /// Glob patterns, relative to the root directory or absolute. They may
    /// repeat and overlap.
    pub files: Vec<String>,
    /// Put in front of the digest, with a hyphen between the two.
    pub prefix: Option<String>,
}

/// A [`Key`] as the contracts read it.
pub struct KeyView {
    pub files: Seq<Seq<char>>,
    pub prefix: Option<Seq<char>>,
}

impl View for Key {
    type V = KeyView;

    open spec fn view(&self) -> KeyView {
        KeyView {
            files: texts(self.files@),
            prefix: match self.prefix {
                Some(p) => Some(p@),
                None => None,
            },
        }
    }
}

} // verus!
