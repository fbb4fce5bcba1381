//! The two on-disk encodings of a log: line-delimited JSON text (`.osh`) and
//! length-prefixed MessagePack frames (`.bosh`).

pub mod json_lines;
pub mod rmp;

use vstd::prelude::*;

verus! {

/// The encoding of a log file.
#[derive(Clone, Copy, Debug, PartialEq, Eq)]
pub enum Kind {
    JsonLines,
    Rmp,
}

impl Kind {
    /// The file name extension that marks a log of this encoding.
    pub open spec fn extension_spec(self) -> Seq<char> {
        match self {
            Kind::JsonLines => seq!['o', 's', 'h'],
            Kind::Rmp => seq!['b', 'o', 's', 'h'],
        }
    }

    /// The file name extension of this encoding, without the dot.
    pub fn extension(&self) -> (r: String)
        ensures
            r@ == self.extension_spec(),
    {
        match self {
            Kind::JsonLines => {
                let r = String::from_str("osh");
                proof {
                    reveal_strlit("osh");
                }
                r
            },
            Kind::Rmp => {
                let r = String::from_str("bosh");
                proof {
                    reveal_strlit("bosh");
                }
                r
            },
        }
    }
}

} // verus!
