//! Text rendering vocabulary.
use vstd::prelude::*;

verus! {

/// Font weight of the text tool.
#[derive(Clone, Copy, PartialEq, Eq, Hash, Debug, Structural)]
pub enum Weight {
    Regular,
    Bold,
}

} // verus!
