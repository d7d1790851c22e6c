//! Options carried by commands.

use vstd::prelude::*;

verus! {

/// Options of a paste.
#[derive(Clone, Copy, Debug, PartialEq, Eq, Structural)]
pub struct PasteOpt {
    /// Overwrite what is at the destination.
    pub force: bool,
    /// Copy what symbolic links point to rather than the links.
    pub follow: bool,
}

/// Options of a seek in the preview.
#[derive(Clone, Copy, Debug, PartialEq, Eq, Structural)]
pub struct SeekOpt {
    pub units: i16,
}

} // verus!
