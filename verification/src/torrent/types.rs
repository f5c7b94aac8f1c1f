use vstd::prelude::*;

verus! {

/// What a torrent file tells: where its tracker is and how long its content
/// is.
#[derive(Debug, PartialEq, Eq)]
pub struct Torrent {
    pub url: String,
    pub length: usize,
}

} // verus!
