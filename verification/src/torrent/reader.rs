use crate::bencode::decoder::Decoder;
use crate::torrent::types::Torrent;
use vstd::prelude::*;

verus! {

pub struct TorrentReader {
    decoder: Decoder,
}

impl TorrentReader {
    pub fn new(decoder: Decoder) -> Self {
        Self { decoder }
    }

    /// Reads a torrent file's contents. Nothing is read from them yet: every
    /// text gives an empty tracker URL and a length of zero.
    pub fn read(self, data: String) -> (r: Result<Torrent, String>)
        ensures
            r is Ok,
            r->Ok_0.url@ == Seq::<char>::empty(),
            r->Ok_0.length == 0,
    {
        Ok(Torrent { url: String::new(), length: 0 })
    }
}

} // verus!
