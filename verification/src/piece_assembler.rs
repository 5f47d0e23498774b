//! The check that a downloaded piece is handed on to be written.
use vstd::prelude::*;
use crate::hash::{sha1, sha1_digest};
use crate::bencode::object::bytes_equal;

verus! {

/// Holds the SHA-1 of every piece of the torrent.
#[derive(Debug)]
pub struct PieceAssembler {
    piece_hashes: Vec<[u8; 20]>,
}

impl PieceAssembler {
    pub closed spec fn spec_hashes(&self) -> Seq<Seq<u8>> {
        Seq::new(self.piece_hashes@.len(), |i: int| self.piece_hashes@[i]@)
    }

    pub fn new(piece_hashes: Vec<[u8; 20]>) -> (r: Self)
        ensures
            r.spec_hashes() == Seq::new(piece_hashes@.len(), |i: int| piece_hashes@[i]@),
    {
        Self { piece_hashes }
    }

    /// Compares the SHA-1 of `data` with the hash of piece `index`, and is
    /// true when the two differ. A piece is handed on to the writer exactly
    /// when this is true.
    pub fn verify_piece(&self, index: usize, data: &[u8]) -> (r: bool)
        requires
            index < self.spec_hashes().len(),
        ensures
            r == (sha1_digest(data@) != self.spec_hashes()[index as int]),
    {
        let piece_hash = sha1(data);
        !bytes_equal(piece_hash.as_slice(), self.piece_hashes[index].as_slice())
    }
}

} // verus!
