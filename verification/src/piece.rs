//! One piece of the downloaded content: its data as collected so far, the
//! SHA-1 hash it must match, and which 16 KiB sub-pieces have arrived.
use crate::metainfo::{sha1_hash, sha1_of};
use crate::wire::{bits_of, bitvec_from_elem, bitvec_len};
use vstd::prelude::*;

verus! {

/// The number of 16 KiB sub-pieces a piece of this size divides into.
pub open spec fn spec_subpiece_count(piece_size: u32) -> int {
    piece_size as int / 16384 + (if piece_size as int % 16384 == 0 {
        0int
    } else {
        1int
    })
}

/// Holds the data of one piece while it downloads.
pub struct Piece {
    /// The piece's bytes as collected so far.
    pub data: Vec<u8>,
    /// The SHA-1 digest the finished piece must hash to.
    pub hash: [u8; 20],
    /// Which 16 KiB sub-pieces have been collected.
    pub sub_pieces: bit_vec::BitVec,
}

impl Piece {
    /// An empty piece of this size, to be verified against this hash.
    pub fn new(piece_size: u32, piece_hash: [u8; 20]) -> (r: Piece)
        ensures
            r.data@ == Seq::<u8>::empty(),
            r.hash@ == piece_hash@,
            bits_of(r.sub_pieces) == Seq::new(
                spec_subpiece_count(piece_size) as nat,
                |i: int| false,
            ),
    {
        let mut num_subpieces = piece_size / 16384;
        if piece_size % 16384 != 0 {
            num_subpieces = num_subpieces + 1;
        }
        Piece {
            data: Vec::new(),
            hash: piece_hash,
            sub_pieces: bitvec_from_elem(num_subpieces as usize, false),
        }
    }

    /// How many 16 KiB sub-pieces this piece divides into.
    pub fn sub_piece_count(&self) -> (r: usize)
        ensures
            r == bits_of(self.sub_pieces).len(),
    {
        bitvec_len(&self.sub_pieces)
    }

    /// Whether the collected data hashes to the piece's expected digest.
    pub fn verify(&self) -> (r: bool)
        ensures
            r == (sha1_of(self.data@) == self.hash@),
    {
        let digest = sha1_hash(self.data.as_slice());
        let mut i: usize = 0;
        while i < 20
            invariant
                0 <= i <= 20,
                digest@ == sha1_of(self.data@),
                forall|k: int| 0 <= k < i ==> digest@[k] == self.hash@[k],
            decreases 20 - i,
        {
            if digest[i] != self.hash[i] {
                proof {
                    assert(digest@[i as int] != self.hash@[i as int]);
                }
                return false;
            }
            i = i + 1;
        }
        proof {
            assert(digest@ =~= self.hash@);
        }
        true
    }
}

} // verus!
