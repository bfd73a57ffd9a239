//! Answering a `getblocks` request: the walk along the chain from a locator hash.
//!
//! The chain store lives outside the library. The code that owns it asks
//! [`LocatorWalk::start`] where to begin, given which locator hashes the chain holds,
//! then feeds [`LocatorWalk::step`] the successor of the current hash until the walk
//! is done.
use vstd::prelude::*;
use crate::codec::{bytes_eq, copy_bytes};
use crate::message::GetBlocks;

verus! {

/// A walk in progress: the hash reached, the hash to stop at, and the hashes walked
/// so far, each paired with a height placeholder of 1.
pub struct LocatorWalk {
    pub current: Vec<u8>,
    pub stop: Vec<u8>,
    pub walked: Vec<(Vec<u8>, u32)>,
    pub done: bool,
}

/// The meaning of walked pairs: hash and height placeholder.
pub open spec fn walked_view(w: Seq<(Vec<u8>, u32)>) -> Seq<(Seq<u8>, u32)> {
    w.map_values(|p: (Vec<u8>, u32)| (p.0@, p.1))
}

impl LocatorWalk {
    /// Starts at the first locator hash that the chain holds: `known[i]` tells whether
    /// it holds `request.block_locator[i]`. Later locator hashes are not tried.
    pub fn start(request: &GetBlocks, known: &Vec<bool>) -> (r: Option<LocatorWalk>)
        ensures
            (r is None) <==> !exists|i: int|
                0 <= i < request.block_locator@.len() && i < known@.len() && known@[i],
            r matches Some(w) ==> {
                &&& exists|i: int|
                    0 <= i < request.block_locator@.len() && i < known@.len() && known@[i]
                        && (forall|j: int| 0 <= j < i ==> !known@[j]) && w.current@
                        == request.block_locator@[i]@
                &&& w.stop@ == request.hash_stop@
                &&& w.walked@.len() == 0
                &&& !w.done
            },
    {
        let mut i: usize = 0;
        while i < request.block_locator.len() && i < known.len()
            invariant
                i <= request.block_locator@.len(),
                forall|j: int| 0 <= j < i && j < known@.len() ==> !known@[j],
            decreases request.block_locator@.len() - i,
        {
            if known[i] {
                return Some(
                    LocatorWalk {
                        current: copy_bytes(&request.block_locator[i]),
                        stop: copy_bytes(&request.hash_stop),
                        walked: Vec::new(),
                        done: false,
                    },
                );
            }
            i = i + 1;
        }
        None
    }

    /// Takes the successor of the current hash, or `None` when the chain has none.
    /// The walk ends at the end of the chain or on reaching the stop hash.
    pub fn step(&mut self, next: Option<Vec<u8>>)
        requires
            !old(self).done,
        ensures
            final(self).stop@ == old(self).stop@,
            match next {
                None => {
                    &&& final(self).done
                    &&& walked_view(final(self).walked@) == walked_view(old(self).walked@)
                    &&& final(self).current@ == old(self).current@
                },
                Some(h) => {
                    &&& walked_view(final(self).walked@) == walked_view(old(self).walked@).push(
                        (h@, 1u32),
                    )
                    &&& final(self).current@ == h@
                    &&& final(self).done == (h@ == old(self).stop@)
                },
            },
    {
        match next {
            None => {
                self.done = true;
            },
            Some(h) => {
                let ghost before = walked_view(self.walked@);
                self.done = bytes_eq(&h, &self.stop);
                self.walked.push((copy_bytes(&h), 1));
                assert(walked_view(self.walked@) =~= before.push((h@, 1u32)));
                self.current = h;
            },
        }
    }

    /// The hashes walked, each with its height placeholder.
    pub fn hashes(self) -> (r: Vec<(Vec<u8>, u32)>)
        ensures
            walked_view(r@) == walked_view(self.walked@),
    {
        self.walked
    }
}

} // verus!
