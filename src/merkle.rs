//! The merkle root of an ordered list of hashes.
use vstd::prelude::*;
use crate::codec::{copy_bytes, push_bytes, views, zeros};
use crate::hash::{double_hash, double_sha256};

verus! {

/// `hs` with its last item repeated when its length is odd.
pub open spec fn pad_even(hs: Seq<Seq<u8>>) -> Seq<Seq<u8>> {
    if hs.len() % 2 == 1 {
        hs.push(hs.last())
    } else {
        hs
    }
}

/// The parents of consecutive pairs: items 0 and 1, then 2 and 3, and so on.
pub open spec fn pair_level(hs: Seq<Seq<u8>>) -> Seq<Seq<u8>> {
    Seq::new(hs.len() / 2, |i: int| double_sha256(hs[2 * i] + hs[2 * i + 1]))
}

/// Pairs up the levels of the tree until one hash is left.
pub open spec fn merkle_reduce(hs: Seq<Seq<u8>>) -> Seq<u8>
    decreases hs.len(),
{
    if hs.len() <= 1 {
        hs[0]
    } else {
        merkle_reduce(pair_level(pad_even(hs)))
    }
}

/// The merkle root: 32 zero bytes for no hash; a single hash is paired with itself.
pub open spec fn merkle_root(hs: Seq<Seq<u8>>) -> Seq<u8> {
    if hs.len() == 0 {
        Seq::new(32, |i: int| 0u8)
    } else if hs.len() == 1 {
        merkle_reduce(seq![hs[0], hs[0]])
    } else {
        merkle_reduce(hs)
    }
}

/// The root of no hash is all zeros, and one hash gives the root of that hash twice.
pub proof fn lemma_merkle_root_small(h: Seq<u8>)
    ensures
        merkle_root(Seq::empty()) == Seq::new(32, |i: int| 0u8),
        merkle_root(seq![h]) == merkle_root(seq![h, h]),
{
    assert(seq![h][0] == h);
}

/// Computes the next level of the tree.
fn next_level(level: &Vec<Vec<u8>>) -> (r: Vec<Vec<u8>>)
    requires
        level@.len() % 2 == 0,
    ensures
        views(r@) == pair_level(views(level@)),
{
    let ghost hs = views(level@);
    let mut next: Vec<Vec<u8>> = Vec::new();
    let mut i: usize = 0;
    let total = level.len();
    let half = total / 2;
    while i < half
        invariant
            total == level@.len(),
            half == level@.len() / 2,
            level@.len() % 2 == 0,
            i <= half,
            hs == views(level@),
            views(next@) == pair_level(hs).take(i as int),
        decreases half - i,
    {
        let mut buf = copy_bytes(&level[2 * i]);
        push_bytes(&mut buf, &level[2 * i + 1]);
        let h = double_hash(&buf);
        let ghost before = next@;
        next.push(h);
        assert(views(next@) =~= views(before).push(h@));
        i = i + 1;
        assert(views(next@) =~= pair_level(hs).take(i as int));
    }
    assert(pair_level(hs).take(i as int) =~= pair_level(hs));
    next
}

/// The merkle root of `hashes`, in their order.
pub fn compute_merkle_root(hashes: Vec<Vec<u8>>) -> (r: Vec<u8>)
    ensures
        r@ == merkle_root(views(hashes@)),
{
    let ghost hs = views(hashes@);
    if hashes.len() == 0 {
        return zeros(32);
    }
    let mut level = hashes;
    if level.len() == 1 {
        let h = copy_bytes(&level[0]);
        level.push(h);
        assert(views(level@) =~= seq![hs[0], hs[0]]);
    }
    while level.len() > 1
        invariant
            level@.len() >= 1,
            merkle_reduce(views(level@)) == merkle_root(hs),
        decreases level@.len(),
    {
        let ghost cur = views(level@);
        if level.len() % 2 == 1 {
            let last = copy_bytes(&level[level.len() - 1]);
            level.push(last);
            assert(views(level@) =~= pad_even(cur));
        } else {
            assert(views(level@) =~= pad_even(cur));
        }
        let ghost padded = views(level@);
        assert(padded.len() == level@.len());
        level = next_level(&level);
        assert(views(level@).len() == level@.len());
        assert(level@.len() == padded.len() / 2);
    }
    let r = copy_bytes(&level[0]);
    r
}

} // verus!
