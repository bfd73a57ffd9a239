//! The pool of transactions waiting for a block, and of orphans waiting for their inputs.
use vstd::prelude::*;
use crate::block::claimed_views;
use crate::codec::{copy_bytes, duplicate_all, views, Duplicate};
use crate::error::Error;
use crate::keyed::KeyedVec;
use crate::transaction::{
    tx_hash, tx_valid, Outpoint, SpecOutpoint, SpecTransaction, SpecTxIn, SpecTxOut, Transaction,
    TxOut, TxTxo,
};

verus! {

/// `m` after recording, for each input in turn whose transaction is not in `known`,
/// the outpoint it waits for, under that transaction's hash.
pub open spec fn record_missing(
    m: Map<Seq<u8>, SpecOutpoint>,
    known: Map<Seq<u8>, SpecTransaction>,
    inputs: Seq<SpecTxIn>,
) -> Map<Seq<u8>, SpecOutpoint>
    decreases inputs.len(),
{
    if inputs.len() == 0 {
        m
    } else {
        let prev = record_missing(m, known, inputs.drop_last());
        let o = inputs.last().previous_output;
        if known.contains_key(o.hash) {
            prev
        } else {
            prev.insert(o.hash, o)
        }
    }
}

/// Some input spends an output of a transaction that is not in `known`.
pub open spec fn has_missing_input(known: Map<Seq<u8>, SpecTransaction>, t: SpecTransaction) -> bool {
    exists|i: int| 0 <= i < t.inputs.len() && !known.contains_key(#[trigger] t.inputs[i].previous_output.hash)
}

/// All the outputs found for the inputs, one list after the other.
pub open spec fn all_claimed(found: Seq<Seq<SpecTxOut>>) -> Seq<SpecTxOut>
    decreases found.len(),
{
    if found.len() == 0 {
        Seq::empty()
    } else {
        all_claimed(found.drop_last()) + found.last()
    }
}

/// A transaction is accepted when an unspent output was found for every input
/// (`found[i]` for input `i`) and it is valid against all of them.
pub open spec fn accepted(t: SpecTransaction, found: Seq<Seq<SpecTxOut>>) -> bool {
    &&& found.len() == t.inputs.len()
    &&& forall|i: int| 0 <= i < found.len() ==> (#[trigger] found[i]).len() > 0
    &&& tx_valid(t, all_claimed(found))
}

/// Pending transactions and orphans, keyed by transaction hash, and the outpoints they wait for.
pub struct Mempool {
    pub txs: KeyedVec<Transaction>,
    pub orphans: KeyedVec<Transaction>,
    pub outpoints: KeyedVec<Outpoint>,
    pub orphans_outpoints: KeyedVec<Outpoint>,
}

impl Mempool {
    /// Each map is well formed, and no hash is both pending and an orphan.
    pub open spec fn wf(&self) -> bool {
        &&& self.txs.wf()
        &&& self.orphans.wf()
        &&& self.outpoints.wf()
        &&& self.orphans_outpoints.wf()
        &&& forall|k: Seq<u8>| !(#[trigger] self.txs@.contains_key(k) && self.orphans@.contains_key(k))
    }

    pub fn new() -> (r: Mempool)
        ensures
            r.wf(),
            r.txs@ == Map::<Seq<u8>, SpecTransaction>::empty(),
            r.orphans@ == Map::<Seq<u8>, SpecTransaction>::empty(),
            r.outpoints@ == Map::<Seq<u8>, SpecOutpoint>::empty(),
            r.orphans_outpoints@ == Map::<Seq<u8>, SpecOutpoint>::empty(),
    {
        Mempool {
            txs: KeyedVec::new(),
            orphans: KeyedVec::new(),
            outpoints: KeyedVec::new(),
            orphans_outpoints: KeyedVec::new(),
        }
    }

    /// Whether the hash is that of a pending transaction or of an orphan.
    pub fn contains_tx(&self, hash: Vec<u8>) -> (r: bool)
        requires
            self.wf(),
        ensures
            r == (self.txs@.contains_key(hash@) || self.orphans@.contains_key(hash@)),
    {
        self.txs.contains_key(&hash) || self.orphans.contains_key(&hash)
    }

    /// Whether `h` is neither pending nor an orphan.
    pub open spec fn is_unknown(&self) -> spec_fn(Seq<u8>) -> bool {
        |h: Seq<u8>| !(self.txs@.contains_key(h) || self.orphans@.contains_key(h))
    }

    /// The hashes of `hashes` that are neither pending nor orphans, in their order.
    pub fn unknown_txs(&self, hashes: &Vec<Vec<u8>>) -> (r: Vec<Vec<u8>>)
        requires
            self.wf(),
        ensures
            views(r@) == views(hashes@).filter(self.is_unknown()),
    {
        let ghost hs = views(hashes@);
        let mut r: Vec<Vec<u8>> = Vec::new();
        let mut i: usize = 0;
        while i < hashes.len()
            invariant
                i <= hashes@.len(),
                hs == views(hashes@),
                self.wf(),
                views(r@) == hs.take(i as int).filter(self.is_unknown()),
            decreases hashes@.len() - i,
        {
            let ghost p = self.is_unknown();
            proof {
                reveal(Seq::filter);
            }
            assert(hs.take(i + 1).drop_last() =~= hs.take(i as int));
            assert(hs[i as int] == hashes@[i as int]@);
            assert(hs.take(i + 1).filter(p) == if p(hs[i as int]) {
                hs.take(i as int).filter(p).push(hs[i as int])
            } else {
                hs.take(i as int).filter(p)
            });
            if !self.contains_tx(copy_bytes(&hashes[i])) {
                let ghost before = views(r@);
                let h = copy_bytes(&hashes[i]);
                r.push(h);
                assert(views(r@) =~= before.push(h@));
            }
            i = i + 1;
        }
        assert(hs.take(i as int) =~= hs);
        r
    }

    /// Admits `tx`, given the unspent outputs found for each of its inputs (`found[i]`
    /// for input `i`, empty when none was found).
    ///
    /// Every input whose transaction is not pending has its outpoint recorded as awaited,
    /// and the transaction is kept as an orphan (unless it is pending already). When an
    /// output was found for every input and the transaction is valid against them, it
    /// becomes pending and stops being an orphan; otherwise `TxNotValid` is returned.
    pub fn add_tx(&mut self, tx: &Transaction, found: &Vec<Vec<TxOut>>) -> (r: Result<(), Error>)
        requires
            old(self).wf(),
        ensures
            final(self).wf(),
            final(self).outpoints@ == old(self).outpoints@,
            final(self).orphans_outpoints@ == record_missing(
                old(self).orphans_outpoints@,
                old(self).txs@,
                tx@.inputs,
            ),
            accepted(tx@, claimed_views(found@)) ==> {
                &&& r is Ok
                &&& final(self).txs@ == old(self).txs@.insert(tx_hash(tx@), tx@)
                &&& final(self).orphans@ == old(self).orphans@.remove(tx_hash(tx@))
            },
            !accepted(tx@, claimed_views(found@)) ==> {
                &&& r == Err::<(), Error>(Error::TxNotValid)
                &&& final(self).txs@ == old(self).txs@
                &&& final(self).orphans@ == if has_missing_input(old(self).txs@, tx@)
                    && !old(self).txs@.contains_key(tx_hash(tx@)) {
                    old(self).orphans@.insert(tx_hash(tx@), tx@)
                } else {
                    old(self).orphans@
                }
            },
    {
        let h = tx.hash();
        let missing = self.record_awaited(tx);
        if missing && !self.txs.contains_key(&h) {
            self.orphans.insert(copy_bytes(&h), tx.duplicate());
        }
        let claimed = match collect_claimed(tx, found) {
            None => return Err(Error::TxNotValid),
            Some(c) => c,
        };
        let txo = TxTxo::new(tx, claimed);
        if !txo.is_valid() {
            return Err(Error::TxNotValid);
        }
        self.orphans.remove(&h);
        self.txs.insert(h, tx.duplicate());
        Ok(())
    }

    /// Records the outpoint of each input whose transaction is not pending; tells
    /// whether there was such an input.
    fn record_awaited(&mut self, tx: &Transaction) -> (missing: bool)
        requires
            old(self).wf(),
        ensures
            final(self).wf(),
            final(self).txs == old(self).txs,
            final(self).orphans == old(self).orphans,
            final(self).outpoints == old(self).outpoints,
            final(self).orphans_outpoints@ == record_missing(
                old(self).orphans_outpoints@,
                old(self).txs@,
                tx@.inputs,
            ),
            missing == has_missing_input(old(self).txs@, tx@),
    {
        let ghost known = self.txs@;
        let ghost inputs = tx@.inputs;
        let mut missing = false;
        let mut i: usize = 0;
        while i < tx.inputs.len()
            invariant
                i <= tx.inputs@.len(),
                inputs == tx@.inputs,
                known == old(self).txs@,
                self.wf(),
                self.txs == old(self).txs,
                self.orphans == old(self).orphans,
                self.outpoints == old(self).outpoints,
                self.orphans_outpoints@ == record_missing(
                    old(self).orphans_outpoints@,
                    known,
                    inputs.take(i as int),
                ),
                missing == exists|j: int|
                    0 <= j < i && !known.contains_key(#[trigger] inputs[j].previous_output.hash),
            decreases tx.inputs@.len() - i,
        {
            let o = &tx.inputs[i].previous_output;
            assert(inputs.take(i + 1).drop_last() =~= inputs.take(i as int));
            assert(inputs[i as int].previous_output == o@);
            if !self.txs.contains_key(&o.hash) {
                missing = true;
                assert(!known.contains_key(inputs[i as int].previous_output.hash));
                self.orphans_outpoints.insert(copy_bytes(&o.hash), o.duplicate());
            } else {
                assert forall|j: int|
                    0 <= j < i + 1 && !known.contains_key(
                        #[trigger] inputs[j].previous_output.hash,
                    ) implies 0 <= j < i by {
                    if j == i {
                        assert(known.contains_key(inputs[j].previous_output.hash));
                    }
                }
            }
            i = i + 1;
        }
        assert(inputs.take(i as int) =~= inputs);
        missing
    }
}

/// All the outputs found for the inputs, or `None` when some input has none or the
/// lists do not match the inputs.
fn collect_claimed(tx: &Transaction, found: &Vec<Vec<TxOut>>) -> (r: Option<Vec<TxOut>>)
    ensures
        r is Some <==> (found@.len() == tx@.inputs.len() && forall|i: int|
            0 <= i < found@.len() ==> (#[trigger] claimed_views(found@)[i]).len() > 0),
        r matches Some(c) ==> views(c@) == all_claimed(claimed_views(found@)),
{
    if found.len() != tx.inputs.len() {
        return None;
    }
    let ghost cv = claimed_views(found@);
    let mut claimed: Vec<TxOut> = Vec::new();
    let mut j: usize = 0;
    while j < found.len()
        invariant
            j <= found@.len(),
            found@.len() == tx@.inputs.len(),
            cv == claimed_views(found@),
            forall|a: int| 0 <= a < j ==> (#[trigger] cv[a]).len() > 0,
            views(claimed@) == all_claimed(cv.take(j as int)),
        decreases found@.len() - j,
    {
        if found[j].len() == 0 {
            assert(cv[j as int].len() == 0);
            return None;
        }
        append_outputs(&mut claimed, &found[j]);
        assert(cv.take(j + 1).drop_last() =~= cv.take(j as int));
        j = j + 1;
    }
    assert(cv.take(j as int) =~= cv);
    Some(claimed)
}

/// Appends copies of the outputs of `v` to `out`.
fn append_outputs(out: &mut Vec<TxOut>, v: &Vec<TxOut>)
    ensures
        views(final(out)@) == views(old(out)@) + views(v@),
{
    let mut more = duplicate_all(v);
    let ghost a = out@;
    let ghost b = more@;
    out.append(&mut more);
    assert(views(a + b) =~= views(a) + views(b));
}

} // verus!
