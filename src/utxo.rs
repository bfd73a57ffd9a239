//! The stored form of the unspent outputs of a transaction: their encodings, one after the other.
use vstd::prelude::*;
use crate::codec::{concat_wire, views, write_many, Wire};
use crate::error::Error;
use crate::transaction::{SpecTxOut, TxOut};

verus! {

/// Reads outputs one after the other until the bytes run out.
pub open spec fn parse_outputs(s: Seq<u8>) -> Result<Seq<SpecTxOut>, Error>
    decreases s.len(),
{
    if s.len() == 0 {
        Ok(Seq::empty())
    } else {
        match TxOut::parse(s) {
            Err(e) => Err(e),
            Ok((o, n)) => if n == 0 || n > s.len() {
                Err(Error::Decode)
            } else {
                match parse_outputs(s.skip(n as int)) {
                    Err(e) => Err(e),
                    Ok(rest) => Ok(seq![o] + rest),
                }
            },
        }
    }
}

/// Stored outputs, read back, are the outputs.
pub proof fn lemma_outputs_round_trip(outs: Seq<SpecTxOut>)
    requires
        forall|i: int| 0 <= i < outs.len() ==> TxOut::valid(#[trigger] outs[i]),
    ensures
        parse_outputs(concat_wire::<TxOut>(outs)) == Ok::<Seq<SpecTxOut>, Error>(outs),
    decreases outs.len(),
{
    if outs.len() > 0 {
        let s = concat_wire::<TxOut>(outs);
        lemma_concat_front(outs);
        let first = TxOut::wire(outs[0]);
        let rest = concat_wire::<TxOut>(outs.drop_first());
        assert(TxOut::valid(outs[0]));
        TxOut::lemma_round_trip(outs[0], rest);
        assert(s.skip(first.len() as int) =~= rest);
        assert forall|i: int| 0 <= i < outs.drop_first().len() implies TxOut::valid(
            #[trigger] outs.drop_first()[i],
        ) by {
            assert(TxOut::valid(outs[i + 1]));
        }
        lemma_outputs_round_trip(outs.drop_first());
        assert(seq![outs[0]] + outs.drop_first() =~= outs);
        assert(first.len() > 0) by {
            crate::codec::lemma_be_bytes_len(outs[0].value as nat, 8);
        }
    } else {
        assert(outs =~= Seq::<SpecTxOut>::empty());
    }
}

/// The encodings of a nonempty list are the first one followed by the others.
proof fn lemma_concat_front(outs: Seq<SpecTxOut>)
    requires
        outs.len() > 0,
    ensures
        concat_wire::<TxOut>(outs) == TxOut::wire(outs[0]) + concat_wire::<TxOut>(outs.drop_first()),
    decreases outs.len(),
{
    if outs.len() > 1 {
        lemma_concat_front(outs.drop_last());
        assert(outs.drop_last().drop_first() =~= outs.drop_first().drop_last());
        assert(concat_wire::<TxOut>(outs) =~= TxOut::wire(outs[0]) + concat_wire::<TxOut>(
            outs.drop_first(),
        ));
    } else {
        assert(outs.drop_first() =~= Seq::<SpecTxOut>::empty());
        assert(outs.drop_last() =~= Seq::<SpecTxOut>::empty());
        assert(concat_wire::<TxOut>(outs) =~= TxOut::wire(outs[0]) + concat_wire::<TxOut>(
            outs.drop_first(),
        ));
    }
}

/// The stored form of some outputs.
pub fn encode_utxos(outs: &Vec<TxOut>) -> (r: Vec<u8>)
    ensures
        r@ == concat_wire::<TxOut>(views(outs@)),
{
    let mut buf: Vec<u8> = Vec::new();
    write_many(outs, &mut buf);
    assert(buf@ =~= concat_wire::<TxOut>(views(outs@)));
    buf
}

/// Reads stored outputs.
pub fn decode_utxos(bytes: &Vec<u8>) -> (r: Result<Vec<TxOut>, Error>)
    ensures
        match parse_outputs(bytes@) {
            Ok(outs) => r is Ok && views(r->Ok_0@) == outs,
            Err(e) => r == Err::<Vec<TxOut>, Error>(e),
        },
{
    let mut result: Vec<TxOut> = Vec::new();
    let mut pos: usize = 0;
    let total = bytes.len();
    assert(bytes@.skip(0) =~= bytes@);
    assert(views(result@) + Seq::<SpecTxOut>::empty() =~= Seq::<SpecTxOut>::empty());
    while pos < bytes.len()
        invariant
            pos <= bytes@.len(),
            total == bytes@.len(),
            parse_outputs(bytes@) == match parse_outputs(bytes@.skip(pos as int)) {
                Ok(rest) => Ok(views(result@) + rest),
                Err(e) => Err(e),
            },
        decreases bytes@.len() - pos,
    {
        let ghost s = bytes@.skip(pos as int);
        proof {
            TxOut::lemma_parse_bounded(s);
        }
        match TxOut::read_at(bytes, pos) {
            Err(e) => {
                return Err(e);
            },
            Ok((o, n)) => {
                if n == 0 {
                    return Err(Error::Decode);
                }
                let ghost before = views(result@);
                result.push(o);
                assert(views(result@) =~= before.push(o@));
                assert(s.skip(n as int) =~= bytes@.skip(pos + n));
                pos = pos + n;
                proof {
                    match parse_outputs(bytes@.skip(pos as int)) {
                        Ok(rest) => {
                            assert(before + (seq![o@] + rest) =~= views(result@) + rest);
                        },
                        Err(e) => {},
                    }
                }
            },
        }
    }
    assert(bytes@.skip(pos as int) =~= Seq::<u8>::empty());
    assert(views(result@) + Seq::<SpecTxOut>::empty() =~= views(result@));
    Ok(result)
}

} // verus!
