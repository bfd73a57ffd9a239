//! Transactions: the outputs they spend and create, their encoding, identity and checks.
use vstd::prelude::*;
use crate::codec::{
    all_valid, be_bytes, be_value, copy_range, counted_wire, decoded, lemma_be_bytes_len,
    lemma_be_value_bound, lemma_be_value_of_bytes, lemma_bytes_of_be_value, lemma_parse_counted_sound, lemma_take_split, lemma_counted_round_trip,
    lemma_parse_counted_bounded, lemma_pow256_values, parse_counted, push_be, push_bytes,
    read_be, read_counted, views, write_counted, VarStr, Wire, Duplicate, duplicate_all, copy_bytes,
};
use crate::error::Error;
use crate::hash::{double_hash, double_sha256};

verus! {

/// What an outpoint means: the hash of a transaction and the index of one of its outputs.
pub struct SpecOutpoint {
    pub hash: Seq<u8>,
    pub index: u32,
}

/// A reference to one output of an earlier transaction, sent in 36 bytes.
#[derive(Clone, Debug)]
pub struct Outpoint {
    pub hash: Vec<u8>,
    pub index: u32,
}

impl View for Outpoint {
    type V = SpecOutpoint;

    open spec fn view(&self) -> SpecOutpoint {
        SpecOutpoint { hash: self.hash@, index: self.index }
    }
}

impl Wire for Outpoint {
    open spec fn valid(v: SpecOutpoint) -> bool {
        v.hash.len() == 32
    }

    open spec fn wire(v: SpecOutpoint) -> Seq<u8> {
        v.hash + be_bytes(v.index as nat, 4)
    }

    open spec fn parse(s: Seq<u8>) -> Result<(SpecOutpoint, nat), Error> {
        if s.len() < 36 {
            Err(Error::Truncated)
        } else {
            Ok((SpecOutpoint { hash: s.take(32), index: be_value(s.subrange(32, 36)) as u32 }, 36))
        }
    }

    proof fn lemma_parse_bounded(s: Seq<u8>) {
    }

    proof fn lemma_parse_sound(s: Seq<u8>) {
        if s.len() >= 36 {
            let t = s.subrange(32, 36);
            lemma_pow256_values();
            lemma_be_value_bound(t);
            lemma_bytes_of_be_value(t);
            assert(s.take(36) =~= s.take(32) + t);
        }
    }

    proof fn lemma_round_trip(v: SpecOutpoint, rest: Seq<u8>) {
        lemma_pow256_values();
        lemma_be_bytes_len(v.index as nat, 4);
        lemma_be_value_of_bytes(v.index as nat, 4);
        let s = Self::wire(v) + rest;
        assert(s.take(32) =~= v.hash);
        assert(s.subrange(32, 36) =~= be_bytes(v.index as nat, 4));
    }

    fn write_to(&self, buf: &mut Vec<u8>) {
        push_bytes(buf, &self.hash);
        push_be(buf, self.index as u64, 4);
        assert(final(buf)@ =~= old(buf)@ + Self::wire(self@));
    }

    fn read_at(buf: &Vec<u8>, off: usize) -> (r: Result<(Outpoint, usize), Error>) {
        let ghost s = buf@.skip(off as int);
        if buf.len() - off < 36 {
            return Err(Error::Truncated);
        }
        proof {
            lemma_pow256_values();
            lemma_be_value_bound(buf@.subrange(off + 32, off + 36));
        }
        let hash = copy_range(buf, off, 32);
        let index = read_be(buf, off + 32, 4) as u32;
        assert(hash@ =~= s.take(32));
        assert(buf@.subrange(off + 32, off + 36) =~= s.subrange(32, 36));
        Ok((Outpoint { hash, index }, 36))
    }
}

impl Outpoint {
    pub fn send(&self) -> (r: Vec<u8>)
        ensures
            r@ == Outpoint::wire(self@),
    {
        let mut buf = Vec::new();
        self.write_to(&mut buf);
        assert(buf@ =~= Outpoint::wire(self@));
        buf
    }

    /// Reads an outpoint at the start of `buffer`.
    pub fn read(buffer: &Vec<u8>) -> (r: Result<Outpoint, Error>)
        ensures
            decoded(r, buffer@),
    {
        assert(buffer@.skip(0) =~= buffer@);
        match Outpoint::read_at(buffer, 0) {
            Ok((v, _)) => Ok(v),
            Err(e) => Err(e),
        }
    }
}

/// What an input means: the output it spends and its unlocking script.
pub struct SpecTxIn {
    pub previous_output: SpecOutpoint,
    pub script: Seq<char>,
}

/// A transaction input: the outpoint it spends, then its script.
#[derive(Clone, Debug)]
pub struct TxIn {
    pub previous_output: Outpoint,
    pub script: VarStr,
}

impl View for TxIn {
    type V = SpecTxIn;

    open spec fn view(&self) -> SpecTxIn {
        SpecTxIn { previous_output: self.previous_output@, script: self.script@ }
    }
}

impl Wire for TxIn {
    open spec fn valid(v: SpecTxIn) -> bool {
        Outpoint::valid(v.previous_output) && VarStr::valid(v.script)
    }

    open spec fn wire(v: SpecTxIn) -> Seq<u8> {
        Outpoint::wire(v.previous_output) + VarStr::wire(v.script)
    }

    open spec fn parse(s: Seq<u8>) -> Result<(SpecTxIn, nat), Error> {
        match Outpoint::parse(s) {
            Err(e) => Err(e),
            Ok((o, a)) => match VarStr::parse(s.skip(a as int)) {
                Err(e) => Err(e),
                Ok((script, b)) => Ok((SpecTxIn { previous_output: o, script }, a + b)),
            },
        }
    }

    proof fn lemma_parse_bounded(s: Seq<u8>) {
        Outpoint::lemma_parse_bounded(s);
        if Outpoint::parse(s) is Ok {
            VarStr::lemma_parse_bounded(s.skip(Outpoint::parse(s)->Ok_0.1 as int));
        }
    }

    proof fn lemma_parse_sound(s: Seq<u8>) {
        Outpoint::lemma_parse_sound(s);
        if Outpoint::parse(s) is Ok {
            let a = Outpoint::parse(s)->Ok_0.1;
            let t = s.skip(a as int);
            VarStr::lemma_parse_sound(t);
            if VarStr::parse(t) is Ok {
                let b = VarStr::parse(t)->Ok_0.1;
                assert(s.take((a + b) as int) =~= s.take(a as int) + t.take(b as int));
            }
        }
    }

    proof fn lemma_round_trip(v: SpecTxIn, rest: Seq<u8>) {
        let o = Outpoint::wire(v.previous_output);
        let s = Self::wire(v) + rest;
        assert(s =~= o + (VarStr::wire(v.script) + rest));
        Outpoint::lemma_round_trip(v.previous_output, VarStr::wire(v.script) + rest);
        assert(s.skip(o.len() as int) =~= VarStr::wire(v.script) + rest);
        VarStr::lemma_round_trip(v.script, rest);
    }

    fn write_to(&self, buf: &mut Vec<u8>) {
        self.previous_output.write_to(buf);
        self.script.write_to(buf);
        assert(final(buf)@ =~= old(buf)@ + Self::wire(self@));
    }

    #[verifier::spinoff_prover]
    fn read_at(buf: &Vec<u8>, off: usize) -> (r: Result<(TxIn, usize), Error>) {
        let ghost s = buf@.skip(off as int);
        let total = buf.len();
        match Outpoint::read_at(buf, off) {
            Err(e) => Err(e),
            Ok((previous_output, a)) => {
                proof {
                    Outpoint::lemma_parse_bounded(s);
                    assert(s.skip(a as int) =~= buf@.skip(off + a));
                }
                match VarStr::read_at(buf, off + a) {
                    Err(e) => Err(e),
                    Ok((script, b)) => {
                        proof {
                            VarStr::lemma_parse_bounded(buf@.skip(off + a));
                        }
                        Ok((TxIn { previous_output, script }, a + b))
                    },
                }
            },
        }
    }
}

impl TxIn {
    pub fn send(&self) -> (r: Vec<u8>)
        ensures
            r@ == TxIn::wire(self@),
    {
        let mut buf = Vec::new();
        self.write_to(&mut buf);
        assert(buf@ =~= TxIn::wire(self@));
        buf
    }

    /// Reads an input at the start of `buffer`.
    pub fn read(buffer: &Vec<u8>) -> (r: Result<TxIn, Error>)
        ensures
            decoded(r, buffer@),
    {
        assert(buffer@.skip(0) =~= buffer@);
        match TxIn::read_at(buffer, 0) {
            Ok((v, _)) => Ok(v),
            Err(e) => Err(e),
        }
    }
}

/// What an output means: the value it carries and its locking script.
pub struct SpecTxOut {
    pub value: u64,
    pub script: Seq<char>,
}

/// A transaction output: its value in 8 bytes, then its script.
#[derive(Clone, Debug)]
pub struct TxOut {
    pub value: u64,
    pub script: VarStr,
}

impl View for TxOut {
    type V = SpecTxOut;

    open spec fn view(&self) -> SpecTxOut {
        SpecTxOut { value: self.value, script: self.script@ }
    }
}

impl Wire for TxOut {
    open spec fn valid(v: SpecTxOut) -> bool {
        VarStr::valid(v.script)
    }

    open spec fn wire(v: SpecTxOut) -> Seq<u8> {
        be_bytes(v.value as nat, 8) + VarStr::wire(v.script)
    }

    open spec fn parse(s: Seq<u8>) -> Result<(SpecTxOut, nat), Error> {
        if s.len() < 8 {
            Err(Error::Truncated)
        } else {
            match VarStr::parse(s.skip(8)) {
                Err(e) => Err(e),
                Ok((script, b)) => Ok(
                    (SpecTxOut { value: be_value(s.take(8)) as u64, script }, 8 + b),
                ),
            }
        }
    }

    proof fn lemma_parse_bounded(s: Seq<u8>) {
        VarStr::lemma_parse_bounded(s.skip(8));
    }

    proof fn lemma_parse_sound(s: Seq<u8>) {
        if s.len() >= 8 {
            let t = s.skip(8);
            VarStr::lemma_parse_sound(t);
            if VarStr::parse(t) is Ok {
                let b = VarStr::parse(t)->Ok_0.1;
                lemma_pow256_values();
                lemma_be_value_bound(s.take(8));
                lemma_bytes_of_be_value(s.take(8));
                assert(s.take((8 + b) as int) =~= s.take(8) + t.take(b as int));
            }
        }
    }

    proof fn lemma_round_trip(v: SpecTxOut, rest: Seq<u8>) {
        lemma_pow256_values();
        lemma_be_bytes_len(v.value as nat, 8);
        lemma_be_value_of_bytes(v.value as nat, 8);
        let s = Self::wire(v) + rest;
        assert(s.take(8) =~= be_bytes(v.value as nat, 8));
        assert(s.skip(8) =~= VarStr::wire(v.script) + rest);
        VarStr::lemma_round_trip(v.script, rest);
    }

    fn write_to(&self, buf: &mut Vec<u8>) {
        push_be(buf, self.value, 8);
        self.script.write_to(buf);
        assert(final(buf)@ =~= old(buf)@ + Self::wire(self@));
    }

    fn read_at(buf: &Vec<u8>, off: usize) -> (r: Result<(TxOut, usize), Error>) {
        let ghost s = buf@.skip(off as int);
        if buf.len() - off < 8 {
            return Err(Error::Truncated);
        }
        let value = read_be(buf, off, 8);
        assert(buf@.subrange(off as int, off + 8) =~= s.take(8));
        assert(s.skip(8) =~= buf@.skip(off + 8));
        match VarStr::read_at(buf, off + 8) {
            Err(e) => Err(e),
            Ok((script, b)) => {
                proof {
                    VarStr::lemma_parse_bounded(buf@.skip(off + 8));
                }
                Ok((TxOut { value, script }, 8 + b))
            },
        }
    }
}

impl TxOut {
    pub fn send(&self) -> (r: Vec<u8>)
        ensures
            r@ == TxOut::wire(self@),
    {
        let mut buf = Vec::new();
        self.write_to(&mut buf);
        assert(buf@ =~= TxOut::wire(self@));
        buf
    }

    /// Reads an output at the start of `buffer`.
    pub fn read(buffer: &Vec<u8>) -> (r: Result<TxOut, Error>)
        ensures
            decoded(r, buffer@),
    {
        assert(buffer@.skip(0) =~= buffer@);
        match TxOut::read_at(buffer, 0) {
            Ok((v, _)) => Ok(v),
            Err(e) => Err(e),
        }
    }
}

/// What a transaction means: its version, flags, inputs and outputs.
pub struct SpecTransaction {
    pub version: u32,
    pub flags: Seq<Seq<char>>,
    pub inputs: Seq<SpecTxIn>,
    pub outputs: Seq<SpecTxOut>,
}

/// A transaction: version, then counted lists of flags, inputs and outputs.
#[derive(Clone, Debug)]
pub struct Transaction {
    pub version: u32,
    pub flags: Vec<VarStr>,
    pub inputs: Vec<TxIn>,
    pub outputs: Vec<TxOut>,
}

impl View for Transaction {
    type V = SpecTransaction;

    open spec fn view(&self) -> SpecTransaction {
        SpecTransaction {
            version: self.version,
            flags: views(self.flags@),
            inputs: views(self.inputs@),
            outputs: views(self.outputs@),
        }
    }
}

impl Wire for Transaction {
    open spec fn valid(v: SpecTransaction) -> bool {
        &&& all_valid::<VarStr>(v.flags)
        &&& all_valid::<TxIn>(v.inputs)
        &&& all_valid::<TxOut>(v.outputs)
    }

    open spec fn wire(v: SpecTransaction) -> Seq<u8> {
        be_bytes(v.version as nat, 4) + counted_wire::<VarStr>(v.flags) + counted_wire::<TxIn>(
            v.inputs,
        ) + counted_wire::<TxOut>(v.outputs)
    }

    open spec fn parse(s: Seq<u8>) -> Result<(SpecTransaction, nat), Error> {
        if s.len() < 4 {
            Err(Error::Truncated)
        } else {
            match parse_counted::<VarStr>(s.skip(4)) {
                Err(e) => Err(e),
                Ok((flags, a)) => match parse_counted::<TxIn>(s.skip((4 + a) as int)) {
                    Err(e) => Err(e),
                    Ok((inputs, b)) => match parse_counted::<TxOut>(s.skip((4 + a + b) as int)) {
                        Err(e) => Err(e),
                        Ok((outputs, c)) => Ok(
                            (
                                SpecTransaction {
                                    version: be_value(s.take(4)) as u32,
                                    flags,
                                    inputs,
                                    outputs,
                                },
                                4 + a + b + c,
                            ),
                        ),
                    },
                },
            }
        }
    }

    proof fn lemma_parse_bounded(s: Seq<u8>) {
        if s.len() >= 4 {
            lemma_parse_counted_bounded::<VarStr>(s.skip(4));
            if parse_counted::<VarStr>(s.skip(4)) is Ok {
                let a = parse_counted::<VarStr>(s.skip(4))->Ok_0.1;
                lemma_parse_counted_bounded::<TxIn>(s.skip((4 + a) as int));
                if parse_counted::<TxIn>(s.skip((4 + a) as int)) is Ok {
                    let b = parse_counted::<TxIn>(s.skip((4 + a) as int))->Ok_0.1;
                    lemma_parse_counted_bounded::<TxOut>(s.skip((4 + a + b) as int));
                }
            }
        }
    }

    #[verifier::spinoff_prover]
    proof fn lemma_parse_sound(s: Seq<u8>) {
        if Self::parse(s) is Ok {
            let (v, n) = Self::parse(s)->Ok_0;
            let s1 = s.skip(4);
            let a = parse_counted::<VarStr>(s1)->Ok_0.1;
            let s2 = s1.skip(a as int);
            let b = parse_counted::<TxIn>(s.skip((4 + a) as int))->Ok_0.1;
            let s3 = s2.skip(b as int);
            let c = parse_counted::<TxOut>(s.skip((4 + a + b) as int))->Ok_0.1;
            lemma_parse_counted_sound::<VarStr>(s1);
            lemma_take_split(s, 4, a as int);
            lemma_parse_counted_sound::<TxIn>(s2);
            lemma_take_split(s, (4 + a) as int, b as int);
            lemma_take_split(s1, a as int, b as int);
            lemma_parse_counted_sound::<TxOut>(s3);
            lemma_take_split(s, (4 + a + b) as int, c as int);
            lemma_take_split(s2, b as int, c as int);
            lemma_pow256_values();
            lemma_be_value_bound(s.take(4));
            lemma_bytes_of_be_value(s.take(4));
            assert(s.take(n as int) == Self::wire(v));
        }
    }

    proof fn lemma_round_trip(v: SpecTransaction, rest: Seq<u8>) {
        let f = counted_wire::<VarStr>(v.flags);
        let i = counted_wire::<TxIn>(v.inputs);
        let o = counted_wire::<TxOut>(v.outputs);
        let s = Self::wire(v) + rest;
        lemma_transaction_parts(v, rest);
        assert(s.len() >= 4);
        assert(Self::wire(v).len() == 4 + f.len() + i.len() + o.len());
    }

    fn write_to(&self, buf: &mut Vec<u8>) {
        push_be(buf, self.version as u64, 4);
        write_counted(&self.flags, buf);
        write_counted(&self.inputs, buf);
        write_counted(&self.outputs, buf);
        assert(final(buf)@ =~= old(buf)@ + Self::wire(self@));
    }

    #[verifier::spinoff_prover]
    fn read_at(buf: &Vec<u8>, off: usize) -> (r: Result<(Transaction, usize), Error>) {
        let ghost s = buf@.skip(off as int);
        let total = buf.len();
        if buf.len() - off < 4 {
            return Err(Error::Truncated);
        }
        proof {
            lemma_pow256_values();
            lemma_be_value_bound(buf@.subrange(off as int, off + 4));
        }
        let version = read_be(buf, off, 4) as u32;
        assert(buf@.subrange(off as int, off + 4) =~= s.take(4));
        assert(s.skip(4) =~= buf@.skip(off + 4));
        let (flags, a) = match read_counted::<VarStr>(buf, off + 4) {
            Err(e) => {
                assert(Transaction::parse(s) == Err::<(SpecTransaction, nat), Error>(e));
                return Err(e);
            },
            Ok(x) => x,
        };
        let ghost fl = views(flags@);
        assert(parse_counted::<VarStr>(s.skip(4)) == Ok::<(Seq<Seq<char>>, nat), Error>(
            (fl, a as nat),
        ));
        proof {
            lemma_parse_counted_bounded::<VarStr>(buf@.skip(off + 4));
            assert(s.skip((4 + a) as int) =~= buf@.skip(off + 4 + a));
        }
        let (inputs, b) = match read_counted::<TxIn>(buf, off + 4 + a) {
            Err(e) => {
                assert(Transaction::parse(s) == Err::<(SpecTransaction, nat), Error>(e));
                return Err(e);
            },
            Ok(x) => x,
        };
        let ghost ins = views(inputs@);
        assert(parse_counted::<TxIn>(s.skip((4 + a) as int)) == Ok::<(Seq<SpecTxIn>, nat), Error>(
            (ins, b as nat),
        ));
        proof {
            lemma_parse_counted_bounded::<TxIn>(buf@.skip(off + 4 + a));
            assert(s.skip((4 + a + b) as int) =~= buf@.skip(off + 4 + a + b));
        }
        let (outputs, c) = match read_counted::<TxOut>(buf, off + 4 + a + b) {
            Err(e) => {
                assert(Transaction::parse(s) == Err::<(SpecTransaction, nat), Error>(e));
                return Err(e);
            },
            Ok(x) => x,
        };
        let ghost outs = views(outputs@);
        assert(parse_counted::<TxOut>(s.skip((4 + a + b) as int)) == Ok::<
            (Seq<SpecTxOut>, nat),
            Error,
        >((outs, c as nat)));
        proof {
            lemma_parse_counted_bounded::<TxOut>(buf@.skip(off + 4 + a + b));
        }
        let t = Transaction { version, flags, inputs, outputs };
        assert(Transaction::parse(s) == Ok::<(SpecTransaction, nat), Error>(
            (t@, (4 + a + b + c) as nat),
        ));
        Ok((t, 4 + a + b + c))
    }
}

/// The identity of a transaction: the double SHA-256 of its encoding.
pub open spec fn tx_hash(t: SpecTransaction) -> Seq<u8> {
    double_sha256(Transaction::wire(t))
}

/// A transaction is sane when it has an input or an output, and no output is worth zero.
pub open spec fn tx_sane(t: SpecTransaction) -> bool {
    &&& (t.inputs.len() > 0 || t.outputs.len() > 0)
    &&& forall|i: int| 0 <= i < t.outputs.len() ==> (#[trigger] t.outputs[i]).value != 0
}

/// The total value of some outputs.
pub open spec fn sum_values(outs: Seq<SpecTxOut>) -> int
    decreases outs.len(),
{
    if outs.len() == 0 {
        0
    } else {
        sum_values(outs.drop_last()) + outs.last().value
    }
}

/// A transaction is valid against the outputs it claims to spend when it is sane and
/// those outputs hold strictly more value than it creates.
pub open spec fn tx_valid(t: SpecTransaction, claimed: Seq<SpecTxOut>) -> bool {
    tx_sane(t) && sum_values(claimed) > sum_values(t.outputs)
}

/// The total value of `outs`.
pub fn sum_of_values(outs: &Vec<TxOut>) -> (r: u128)
    ensures
        r == sum_values(views(outs@)),
{
    let ghost vs = views(outs@);
    let mut acc: u128 = 0;
    let mut i: usize = 0;
    while i < outs.len()
        invariant
            i <= outs@.len(),
            vs == views(outs@),
            acc == sum_values(vs.take(i as int)),
            acc <= i * 0xFFFF_FFFF_FFFF_FFFFu128,
        decreases outs@.len() - i,
    {
        let v = outs[i].value;
        assert(acc + v <= (i + 1) * 0xFFFF_FFFF_FFFF_FFFFu128 <= 0xFFFF_FFFF_FFFF_FFFFu128
            * 0xFFFF_FFFF_FFFF_FFFFu128) by (nonlinear_arith)
            requires
                acc <= i * 0xFFFF_FFFF_FFFF_FFFFu128,
                v <= 0xFFFF_FFFF_FFFF_FFFFu64,
                i < 0xFFFF_FFFF_FFFF_FFFFu64,
        ;
        acc = acc + v as u128;
        i = i + 1;
        assert(vs.take(i as int).drop_last() =~= vs.take(i - 1));
    }
    assert(vs.take(i as int) =~= vs);
    acc
}

impl Transaction {
    pub fn send(&self) -> (r: Vec<u8>)
        ensures
            r@ == Transaction::wire(self@),
    {
        let mut buf = Vec::new();
        self.write_to(&mut buf);
        assert(buf@ =~= Transaction::wire(self@));
        buf
    }

    /// Reads a transaction at the start of `buffer`.
    pub fn read(buffer: &Vec<u8>) -> (r: Result<Transaction, Error>)
        ensures
            decoded(r, buffer@),
    {
        assert(buffer@.skip(0) =~= buffer@);
        match Transaction::read_at(buffer, 0) {
            Ok((v, _)) => Ok(v),
            Err(e) => Err(e),
        }
    }

    /// The identity of the transaction: the double SHA-256 of its encoding.
    pub fn hash(&self) -> (r: Vec<u8>)
        ensures
            r@ == tx_hash(self@),
            r@.len() == 32,
    {
        double_hash(&self.send())
    }

    pub fn is_sane(&self) -> (r: bool)
        ensures
            r == tx_sane(self@),
    {
        if self.inputs.len() == 0 && self.outputs.len() == 0 {
            return false;
        }
        let mut i: usize = 0;
        while i < self.outputs.len()
            invariant
                i <= self.outputs@.len(),
                forall|j: int| 0 <= j < i ==> (#[trigger] self@.outputs[j]).value != 0,
            decreases self.outputs@.len() - i,
        {
            if self.outputs[i].value == 0 {
                assert(self@.outputs[i as int].value == 0);
                return false;
            }
            i = i + 1;
        }
        true
    }
}

/// A transaction with the outputs that its inputs claim to spend.
pub struct TxTxo<'a> {
    pub tx: &'a Transaction,
    pub txos: Vec<TxOut>,
}

impl<'a> TxTxo<'a> {
    pub fn new(tx: &'a Transaction, txos: Vec<TxOut>) -> (r: TxTxo<'a>)
        ensures
            r.tx@ == tx@,
            r.txos@ == txos@,
    {
        TxTxo { tx, txos }
    }

    /// Whether the transaction is sane and the claimed outputs hold strictly more
    /// value than the transaction creates.
    pub fn is_valid(&self) -> (r: bool)
        ensures
            r == tx_valid(self.tx@, views(self.txos@)),
    {
        if !self.tx.is_sane() {
            return false;
        }
        let entry_sum = sum_of_values(&self.txos);
        let output_sum = sum_of_values(&self.tx.outputs);
        entry_sum > output_sum
    }
}

/// A transaction sent and read back is the same transaction.
pub proof fn lemma_transaction_round_trip(t: SpecTransaction)
    requires
        Transaction::valid(t),
    ensures
        Transaction::parse(Transaction::wire(t)) == Ok::<(SpecTransaction, nat), Error>(
            (t, Transaction::wire(t).len()),
        ),
{
    Transaction::lemma_round_trip(t, Seq::empty());
    assert(Transaction::wire(t) + Seq::<u8>::empty() =~= Transaction::wire(t));
}

/// The parts of a sent transaction read back one by one.
#[verifier::spinoff_prover]
proof fn lemma_transaction_parts(v: SpecTransaction, rest: Seq<u8>)
    requires
        Transaction::valid(v),
    ensures
        ({
            let f = counted_wire::<VarStr>(v.flags);
            let i = counted_wire::<TxIn>(v.inputs);
            let o = counted_wire::<TxOut>(v.outputs);
            let s = Transaction::wire(v) + rest;
            &&& Transaction::wire(v).len() == 4 + f.len() + i.len() + o.len()
            &&& be_value(s.take(4)) as u32 == v.version
            &&& parse_counted::<VarStr>(s.skip(4)) == Ok::<(Seq<Seq<char>>, nat), Error>(
                (v.flags, f.len()),
            )
            &&& parse_counted::<TxIn>(s.skip((4 + f.len()) as int)) == Ok::<
                (Seq<SpecTxIn>, nat),
                Error,
            >((v.inputs, i.len()))
            &&& parse_counted::<TxOut>(s.skip((4 + f.len() + i.len()) as int)) == Ok::<
                (Seq<SpecTxOut>, nat),
                Error,
            >((v.outputs, o.len()))
        }),
{
    let h = be_bytes(v.version as nat, 4);
    let f = counted_wire::<VarStr>(v.flags);
    let i = counted_wire::<TxIn>(v.inputs);
    let o = counted_wire::<TxOut>(v.outputs);
    let s = Transaction::wire(v) + rest;
    lemma_be_bytes_len(v.version as nat, 4);
    assert(s =~= h + (f + (i + (o + rest))));
    assert(s.take(4) =~= h) by {
        lemma_pow256_values();
        lemma_be_value_of_bytes(v.version as nat, 4);
    }
    assert(be_value(s.take(4)) as u32 == v.version) by {
        lemma_pow256_values();
        lemma_be_value_of_bytes(v.version as nat, 4);
    }
    assert(s.skip(4) =~= f + (i + (o + rest)));
    lemma_counted_round_trip::<VarStr>(v.flags, i + (o + rest));
    assert(s.skip((4 + f.len()) as int) =~= i + (o + rest));
    lemma_counted_round_trip::<TxIn>(v.inputs, o + rest);
    assert(s.skip((4 + f.len() + i.len()) as int) =~= o + rest);
    lemma_counted_round_trip::<TxOut>(v.outputs, rest);
}

impl Duplicate for Outpoint {
    fn duplicate(&self) -> (r: Outpoint) {
        Outpoint { hash: copy_bytes(&self.hash), index: self.index }
    }
}

impl Duplicate for TxIn {
    fn duplicate(&self) -> (r: TxIn) {
        TxIn { previous_output: self.previous_output.duplicate(), script: self.script.duplicate() }
    }
}

impl Duplicate for TxOut {
    fn duplicate(&self) -> (r: TxOut) {
        TxOut { value: self.value, script: self.script.duplicate() }
    }
}

impl Duplicate for Transaction {
    fn duplicate(&self) -> (r: Transaction) {
        Transaction {
            version: self.version,
            flags: duplicate_all(&self.flags),
            inputs: duplicate_all(&self.inputs),
            outputs: duplicate_all(&self.outputs),
        }
    }
}

} // verus!
