//! Blocks: header fields and transactions, their encoding, identity and checks.
use vstd::prelude::*;
use vstd::string::StringExecFns;
use crate::codec::{
    all_valid, be_bytes, be_value, concat_wire, copy_range, counted_wire, decoded,
    lemma_be_bytes_len, lemma_be_value_bound, lemma_be_value_of_bytes, lemma_counted_round_trip,
    lemma_parse_counted_bounded, lemma_parse_counted_sound, lemma_bytes_of_be_value, lemma_pow256_values, lemma_take_split, parse_counted, push_be, push_bytes, read_be,
    read_counted, views, write_counted, zeros, VarStr, Wire, duplicate_all,
};
use crate::error::Error;
use crate::hash::{double_hash, double_sha256};
use crate::merkle::{compute_merkle_root, merkle_root};
use crate::transaction::{tx_hash, tx_valid, SpecTransaction, SpecTxOut, Transaction, TxOut, TxTxo};

verus! {

/// How far ahead of the validating node's clock a block's timestamp may be, in seconds.
pub const MAX_FUTURE_SECONDS: u64 = 7200;

/// What a block means.
pub struct SpecBlock {
    pub version: u32,
    pub flags: Seq<Seq<char>>,
    pub previous_hash: Seq<u8>,
    pub merkle_root: Seq<u8>,
    pub timestamp: u64,
    pub height: u32,
    pub difficulty: Seq<u8>,
    pub nonce: u64,
    pub transactions: Seq<SpecTransaction>,
}

/// A block of the chain: a header, then a counted list of transactions.
#[derive(Clone, Debug)]
pub struct Block {
    pub version: u32,
    pub flags: Vec<VarStr>,
    pub previous_hash: Vec<u8>,
    pub merkle_root: Vec<u8>,
    pub timestamp: u64,
    pub height: u32,
    pub difficulty: Vec<u8>,
    pub nonce: u64,
    pub transactions: Vec<Transaction>,
}

impl View for Block {
    type V = SpecBlock;

    open spec fn view(&self) -> SpecBlock {
        SpecBlock {
            version: self.version,
            flags: views(self.flags@),
            previous_hash: self.previous_hash@,
            merkle_root: self.merkle_root@,
            timestamp: self.timestamp,
            height: self.height,
            difficulty: self.difficulty@,
            nonce: self.nonce,
            transactions: views(self.transactions@),
        }
    }
}

/// The fixed-size fields of the header after the flags: 116 bytes.
pub open spec fn header_tail(b: SpecBlock) -> Seq<u8> {
    b.previous_hash + b.merkle_root + be_bytes(b.timestamp as nat, 8) + be_bytes(
        b.height as nat,
        4,
    ) + b.difficulty + be_bytes(b.nonce as nat, 8)
}

/// The encoding of the header: version, counted flags, then the fixed-size fields.
pub open spec fn header_wire(b: SpecBlock) -> Seq<u8> {
    be_bytes(b.version as nat, 4) + counted_wire::<VarStr>(b.flags) + header_tail(b)
}

/// The hashes of some transactions, in their order.
pub open spec fn tx_hashes(txs: Seq<SpecTransaction>) -> Seq<Seq<u8>> {
    txs.map_values(|t: SpecTransaction| tx_hash(t))
}

/// The identity of a block: the double SHA-256 of its header followed by the hashes
/// of its transactions.
pub open spec fn block_hash(b: SpecBlock) -> Seq<u8> {
    double_sha256(header_wire(b) + concat_wire::<Vec<u8>>(tx_hashes(b.transactions)))
}

/// A block is sane when it has a transaction, its timestamp is at most two hours
/// past `now`, and its merkle root is the root of its transactions' hashes.
pub open spec fn block_sane(b: SpecBlock, now: u64) -> bool {
    &&& b.transactions.len() > 0
    &&& b.timestamp <= now + MAX_FUTURE_SECONDS
    &&& b.merkle_root == merkle_root(tx_hashes(b.transactions))
}

/// A block is valid when it is sane and each transaction after the first is valid
/// against the outputs claimed for it (`claimed[i]` for transaction `i`).
pub open spec fn block_valid(b: SpecBlock, now: u64, claimed: Seq<Seq<SpecTxOut>>) -> bool {
    &&& block_sane(b, now)
    &&& claimed.len() == b.transactions.len()
    &&& forall|i: int| 1 <= i < b.transactions.len() ==> tx_valid(#[trigger] b.transactions[i], claimed[i])
}

/// The meanings of lists of outputs.
pub open spec fn claimed_views(claimed: Seq<Vec<TxOut>>) -> Seq<Seq<SpecTxOut>> {
    claimed.map_values(|v: Vec<TxOut>| views(v@))
}

/// The proof-of-work target written into every block that this node creates.
pub open spec fn default_difficulty() -> Seq<u8> {
    Seq::new(32, |i: int| if i == 6 { 15u8 } else { 0u8 })
}

/// The first block of the chain, the same on every node.
pub open spec fn genesis() -> SpecBlock {
    SpecBlock {
        version: 0,
        flags: seq!["ici cest limag"@],
        previous_hash: Seq::new(32, |i: int| 0u8),
        merkle_root: Seq::new(32, |i: int| 0u8),
        timestamp: 1_558_540_052,
        height: 0,
        difficulty: default_difficulty(),
        nonce: 42,
        transactions: Seq::empty(),
    }
}

fn difficulty_target() -> (r: Vec<u8>)
    ensures
        r@ == default_difficulty(),
{
    let mut r = zeros(32);
    r.set(6, 15);
    assert(r@ =~= default_difficulty());
    r
}

impl Wire for Block {
    open spec fn valid(v: SpecBlock) -> bool {
        &&& all_valid::<VarStr>(v.flags)
        &&& v.previous_hash.len() == 32
        &&& v.merkle_root.len() == 32
        &&& v.difficulty.len() == 32
        &&& all_valid::<Transaction>(v.transactions)
    }

    open spec fn wire(v: SpecBlock) -> Seq<u8> {
        header_wire(v) + counted_wire::<Transaction>(v.transactions)
    }

    open spec fn parse(s: Seq<u8>) -> Result<(SpecBlock, nat), Error> {
        if s.len() < 4 {
            Err(Error::Truncated)
        } else {
            match parse_counted::<VarStr>(s.skip(4)) {
                Err(e) => Err(e),
                Ok((flags, a)) => {
                    let t = s.skip((4 + a) as int);
                    if t.len() < 116 {
                        Err(Error::Truncated)
                    } else {
                        match parse_counted::<Transaction>(t.skip(116)) {
                            Err(e) => Err(e),
                            Ok((transactions, c)) => Ok(
                                (
                                    SpecBlock {
                                        version: be_value(s.take(4)) as u32,
                                        flags,
                                        previous_hash: t.take(32),
                                        merkle_root: t.subrange(32, 64),
                                        timestamp: be_value(t.subrange(64, 72)) as u64,
                                        height: be_value(t.subrange(72, 76)) as u32,
                                        difficulty: t.subrange(76, 108),
                                        nonce: be_value(t.subrange(108, 116)) as u64,
                                        transactions,
                                    },
                                    4 + a + 116 + c,
                                ),
                            ),
                        }
                    }
                },
            }
        }
    }

    proof fn lemma_parse_bounded(s: Seq<u8>) {
        if s.len() >= 4 {
            lemma_parse_counted_bounded::<VarStr>(s.skip(4));
            if parse_counted::<VarStr>(s.skip(4)) is Ok {
                let a = parse_counted::<VarStr>(s.skip(4))->Ok_0.1;
                let t = s.skip((4 + a) as int);
                if t.len() >= 116 {
                    lemma_parse_counted_bounded::<Transaction>(t.skip(116));
                }
            }
        }
    }

    #[verifier::spinoff_prover]
    proof fn lemma_parse_sound(s: Seq<u8>) {
        if Self::parse(s) is Ok {
            let (v, n) = Self::parse(s)->Ok_0;
            let s1 = s.skip(4);
            let a = parse_counted::<VarStr>(s1)->Ok_0.1;
            let t = s1.skip(a as int);
            let s3 = t.skip(116);
            let c = parse_counted::<Transaction>(s.skip((4 + a) as int).skip(116))->Ok_0.1;
            lemma_parse_counted_sound::<VarStr>(s1);
            lemma_take_split(s, 4, a as int);
            lemma_header_tail_sound(s.skip((4 + a) as int), v);
            lemma_take_split(s, (4 + a) as int, 116);
            lemma_parse_counted_sound::<Transaction>(s3);
            lemma_take_split(s, (4 + a + 116) as int, c as int);
            lemma_take_split(s1, a as int, 116);
            lemma_take_split(t, 116, c as int);
            lemma_pow256_values();
            lemma_be_value_bound(s.take(4));
            lemma_bytes_of_be_value(s.take(4));
            assert(s.take(n as int) == Self::wire(v));
        }
    }

    proof fn lemma_round_trip(v: SpecBlock, rest: Seq<u8>) {
        lemma_block_parts(v, rest);
    }

    fn write_to(&self, buf: &mut Vec<u8>) {
        self.write_header(buf);
        write_counted(&self.transactions, buf);
        assert(final(buf)@ =~= old(buf)@ + Self::wire(self@));
    }

    #[verifier::spinoff_prover]
    fn read_at(buf: &Vec<u8>, off: usize) -> (r: Result<(Block, usize), Error>) {
        let ghost s = buf@.skip(off as int);
        let total = buf.len();
        if buf.len() - off < 4 {
            return Err(Error::Truncated);
        }
        proof {
            lemma_pow256_values();
            lemma_be_value_bound(buf@.subrange(off as int, off + 4));
        }
        let version = read_be(buf, off, 4) as u32;
        assert(buf@.subrange(off as int, off + 4) =~= s.take(4));
        assert(s.skip(4) =~= buf@.skip(off + 4));
        let (flags, a) = match read_counted::<VarStr>(buf, off + 4) {
            Err(e) => return Err(e),
            Ok(x) => x,
        };
        proof {
            lemma_parse_counted_bounded::<VarStr>(buf@.skip(off + 4));
        }
        let p = off + 4 + a;
        let ghost t = s.skip((4 + a) as int);
        assert(t =~= buf@.skip(p as int));
        if buf.len() - p < 116 {
            return Err(Error::Truncated);
        }
        let (previous_hash, merkle_root, timestamp, height, difficulty, nonce) = read_header_tail(
            buf,
            p,
        );
        assert(t.skip(116) =~= buf@.skip(p + 116));
        let (transactions, c) = match read_counted::<Transaction>(buf, p + 116) {
            Err(e) => return Err(e),
            Ok(x) => x,
        };
        proof {
            lemma_parse_counted_bounded::<Transaction>(buf@.skip(p + 116));
        }
        let b = Block {
            version,
            flags,
            previous_hash,
            merkle_root,
            timestamp,
            height,
            difficulty,
            nonce,
            transactions,
        };
        Ok((b, 4 + a + 116 + c))
    }
}

/// The fixed-size fields of a sent header read back one by one.
#[verifier::spinoff_prover]
proof fn lemma_header_tail(v: SpecBlock, rest: Seq<u8>)
    requires
        v.previous_hash.len() == 32,
        v.merkle_root.len() == 32,
        v.difficulty.len() == 32,
    ensures
        ({
            let t = header_tail(v) + rest;
            &&& header_tail(v).len() == 116
            &&& t.take(32) == v.previous_hash
            &&& t.subrange(32, 64) == v.merkle_root
            &&& be_value(t.subrange(64, 72)) as u64 == v.timestamp
            &&& be_value(t.subrange(72, 76)) as u32 == v.height
            &&& t.subrange(76, 108) == v.difficulty
            &&& be_value(t.subrange(108, 116)) as u64 == v.nonce
            &&& t.skip(116) == rest
        }),
{
    let t = header_tail(v) + rest;
    lemma_pow256_values();
    lemma_be_bytes_len(v.timestamp as nat, 8);
    lemma_be_bytes_len(v.height as nat, 4);
    lemma_be_bytes_len(v.nonce as nat, 8);
    lemma_be_value_of_bytes(v.timestamp as nat, 8);
    lemma_be_value_of_bytes(v.height as nat, 4);
    lemma_be_value_of_bytes(v.nonce as nat, 8);
    assert(t.take(32) =~= v.previous_hash);
    assert(t.subrange(32, 64) =~= v.merkle_root);
    assert(t.subrange(64, 72) =~= be_bytes(v.timestamp as nat, 8));
    assert(t.subrange(72, 76) =~= be_bytes(v.height as nat, 4));
    assert(t.subrange(76, 108) =~= v.difficulty);
    assert(t.subrange(108, 116) =~= be_bytes(v.nonce as nat, 8));
    assert(t.skip(116) =~= rest);
}

/// Fixed-size header fields read from `t` are written back as the same bytes.
#[verifier::spinoff_prover]
proof fn lemma_header_tail_sound(t: Seq<u8>, v: SpecBlock)
    requires
        t.len() >= 116,
        v.previous_hash == t.take(32),
        v.merkle_root == t.subrange(32, 64),
        v.timestamp == be_value(t.subrange(64, 72)) as u64,
        v.height == be_value(t.subrange(72, 76)) as u32,
        v.difficulty == t.subrange(76, 108),
        v.nonce == be_value(t.subrange(108, 116)) as u64,
    ensures
        t.take(116) == header_tail(v),
{
    lemma_pow256_values();
    lemma_be_value_bound(t.subrange(64, 72));
    lemma_be_value_bound(t.subrange(72, 76));
    lemma_be_value_bound(t.subrange(108, 116));
    lemma_bytes_of_be_value(t.subrange(64, 72));
    lemma_bytes_of_be_value(t.subrange(72, 76));
    lemma_bytes_of_be_value(t.subrange(108, 116));
    assert(t.take(116) =~= header_tail(v));
}

/// The parts of a sent block read back one by one.
#[verifier::spinoff_prover]
proof fn lemma_block_parts(v: SpecBlock, rest: Seq<u8>)
    requires
        Block::valid(v),
    ensures
        Block::parse(Block::wire(v) + rest) == Ok::<(SpecBlock, nat), Error>(
            (v, Block::wire(v).len()),
        ),
{
    let h = be_bytes(v.version as nat, 4);
    let f = counted_wire::<VarStr>(v.flags);
    let tail = header_tail(v);
    let x = counted_wire::<Transaction>(v.transactions);
    let s = Block::wire(v) + rest;
    lemma_be_bytes_len(v.version as nat, 4);
    assert(s =~= h + (f + (tail + (x + rest))));
    assert(be_value(s.take(4)) as u32 == v.version) by {
        assert(s.take(4) =~= h);
        lemma_pow256_values();
        lemma_be_value_of_bytes(v.version as nat, 4);
    }
    assert(s.skip(4) =~= f + (tail + (x + rest)));
    lemma_counted_round_trip::<VarStr>(v.flags, tail + (x + rest));
    let t = s.skip((4 + f.len()) as int);
    assert(t =~= tail + (x + rest));
    lemma_header_tail(v, x + rest);
    lemma_counted_round_trip::<Transaction>(v.transactions, rest);
    assert(Block::wire(v).len() == 4 + f.len() + 116 + x.len());
}

/// A block sent and read back is the same block, so it has the same hash.
pub proof fn lemma_block_round_trip(b: SpecBlock)
    requires
        Block::valid(b),
    ensures
        Block::parse(Block::wire(b)) == Ok::<(SpecBlock, nat), Error>((b, Block::wire(b).len())),
        block_hash(Block::parse(Block::wire(b))->Ok_0.0) == block_hash(b),
{
    lemma_block_parts(b, Seq::empty());
    assert(Block::wire(b) + Seq::<u8>::empty() =~= Block::wire(b));
}

/// The genesis block has height 0 and no predecessor, and its hash depends on its
/// fixed fields alone: any two constructions of it have the same hash.
pub proof fn lemma_genesis_fixed(a: SpecBlock, b: SpecBlock)
    requires
        a == genesis(),
        b == genesis(),
    ensures
        a.height == 0,
        a.previous_hash == Seq::new(32, |i: int| 0u8),
        block_hash(a) == block_hash(b),
{
}

impl Block {
    /// The first block of the chain, built from fixed values.
    pub fn genesis_block() -> (r: Block)
        ensures
            r@ == genesis(),
            Block::valid(r@),
    {
        let flag = VarStr::from_string(String::from_str("ici cest limag"));
        flag.check_sendable();
        let mut flags: Vec<VarStr> = Vec::new();
        flags.push(flag);
        let b = Block {
            version: 0,
            flags,
            previous_hash: zeros(32),
            merkle_root: zeros(32),
            timestamp: 1_558_540_052,
            height: 0,
            difficulty: difficulty_target(),
            nonce: 42,
            transactions: Vec::new(),
        };
        assert(b@.flags =~= genesis().flags);
        assert(b@.transactions =~= genesis().transactions);
        proof {
            reveal_strlit("ici cest limag");
        }
        assert(b@ == genesis());
        assert(b@.flags[0] == flag@);
        b
    }

    /// A new block on top of `latest_block`, made at `timestamp`: it links to that
    /// block's hash and has the next height. Transactions, merkle root and nonce are
    /// left for the caller to fill in.
    pub fn new(latest_block: &Block, timestamp: u64) -> (r: Block)
        requires
            latest_block.height < u32::MAX,
        ensures
            r@.previous_hash == block_hash(latest_block@),
            r@.height == latest_block.height + 1,
            r@.timestamp == timestamp,
            r@.version == 0,
            r@.flags.len() == 0,
            r@.merkle_root == Seq::new(32, |i: int| 0u8),
            r@.difficulty == default_difficulty(),
            r@.nonce == 0,
            r@.transactions.len() == 0,
    {
        Block {
            version: 0,
            flags: Vec::new(),
            previous_hash: latest_block.hash(),
            merkle_root: zeros(32),
            timestamp,
            height: latest_block.height + 1,
            difficulty: difficulty_target(),
            nonce: 0,
            transactions: Vec::new(),
        }
    }

    fn write_header(&self, buf: &mut Vec<u8>)
        ensures
            final(buf)@ == old(buf)@ + header_wire(self@),
    {
        push_be(buf, self.version as u64, 4);
        write_counted(&self.flags, buf);
        push_bytes(buf, &self.previous_hash);
        push_bytes(buf, &self.merkle_root);
        push_be(buf, self.timestamp, 8);
        push_be(buf, self.height as u64, 4);
        push_bytes(buf, &self.difficulty);
        push_be(buf, self.nonce, 8);
        assert(final(buf)@ =~= old(buf)@ + header_wire(self@));
    }

    /// The encoding of the header.
    pub fn send_header(&self) -> (r: Vec<u8>)
        ensures
            r@ == header_wire(self@),
    {
        let mut buf = Vec::new();
        self.write_header(&mut buf);
        assert(buf@ =~= header_wire(self@));
        buf
    }

    /// The encoding of the transactions: their count, then each of them.
    pub fn send_tx(&self) -> (r: Vec<u8>)
        ensures
            r@ == counted_wire::<Transaction>(views(self.transactions@)),
    {
        let mut buf = Vec::new();
        write_counted(&self.transactions, &mut buf);
        assert(buf@ =~= counted_wire::<Transaction>(views(self.transactions@)));
        buf
    }

    pub fn send(&self) -> (r: Vec<u8>)
        ensures
            r@ == Block::wire(self@),
    {
        let mut buf = Vec::new();
        self.write_to(&mut buf);
        assert(buf@ =~= Block::wire(self@));
        buf
    }

    /// Reads a block at the start of `buffer`.
    pub fn read(buffer: &Vec<u8>) -> (r: Result<Block, Error>)
        ensures
            decoded(r, buffer@),
    {
        assert(buffer@.skip(0) =~= buffer@);
        match Block::read_at(buffer, 0) {
            Ok((v, _)) => Ok(v),
            Err(e) => Err(e),
        }
    }

    /// The hashes of the transactions, in their order.
    pub fn transaction_hashes(&self) -> (r: Vec<Vec<u8>>)
        ensures
            views(r@) == tx_hashes(self@.transactions),
    {
        let ghost txs = self@.transactions;
        let mut r: Vec<Vec<u8>> = Vec::new();
        let mut i: usize = 0;
        while i < self.transactions.len()
            invariant
                i <= self.transactions@.len(),
                txs == self@.transactions,
                views(r@) == tx_hashes(txs).take(i as int),
            decreases self.transactions@.len() - i,
        {
            let h = self.transactions[i].hash();
            let ghost before = r@;
            r.push(h);
            assert(views(r@) =~= views(before).push(h@));
            i = i + 1;
            assert(views(r@) =~= tx_hashes(txs).take(i as int));
        }
        assert(tx_hashes(txs).take(i as int) =~= tx_hashes(txs));
        r
    }

    /// The identity of the block: the double SHA-256 of its header followed by the
    /// hashes of its transactions.
    pub fn hash(&self) -> (r: Vec<u8>)
        ensures
            r@ == block_hash(self@),
            r@.len() == 32,
    {
        let mut buf = self.send_header();
        let hashes = self.transaction_hashes();
        write_hashes(&hashes, &mut buf);
        double_hash(&buf)
    }

    /// Whether the block has a transaction, is dated at most two hours past `now`,
    /// and carries the merkle root of its transactions.
    pub fn is_sane(&self, now: u64) -> (r: bool)
        ensures
            r == block_sane(self@, now),
    {
        if self.transactions.len() == 0 {
            return false;
        }
        if self.timestamp as u128 > now as u128 + MAX_FUTURE_SECONDS as u128 {
            return false;
        }
        let root = compute_merkle_root(self.transaction_hashes());
        crate::codec::bytes_eq(&self.merkle_root, &root)
    }

    /// Whether the block is sane and every transaction after the first is valid
    /// against the outputs claimed for it: `claimed[i]` for transaction `i`.
    pub fn is_valid(&self, now: u64, claimed: &Vec<Vec<TxOut>>) -> (r: bool)
        ensures
            r == block_valid(self@, now, claimed_views(claimed@)),
    {
        if !self.is_sane(now) {
            return false;
        }
        if claimed.len() != self.transactions.len() {
            return false;
        }
        let mut i: usize = 1;
        while i < self.transactions.len()
            invariant
                1 <= i,
                i <= self.transactions@.len() || self.transactions@.len() == 0,
                claimed@.len() == self.transactions@.len(),
                forall|j: int|
                    1 <= j < i && j < self@.transactions.len() ==> tx_valid(
                        #[trigger] self@.transactions[j],
                        claimed_views(claimed@)[j],
                    ),
            decreases self.transactions@.len() - i,
        {
            let txo = TxTxo::new(&self.transactions[i], duplicate_all(&claimed[i]));
            if !txo.is_valid() {
                assert(!tx_valid(self@.transactions[i as int], claimed_views(claimed@)[i as int]));
                return false;
            }
            i = i + 1;
        }
        true
    }
}

/// Reads the 116 bytes of fixed-size header fields at `p`.
#[verifier::spinoff_prover]
fn read_header_tail(buf: &Vec<u8>, p: usize) -> (r: (Vec<u8>, Vec<u8>, u64, u32, Vec<u8>, u64))
    requires
        p + 116 <= buf@.len(),
    ensures
        ({
            let t = buf@.skip(p as int);
            &&& r.0@ == t.take(32)
            &&& r.1@ == t.subrange(32, 64)
            &&& r.2 == be_value(t.subrange(64, 72)) as u64
            &&& r.3 == be_value(t.subrange(72, 76)) as u32
            &&& r.4@ == t.subrange(76, 108)
            &&& r.5 == be_value(t.subrange(108, 116)) as u64
        }),
{
    let ghost t = buf@.skip(p as int);
    let total = buf.len();
    proof {
        lemma_pow256_values();
        lemma_be_value_bound(buf@.subrange(p + 72, p + 76));
    }
    let previous_hash = copy_range(buf, p, 32);
    let merkle_root = copy_range(buf, p + 32, 32);
    let timestamp = read_be(buf, p + 64, 8);
    let height = read_be(buf, p + 72, 4) as u32;
    let difficulty = copy_range(buf, p + 76, 32);
    let nonce = read_be(buf, p + 108, 8);
    assert(previous_hash@ =~= t.take(32));
    assert(merkle_root@ =~= t.subrange(32, 64));
    assert(buf@.subrange(p + 64, p + 72) =~= t.subrange(64, 72));
    assert(buf@.subrange(p + 72, p + 76) =~= t.subrange(72, 76));
    assert(difficulty@ =~= t.subrange(76, 108));
    assert(buf@.subrange(p + 108, p + 116) =~= t.subrange(108, 116));
    (previous_hash, merkle_root, timestamp, height, difficulty, nonce)
}

/// Appends hashes one after the other.
fn write_hashes(hashes: &Vec<Vec<u8>>, buf: &mut Vec<u8>)
    ensures
        final(buf)@ == old(buf)@ + concat_wire::<Vec<u8>>(views(hashes@)),
{
    crate::codec::write_many(hashes, buf);
}

} // verus!
