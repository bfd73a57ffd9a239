//! The messages of the wire protocol, their payloads, and the 24-byte frame header.
use vstd::prelude::*;
use crate::block::Block;
use crate::codec::{
    be_bytes, be_value, bytes_eq, copy_range, counted_wire, decoded, lemma_be_bytes_len,
    lemma_be_value_bound, lemma_be_value_of_bytes, lemma_counted_round_trip,
    lemma_parse_counted_bounded, lemma_parse_varuint_bounded, lemma_pow256_values,
    lemma_varuint_bytes_len, lemma_varuint_round_trip, lemma_varuint_sound, lemma_bytes_of_be_value, lemma_parse_counted_sound, parse_counted, parse_varuint, push_be,
    read_be, read_counted, varuint_bytes, views, write_counted, VarStr, VarUint, Wire,
};
use crate::error::Error;
use crate::transaction::Transaction;
use crate::types::{Address, InvVect, SpecAddress, SpecInvVect};

verus! {

/// The number that starts every frame.
pub const MAGIC: u32 = 422021;

/// The size of a frame header: magic number, type tag and payload length.
pub const HEADER_SIZE: usize = 24;

/// The kinds of message, as the 12-byte type tag of a frame names them.
#[derive(Clone, Copy, Debug, PartialEq, Eq, Structural)]
pub enum MessageType {
    WhoAmI,
    WhoAmIAck,
    Inv,
    GetData,
    GetBlocks,
    Block,
    Transaction,
    TwoPlusTwo,
    MinusOne,
    /// A tag that names none of the kinds above.
    Unknown,
}

/// The 12-byte tag of a kind: its ASCII name padded with zero bytes.
pub open spec fn tag_bytes(t: MessageType) -> Seq<u8> {
    match t {
        MessageType::WhoAmI => seq![119u8, 104, 111, 97, 109, 105, 0, 0, 0, 0, 0, 0],
        MessageType::WhoAmIAck => seq![119u8, 104, 111, 97, 109, 105, 97, 99, 107, 0, 0, 0],
        MessageType::Inv => seq![105u8, 110, 118, 0, 0, 0, 0, 0, 0, 0, 0, 0],
        MessageType::GetData => seq![103u8, 101, 116, 100, 97, 116, 97, 0, 0, 0, 0, 0],
        MessageType::GetBlocks => seq![103u8, 101, 116, 98, 108, 111, 99, 107, 115, 0, 0, 0],
        MessageType::Block => seq![98u8, 108, 111, 99, 107, 0, 0, 0, 0, 0, 0, 0],
        MessageType::Transaction => seq![116u8, 114, 97, 110, 115, 97, 99, 116, 105, 111, 110, 0],
        MessageType::TwoPlusTwo => seq![50u8, 112, 108, 117, 115, 50, 105, 115, 52, 0, 0, 0],
        MessageType::MinusOne => seq![109u8, 105, 110, 117, 115, 49, 116, 104, 97, 116, 115, 51],
        MessageType::Unknown => Seq::new(12, |i: int| 0u8),
    }
}

/// The kind that a 12-byte tag names.
pub open spec fn type_of_tag(b: Seq<u8>) -> MessageType {
    if b == tag_bytes(MessageType::WhoAmI) {
        MessageType::WhoAmI
    } else if b == tag_bytes(MessageType::WhoAmIAck) {
        MessageType::WhoAmIAck
    } else if b == tag_bytes(MessageType::Inv) {
        MessageType::Inv
    } else if b == tag_bytes(MessageType::GetData) {
        MessageType::GetData
    } else if b == tag_bytes(MessageType::GetBlocks) {
        MessageType::GetBlocks
    } else if b == tag_bytes(MessageType::Block) {
        MessageType::Block
    } else if b == tag_bytes(MessageType::Transaction) {
        MessageType::Transaction
    } else if b == tag_bytes(MessageType::TwoPlusTwo) {
        MessageType::TwoPlusTwo
    } else if b == tag_bytes(MessageType::MinusOne) {
        MessageType::MinusOne
    } else {
        MessageType::Unknown
    }
}

impl MessageType {
    /// The 12-byte tag of the kind.
    pub fn tag(self) -> (r: Vec<u8>)
        ensures
            r@ == tag_bytes(self),
    {
        let r = match self {
            MessageType::WhoAmI => vec![119u8, 104, 111, 97, 109, 105, 0, 0, 0, 0, 0, 0],
            MessageType::WhoAmIAck => vec![119u8, 104, 111, 97, 109, 105, 97, 99, 107, 0, 0, 0],
            MessageType::Inv => vec![105u8, 110, 118, 0, 0, 0, 0, 0, 0, 0, 0, 0],
            MessageType::GetData => vec![103u8, 101, 116, 100, 97, 116, 97, 0, 0, 0, 0, 0],
            MessageType::GetBlocks => vec![103u8, 101, 116, 98, 108, 111, 99, 107, 115, 0, 0, 0],
            MessageType::Block => vec![98u8, 108, 111, 99, 107, 0, 0, 0, 0, 0, 0, 0],
            MessageType::Transaction => vec![116u8, 114, 97, 110, 115, 97, 99, 116, 105, 111, 110, 0],
            MessageType::TwoPlusTwo => vec![50u8, 112, 108, 117, 115, 50, 105, 115, 52, 0, 0, 0],
            MessageType::MinusOne => vec![109u8, 105, 110, 117, 115, 49, 116, 104, 97, 116, 115, 51],
            MessageType::Unknown => vec![0u8, 0, 0, 0, 0, 0, 0, 0, 0, 0, 0, 0],
        };
        assert(r@ =~= tag_bytes(self));
        r
    }

    /// The kind that the 12 bytes at `off` name.
    pub fn from_tag(buf: &Vec<u8>, off: usize) -> (r: MessageType)
        requires
            off + 12 <= buf@.len(),
        ensures
            r == type_of_tag(buf@.subrange(off as int, off + 12)),
    {
        let b = copy_range(buf, off, 12);
        if bytes_eq(&b, &MessageType::WhoAmI.tag()) {
            MessageType::WhoAmI
        } else if bytes_eq(&b, &MessageType::WhoAmIAck.tag()) {
            MessageType::WhoAmIAck
        } else if bytes_eq(&b, &MessageType::Inv.tag()) {
            MessageType::Inv
        } else if bytes_eq(&b, &MessageType::GetData.tag()) {
            MessageType::GetData
        } else if bytes_eq(&b, &MessageType::GetBlocks.tag()) {
            MessageType::GetBlocks
        } else if bytes_eq(&b, &MessageType::Block.tag()) {
            MessageType::Block
        } else if bytes_eq(&b, &MessageType::Transaction.tag()) {
            MessageType::Transaction
        } else if bytes_eq(&b, &MessageType::TwoPlusTwo.tag()) {
            MessageType::TwoPlusTwo
        } else if bytes_eq(&b, &MessageType::MinusOne.tag()) {
            MessageType::MinusOne
        } else {
            MessageType::Unknown
        }
    }
}

/// The 24-byte frame header: the magic number, the tag of the kind, the payload length.
pub open spec fn header_bytes(t: MessageType, len: u64) -> Seq<u8> {
    be_bytes(MAGIC as nat, 4) + tag_bytes(t) + be_bytes(len as nat, 8)
}

/// Reads a frame header at the start of `s`: the kind and the payload length. A wrong
/// magic number is a framing error; an unknown tag gives the kind `Unknown`.
pub open spec fn parse_header(s: Seq<u8>) -> Result<(MessageType, u64), Error> {
    if s.len() < 24 {
        Err(Error::Truncated)
    } else if be_value(s.take(4)) != MAGIC {
        Err(Error::Framing)
    } else {
        Ok((type_of_tag(s.subrange(4, 16)), be_value(s.subrange(16, 24)) as u64))
    }
}

/// A frame header built for a kind and a length reads back as that kind and length.
pub proof fn lemma_header_round_trip(t: MessageType, len: u64)
    requires
        t != MessageType::Unknown,
    ensures
        parse_header(header_bytes(t, len)) == Ok::<(MessageType, u64), Error>((t, len)),
{
    let h = header_bytes(t, len);
    lemma_pow256_values();
    lemma_be_bytes_len(MAGIC as nat, 4);
    lemma_be_bytes_len(len as nat, 8);
    lemma_be_value_of_bytes(MAGIC as nat, 4);
    lemma_be_value_of_bytes(len as nat, 8);
    assert(h.take(4) =~= be_bytes(MAGIC as nat, 4));
    assert(h.subrange(4, 16) =~= tag_bytes(t));
    assert(h.subrange(16, 24) =~= be_bytes(len as nat, 8));
    assert(tag_bytes(MessageType::WhoAmI) != tag_bytes(MessageType::WhoAmIAck)) by {
        assert(tag_bytes(MessageType::WhoAmI)[6] != tag_bytes(MessageType::WhoAmIAck)[6]);
    }
    assert(tag_bytes(MessageType::Inv)[0] == 105);
    assert(tag_bytes(MessageType::GetData)[3] == 100);
    assert(tag_bytes(MessageType::GetBlocks)[3] == 98);
    assert(tag_bytes(MessageType::Block)[0] == 98);
    assert(tag_bytes(MessageType::Transaction)[0] == 116);
    assert(tag_bytes(MessageType::TwoPlusTwo)[0] == 50);
    assert(tag_bytes(MessageType::MinusOne)[0] == 109);
    assert(tag_bytes(MessageType::WhoAmI)[0] == 119);
    assert(tag_bytes(MessageType::WhoAmIAck)[0] == 119);
}

/// The frame header for a kind and a payload length.
pub fn prepare_header(message_type: MessageType, size: u64) -> (r: Vec<u8>)
    ensures
        r@ == header_bytes(message_type, size),
{
    let mut buf = Vec::new();
    push_be(&mut buf, MAGIC as u64, 4);
    let tag = message_type.tag();
    crate::codec::push_bytes(&mut buf, &tag);
    push_be(&mut buf, size, 8);
    assert(buf@ =~= header_bytes(message_type, size));
    buf
}

/// Reads the frame header at the start of `header`.
pub fn check_header(header: &Vec<u8>) -> (r: Result<(MessageType, u64), Error>)
    ensures
        r == parse_header(header@),
{
    if header.len() < 24 {
        return Err(Error::Truncated);
    }
    proof {
        lemma_pow256_values();
        lemma_be_value_bound(header@.subrange(0, 4));
    }
    let magic = read_be(header, 0, 4);
    assert(header@.subrange(0, 4) =~= header@.take(4));
    if magic != MAGIC as u64 {
        return Err(Error::Framing);
    }
    let t = MessageType::from_tag(header, 4);
    let len = read_be(header, 16, 8);
    Ok((t, len))
}

/// What a `whoami` payload means.
pub struct SpecWhoAmI {
    pub version: u32,
    pub from: SpecAddress,
    pub service_count: u64,
    pub services: Seq<char>,
}

/// The handshake message: protocol version, address of the sender, and its services.
#[derive(Clone, Debug)]
pub struct WhoAmI {
    pub version: u32,
    pub from: Address,
    pub service_count: VarUint,
    pub services: VarStr,
}

impl View for WhoAmI {
    type V = SpecWhoAmI;

    open spec fn view(&self) -> SpecWhoAmI {
        SpecWhoAmI {
            version: self.version,
            from: self.from@,
            service_count: self.service_count.value,
            services: self.services@,
        }
    }
}

impl Wire for WhoAmI {
    open spec fn valid(v: SpecWhoAmI) -> bool {
        Address::valid(v.from) && VarStr::valid(v.services)
    }

    open spec fn wire(v: SpecWhoAmI) -> Seq<u8> {
        be_bytes(v.version as nat, 4) + Address::wire(v.from) + varuint_bytes(v.service_count)
            + VarStr::wire(v.services)
    }

    open spec fn parse(s: Seq<u8>) -> Result<(SpecWhoAmI, nat), Error> {
        if s.len() < 4 {
            Err(Error::Truncated)
        } else {
            match Address::parse(s.skip(4)) {
                Err(e) => Err(e),
                Ok((from, a)) => match parse_varuint(s.skip((4 + a) as int)) {
                    Err(e) => Err(e),
                    Ok((count, b)) => match VarStr::parse(s.skip((4 + a + b) as int)) {
                        Err(e) => Err(e),
                        Ok((services, c)) => Ok(
                            (
                                SpecWhoAmI {
                                    version: be_value(s.take(4)) as u32,
                                    from,
                                    service_count: count,
                                    services,
                                },
                                4 + a + b + c,
                            ),
                        ),
                    },
                },
            }
        }
    }

    proof fn lemma_parse_bounded(s: Seq<u8>) {
        if s.len() >= 4 {
            Address::lemma_parse_bounded(s.skip(4));
            if Address::parse(s.skip(4)) is Ok {
                let a = Address::parse(s.skip(4))->Ok_0.1;
                lemma_parse_varuint_bounded(s.skip((4 + a) as int));
                if parse_varuint(s.skip((4 + a) as int)) is Ok {
                    let b = parse_varuint(s.skip((4 + a) as int))->Ok_0.1;
                    VarStr::lemma_parse_bounded(s.skip((4 + a + b) as int));
                }
            }
        }
    }

    #[verifier::spinoff_prover]
    proof fn lemma_parse_sound(s: Seq<u8>) {
        if s.len() >= 4 {
            let s1 = s.skip(4);
            Address::lemma_parse_sound(s1);
            if Address::parse(s1) is Ok {
                let a = Address::parse(s1)->Ok_0.1;
                let s2 = s.skip((4 + a) as int);
                lemma_varuint_sound(s2);
                lemma_parse_varuint_bounded(s2);
                if parse_varuint(s2) is Ok {
                    let b = parse_varuint(s2)->Ok_0.1;
                    let s3 = s.skip((4 + a + b) as int);
                    VarStr::lemma_parse_sound(s3);
                    if VarStr::parse(s3) is Ok {
                        let c = VarStr::parse(s3)->Ok_0.1;
                        lemma_pow256_values();
                        lemma_be_value_bound(s.take(4));
                        lemma_bytes_of_be_value(s.take(4));
                        assert(s.take((4 + a + b + c) as int) =~= s.take(4) + s1.take(a as int)
                            + s2.take(b as int) + s3.take(c as int));
                    }
                }
            }
        }
    }

    proof fn lemma_round_trip(v: SpecWhoAmI, rest: Seq<u8>) {
        let h = be_bytes(v.version as nat, 4);
        let a = Address::wire(v.from);
        let c = varuint_bytes(v.service_count);
        let t = VarStr::wire(v.services);
        let s = Self::wire(v) + rest;
        lemma_be_bytes_len(v.version as nat, 4);
        lemma_varuint_bytes_len(v.service_count);
        assert(s =~= h + (a + (c + (t + rest))));
        assert(be_value(s.take(4)) as u32 == v.version) by {
            assert(s.take(4) =~= h);
            lemma_pow256_values();
            lemma_be_value_of_bytes(v.version as nat, 4);
        }
        assert(s.skip(4) =~= a + (c + (t + rest)));
        Address::lemma_round_trip(v.from, c + (t + rest));
        assert(s.skip((4 + a.len()) as int) =~= c + (t + rest));
        lemma_varuint_round_trip(v.service_count, t + rest);
        assert(s.skip((4 + a.len() + c.len()) as int) =~= t + rest);
        VarStr::lemma_round_trip(v.services, rest);
    }

    fn write_to(&self, buf: &mut Vec<u8>) {
        push_be(buf, self.version as u64, 4);
        self.from.write_to(buf);
        self.service_count.write(buf);
        self.services.write_to(buf);
        assert(final(buf)@ =~= old(buf)@ + Self::wire(self@));
    }

    #[verifier::spinoff_prover]
    fn read_at(buf: &Vec<u8>, off: usize) -> (r: Result<(WhoAmI, usize), Error>) {
        let ghost s = buf@.skip(off as int);
        let total = buf.len();
        if buf.len() - off < 4 {
            return Err(Error::Truncated);
        }
        proof {
            lemma_pow256_values();
            lemma_be_value_bound(buf@.subrange(off as int, off + 4));
        }
        let version = read_be(buf, off, 4) as u32;
        assert(buf@.subrange(off as int, off + 4) =~= s.take(4));
        assert(s.skip(4) =~= buf@.skip(off + 4));
        let (from, a) = match Address::read_at(buf, off + 4) {
            Err(e) => return Err(e),
            Ok(x) => x,
        };
        proof {
            Address::lemma_parse_bounded(buf@.skip(off + 4));
            assert(s.skip((4 + a) as int) =~= buf@.skip(off + 4 + a));
        }
        let (service_count, b) = match VarUint::read(buf, off + 4 + a) {
            Err(e) => return Err(e),
            Ok(x) => x,
        };
        proof {
            lemma_parse_varuint_bounded(buf@.skip(off + 4 + a));
            assert(s.skip((4 + a + b) as int) =~= buf@.skip(off + 4 + a + b));
        }
        let (services, c) = match VarStr::read_at(buf, off + 4 + a + b) {
            Err(e) => return Err(e),
            Ok(x) => x,
        };
        proof {
            VarStr::lemma_parse_bounded(buf@.skip(off + 4 + a + b));
        }
        Ok((WhoAmI { version, from, service_count, services }, 4 + a + b + c))
    }
}

impl WhoAmI {
    /// Our handshake message: the version, our address, and the one service "node".
    pub fn new(version: u32, from: Address) -> (r: WhoAmI)
        ensures
            r@.version == version,
            r@.from == from@,
            r@.service_count == 1,
            r@.services == "node"@,
    {
        WhoAmI {
            version,
            from,
            service_count: VarUint::from_u64(1),
            services: VarStr::from_string(String::from_str("node")),
        }
    }

    /// Reads a `whoami` payload.
    pub fn read(payload: &Vec<u8>) -> (r: Result<WhoAmI, Error>)
        ensures
            decoded(r, payload@),
    {
        assert(payload@.skip(0) =~= payload@);
        match WhoAmI::read_at(payload, 0) {
            Ok((v, _)) => Ok(v),
            Err(e) => Err(e),
        }
    }

    pub fn send(&self) -> (r: Vec<u8>)
        ensures
            r@ == WhoAmI::wire(self@),
    {
        let mut buf = Vec::new();
        self.write_to(&mut buf);
        assert(buf@ =~= WhoAmI::wire(self@));
        buf
    }
}

/// An inventory: announced (`inv`) or requested (`getdata`) transactions and blocks.
#[derive(Clone, Debug)]
pub struct Inv {
    pub inventory: Vec<InvVect>,
}

impl View for Inv {
    type V = Seq<SpecInvVect>;

    open spec fn view(&self) -> Seq<SpecInvVect> {
        views(self.inventory@)
    }
}

impl Wire for Inv {
    open spec fn valid(v: Seq<SpecInvVect>) -> bool {
        crate::codec::all_valid::<InvVect>(v)
    }

    open spec fn wire(v: Seq<SpecInvVect>) -> Seq<u8> {
        counted_wire::<InvVect>(v)
    }

    open spec fn parse(s: Seq<u8>) -> Result<(Seq<SpecInvVect>, nat), Error> {
        parse_counted::<InvVect>(s)
    }

    proof fn lemma_parse_bounded(s: Seq<u8>) {
        lemma_parse_counted_bounded::<InvVect>(s);
    }

    proof fn lemma_parse_sound(s: Seq<u8>) {
        lemma_parse_counted_sound::<InvVect>(s);
    }

    proof fn lemma_round_trip(v: Seq<SpecInvVect>, rest: Seq<u8>) {
        lemma_counted_round_trip::<InvVect>(v, rest);
    }

    fn write_to(&self, buf: &mut Vec<u8>) {
        write_counted(&self.inventory, buf);
    }

    fn read_at(buf: &Vec<u8>, off: usize) -> (r: Result<(Inv, usize), Error>) {
        match read_counted::<InvVect>(buf, off) {
            Err(e) => Err(e),
            Ok((inventory, n)) => Ok((Inv { inventory }, n)),
        }
    }
}

impl Inv {
    /// An inventory of the given hashes, each with its kind.
    pub fn from_vec(hashs: Vec<(Vec<u8>, u32)>) -> (r: Inv)
        ensures
            r@.len() == hashs@.len(),
            forall|i: int|
                0 <= i < hashs@.len() ==> (#[trigger] r@[i]) == (SpecInvVect {
                    hash_type: hashs@[i].1,
                    hash: hashs@[i].0@,
                }),
    {
        let mut inventory: Vec<InvVect> = Vec::new();
        let mut i: usize = 0;
        while i < hashs.len()
            invariant
                i <= hashs@.len(),
                inventory@.len() == i,
                forall|j: int|
                    0 <= j < i ==> (#[trigger] inventory@[j])@ == (SpecInvVect {
                        hash_type: hashs@[j].1,
                        hash: hashs@[j].0@,
                    }),
            decreases hashs@.len() - i,
        {
            let h = crate::codec::copy_bytes(&hashs[i].0);
            inventory.push(InvVect::from_vec(h, hashs[i].1));
            i = i + 1;
        }
        Inv { inventory }
    }

    /// Reads an `inv` or `getdata` payload.
    pub fn read(buffer: &Vec<u8>) -> (r: Result<Inv, Error>)
        ensures
            decoded(r, buffer@),
    {
        assert(buffer@.skip(0) =~= buffer@);
        match Inv::read_at(buffer, 0) {
            Ok((v, _)) => Ok(v),
            Err(e) => Err(e),
        }
    }

    pub fn send(&self) -> (r: Vec<u8>)
        ensures
            r@ == Inv::wire(self@),
    {
        let mut buf = Vec::new();
        self.write_to(&mut buf);
        assert(buf@ =~= Inv::wire(self@));
        buf
    }
}

/// What a `getblocks` payload means: block locator hashes and the hash to stop at.
pub struct SpecGetBlocks {
    pub block_locator: Seq<Seq<u8>>,
    pub hash_stop: Seq<u8>,
}

/// A request for the hashes of the blocks that follow one of the locator hashes.
#[derive(Clone, Debug)]
pub struct GetBlocks {
    pub block_locator: Vec<Vec<u8>>,
    pub hash_stop: Vec<u8>,
}

impl View for GetBlocks {
    type V = SpecGetBlocks;

    open spec fn view(&self) -> SpecGetBlocks {
        SpecGetBlocks { block_locator: views(self.block_locator@), hash_stop: self.hash_stop@ }
    }
}

impl Wire for GetBlocks {
    open spec fn valid(v: SpecGetBlocks) -> bool {
        crate::codec::all_valid::<Vec<u8>>(v.block_locator) && v.hash_stop.len() == 32
    }

    open spec fn wire(v: SpecGetBlocks) -> Seq<u8> {
        counted_wire::<Vec<u8>>(v.block_locator) + v.hash_stop
    }

    open spec fn parse(s: Seq<u8>) -> Result<(SpecGetBlocks, nat), Error> {
        match parse_counted::<Vec<u8>>(s) {
            Err(e) => Err(e),
            Ok((block_locator, a)) => if s.len() < a + 32 {
                Err(Error::Truncated)
            } else {
                Ok(
                    (
                        SpecGetBlocks { block_locator, hash_stop: s.subrange(a as int, (a + 32) as int) },
                        a + 32,
                    ),
                )
            },
        }
    }

    proof fn lemma_parse_bounded(s: Seq<u8>) {
    }

    proof fn lemma_parse_sound(s: Seq<u8>) {
        lemma_parse_counted_sound::<Vec<u8>>(s);
        if parse_counted::<Vec<u8>>(s) is Ok {
            let a = parse_counted::<Vec<u8>>(s)->Ok_0.1;
            if s.len() >= a + 32 {
                assert(s.take((a + 32) as int) =~= s.take(a as int) + s.subrange(
                    a as int,
                    (a + 32) as int,
                ));
            }
        }
    }

    proof fn lemma_round_trip(v: SpecGetBlocks, rest: Seq<u8>) {
        let l = counted_wire::<Vec<u8>>(v.block_locator);
        let s = Self::wire(v) + rest;
        assert(s =~= l + (v.hash_stop + rest));
        lemma_counted_round_trip::<Vec<u8>>(v.block_locator, v.hash_stop + rest);
        assert(s.subrange(l.len() as int, (l.len() + 32) as int) =~= v.hash_stop);
    }

    fn write_to(&self, buf: &mut Vec<u8>) {
        write_counted(&self.block_locator, buf);
        crate::codec::push_bytes(buf, &self.hash_stop);
        assert(final(buf)@ =~= old(buf)@ + Self::wire(self@));
    }

    fn read_at(buf: &Vec<u8>, off: usize) -> (r: Result<(GetBlocks, usize), Error>) {
        let ghost s = buf@.skip(off as int);
        let total = buf.len();
        let (block_locator, a) = match read_counted::<Vec<u8>>(buf, off) {
            Err(e) => return Err(e),
            Ok(x) => x,
        };
        proof {
            lemma_parse_counted_bounded::<Vec<u8>>(s);
        }
        if buf.len() - off - a < 32 {
            return Err(Error::Truncated);
        }
        let hash_stop = copy_range(buf, off + a, 32);
        assert(hash_stop@ =~= s.subrange(a as int, a + 32));
        Ok((GetBlocks { block_locator, hash_stop }, a + 32))
    }
}

impl GetBlocks {
    pub fn from_hashes(hashes: Vec<Vec<u8>>, hash_stop: Vec<u8>) -> (r: GetBlocks)
        ensures
            r@ == (SpecGetBlocks { block_locator: views(hashes@), hash_stop: hash_stop@ }),
    {
        GetBlocks { block_locator: hashes, hash_stop }
    }

    /// Reads a `getblocks` payload.
    pub fn read(buffer: &Vec<u8>) -> (r: Result<GetBlocks, Error>)
        ensures
            decoded(r, buffer@),
    {
        assert(buffer@.skip(0) =~= buffer@);
        match GetBlocks::read_at(buffer, 0) {
            Ok((v, _)) => Ok(v),
            Err(e) => Err(e),
        }
    }

    pub fn send(&self) -> (r: Vec<u8>)
        ensures
            r@ == GetBlocks::wire(self@),
    {
        let mut buf = Vec::new();
        self.write_to(&mut buf);
        assert(buf@ =~= GetBlocks::wire(self@));
        buf
    }
}

/// A message with its payload.
#[derive(Clone, Debug)]
pub enum Message {
    WhoAmI(WhoAmI),
    WhoAmIAck,
    Inv(Inv),
    GetData(Inv),
    GetBlocks(GetBlocks),
    Block(Block),
    Transaction(Transaction),
    TwoPlusTwo,
    MinusOne,
}

/// The kind of a message.
pub open spec fn message_kind(m: Message) -> MessageType {
    match m {
        Message::WhoAmI(_) => MessageType::WhoAmI,
        Message::WhoAmIAck => MessageType::WhoAmIAck,
        Message::Inv(_) => MessageType::Inv,
        Message::GetData(_) => MessageType::GetData,
        Message::GetBlocks(_) => MessageType::GetBlocks,
        Message::Block(_) => MessageType::Block,
        Message::Transaction(_) => MessageType::Transaction,
        Message::TwoPlusTwo => MessageType::TwoPlusTwo,
        Message::MinusOne => MessageType::MinusOne,
    }
}

/// The encoding of a message's payload; empty for the kinds that carry none.
pub open spec fn payload_wire(m: Message) -> Seq<u8> {
    match m {
        Message::WhoAmI(w) => WhoAmI::wire(w@),
        Message::Inv(i) => Inv::wire(i@),
        Message::GetData(i) => Inv::wire(i@),
        Message::GetBlocks(g) => GetBlocks::wire(g@),
        Message::Block(b) => Block::wire(b@),
        Message::Transaction(t) => Transaction::wire(t@),
        _ => Seq::empty(),
    }
}

/// The tag of a kind as text.
pub open spec fn tag_text(t: MessageType) -> Seq<char> {
    match t {
        MessageType::WhoAmI => "whoami\u{0}\u{0}\u{0}\u{0}\u{0}\u{0}"@,
        MessageType::WhoAmIAck => "whoamiack\u{0}\u{0}\u{0}"@,
        MessageType::Inv => "inv\u{0}\u{0}\u{0}\u{0}\u{0}\u{0}\u{0}\u{0}\u{0}"@,
        MessageType::GetData => "getdata\u{0}\u{0}\u{0}\u{0}\u{0}"@,
        MessageType::GetBlocks => "getblocks\u{0}\u{0}\u{0}"@,
        MessageType::Block => "block\u{0}\u{0}\u{0}\u{0}\u{0}\u{0}\u{0}"@,
        MessageType::Transaction => "transaction\u{0}"@,
        MessageType::TwoPlusTwo => "2plus2is4\u{0}\u{0}\u{0}"@,
        MessageType::MinusOne => "minus1thats3"@,
        MessageType::Unknown => Seq::empty(),
    }
}

impl Message {
    pub fn kind(&self) -> (r: MessageType)
        ensures
            r == message_kind(*self),
    {
        match self {
            Message::WhoAmI(_) => MessageType::WhoAmI,
            Message::WhoAmIAck => MessageType::WhoAmIAck,
            Message::Inv(_) => MessageType::Inv,
            Message::GetData(_) => MessageType::GetData,
            Message::GetBlocks(_) => MessageType::GetBlocks,
            Message::Block(_) => MessageType::Block,
            Message::Transaction(_) => MessageType::Transaction,
            Message::TwoPlusTwo => MessageType::TwoPlusTwo,
            Message::MinusOne => MessageType::MinusOne,
        }
    }

    /// The 12-character type tag of the message, padded with NUL characters.
    pub fn name(&self) -> (r: &'static str)
        ensures
            r@ == tag_text(message_kind(*self)),
    {
        match self {
            Message::WhoAmI(_) => "whoami\u{0}\u{0}\u{0}\u{0}\u{0}\u{0}",
            Message::WhoAmIAck => "whoamiack\u{0}\u{0}\u{0}",
            Message::Inv(_) => "inv\u{0}\u{0}\u{0}\u{0}\u{0}\u{0}\u{0}\u{0}\u{0}",
            Message::GetData(_) => "getdata\u{0}\u{0}\u{0}\u{0}\u{0}",
            Message::GetBlocks(_) => "getblocks\u{0}\u{0}\u{0}",
            Message::Block(_) => "block\u{0}\u{0}\u{0}\u{0}\u{0}\u{0}\u{0}",
            Message::Transaction(_) => "transaction\u{0}",
            Message::TwoPlusTwo => "2plus2is4\u{0}\u{0}\u{0}",
            Message::MinusOne => "minus1thats3",
        }
    }

    /// The encoding of the payload.
    pub fn send(&self) -> (r: Vec<u8>)
        ensures
            r@ == payload_wire(*self),
    {
        match self {
            Message::WhoAmI(w) => w.send(),
            Message::Inv(i) => i.send(),
            Message::GetData(i) => i.send(),
            Message::GetBlocks(g) => g.send(),
            Message::Block(b) => b.send(),
            Message::Transaction(t) => t.send(),
            _ => Vec::new(),
        }
    }

    /// The number of bytes of the payload.
    pub fn size(&self) -> (r: u64)
        ensures
            r == payload_wire(*self).len(),
    {
        self.send().len() as u64
    }

    /// The whole frame: header, then payload.
    pub fn frame(&self) -> (r: Vec<u8>)
        ensures
            r@ == header_bytes(message_kind(*self), payload_wire(*self).len() as u64) + payload_wire(
                *self,
            ),
    {
        let payload = self.send();
        let mut buf = prepare_header(self.kind(), payload.len() as u64);
        crate::codec::push_bytes(&mut buf, &payload);
        buf
    }
}

} // verus!
