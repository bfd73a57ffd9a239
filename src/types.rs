//! Fixed-size records of the wire protocol: network addresses and inventory vectors.
use vstd::prelude::*;
use crate::codec::{
    copy_bytes, Duplicate,
    be_bytes, be_value, copy_range, decoded, lemma_be_bytes_len, lemma_be_value_bound,
    lemma_be_value_of_bytes, lemma_bytes_of_be_value, lemma_pow256_values, push_be, push_bytes, read_be, Wire,
};
use crate::error::Error;

verus! {

/// What an address means: when it was seen, its 16-byte IPv6 (or IPv4-mapped) address and its port.
pub struct SpecAddress {
    pub timestamp: u64,
    pub ip: Seq<u8>,
    pub port: u16,
}

/// A network address, sent in 26 bytes.
#[derive(Clone, Debug)]
pub struct Address {
    pub timestamp: u64,
    pub ip: Vec<u8>,
    pub port: u16,
}

impl View for Address {
    type V = SpecAddress;

    open spec fn view(&self) -> SpecAddress {
        SpecAddress { timestamp: self.timestamp, ip: self.ip@, port: self.port }
    }
}

impl Wire for Address {
    open spec fn valid(v: SpecAddress) -> bool {
        v.ip.len() == 16
    }

    open spec fn wire(v: SpecAddress) -> Seq<u8> {
        be_bytes(v.timestamp as nat, 8) + v.ip + be_bytes(v.port as nat, 2)
    }

    open spec fn parse(s: Seq<u8>) -> Result<(SpecAddress, nat), Error> {
        if s.len() < 26 {
            Err(Error::Truncated)
        } else {
            Ok(
                (
                    SpecAddress {
                        timestamp: be_value(s.take(8)) as u64,
                        ip: s.subrange(8, 24),
                        port: be_value(s.subrange(24, 26)) as u16,
                    },
                    26,
                ),
            )
        }
    }

    proof fn lemma_parse_bounded(s: Seq<u8>) {
    }

    proof fn lemma_parse_sound(s: Seq<u8>) {
        if s.len() >= 26 {
            let t = s.take(8);
            let p = s.subrange(24, 26);
            lemma_pow256_values();
            lemma_be_value_bound(t);
            lemma_be_value_bound(p);
            lemma_bytes_of_be_value(t);
            lemma_bytes_of_be_value(p);
            assert(s.take(26) =~= t + s.subrange(8, 24) + p);
        }
    }

    proof fn lemma_round_trip(v: SpecAddress, rest: Seq<u8>) {
        lemma_pow256_values();
        lemma_be_bytes_len(v.timestamp as nat, 8);
        lemma_be_bytes_len(v.port as nat, 2);
        lemma_be_value_of_bytes(v.timestamp as nat, 8);
        lemma_be_value_of_bytes(v.port as nat, 2);
        let s = Self::wire(v) + rest;
        assert(s.take(8) =~= be_bytes(v.timestamp as nat, 8));
        assert(s.subrange(8, 24) =~= v.ip);
        assert(s.subrange(24, 26) =~= be_bytes(v.port as nat, 2));
    }

    fn write_to(&self, buf: &mut Vec<u8>) {
        push_be(buf, self.timestamp, 8);
        push_bytes(buf, &self.ip);
        push_be(buf, self.port as u64, 2);
        assert(final(buf)@ =~= old(buf)@ + Self::wire(self@));
    }

    fn read_at(buf: &Vec<u8>, off: usize) -> (r: Result<(Address, usize), Error>) {
        let ghost s = buf@.skip(off as int);
        if buf.len() - off < 26 {
            return Err(Error::Truncated);
        }
        proof {
            lemma_pow256_values();
            lemma_be_value_bound(buf@.subrange(off + 24, off + 26));
        }
        let timestamp = read_be(buf, off, 8);
        let ip = copy_range(buf, off + 8, 16);
        let port = read_be(buf, off + 24, 2) as u16;
        assert(buf@.subrange(off as int, off + 8) =~= s.take(8));
        assert(ip@ =~= s.subrange(8, 24));
        assert(buf@.subrange(off + 24, off + 26) =~= s.subrange(24, 26));
        Ok((Address { timestamp, ip, port }, 26))
    }
}

impl Address {
    /// An address from its parts; `ip` holds the 16 bytes of an IPv6 (or IPv4-mapped) address.
    pub fn new(timestamp: u64, ip: Vec<u8>, port: u16) -> (r: Address)
        requires
            ip@.len() == 16,
        ensures
            r@ == (SpecAddress { timestamp, ip: ip@, port }),
            Address::valid(r@),
    {
        Address { timestamp, ip, port }
    }

    /// Reads an address at the start of `payload`.
    pub fn read(payload: &Vec<u8>) -> (r: Result<Address, Error>)
        ensures
            decoded(r, payload@),
    {
        assert(payload@.skip(0) =~= payload@);
        match Address::read_at(payload, 0) {
            Ok((a, _)) => Ok(a),
            Err(e) => Err(e),
        }
    }

    pub fn send(&self) -> (r: Vec<u8>)
        ensures
            r@ == Address::wire(self@),
    {
        let mut buf = Vec::new();
        self.write_to(&mut buf);
        assert(buf@ =~= Address::wire(self@));
        buf
    }

    /// The number of bytes of the encoding.
    pub fn size(&self) -> (r: u64)
        ensures
            Address::valid(self@) ==> r == Address::wire(self@).len(),
    {
        proof {
            lemma_be_bytes_len(self.timestamp as nat, 8);
            lemma_be_bytes_len(self.port as nat, 2);
        }
        26
    }
}

/// What an inventory vector means: the kind of the object (0 for a transaction,
/// any other value for a block) and its 32-byte hash.
pub struct SpecInvVect {
    pub hash_type: u32,
    pub hash: Seq<u8>,
}

/// A reference to a transaction or a block, sent in 36 bytes.
#[derive(Clone, Debug)]
pub struct InvVect {
    pub hash_type: u32,
    pub hash: Vec<u8>,
}

impl View for InvVect {
    type V = SpecInvVect;

    open spec fn view(&self) -> SpecInvVect {
        SpecInvVect { hash_type: self.hash_type, hash: self.hash@ }
    }
}

impl Wire for InvVect {
    open spec fn valid(v: SpecInvVect) -> bool {
        v.hash.len() == 32
    }

    open spec fn wire(v: SpecInvVect) -> Seq<u8> {
        be_bytes(v.hash_type as nat, 4) + v.hash
    }

    open spec fn parse(s: Seq<u8>) -> Result<(SpecInvVect, nat), Error> {
        if s.len() < 36 {
            Err(Error::Truncated)
        } else {
            Ok((SpecInvVect { hash_type: be_value(s.take(4)) as u32, hash: s.subrange(4, 36) }, 36))
        }
    }

    proof fn lemma_parse_bounded(s: Seq<u8>) {
    }

    proof fn lemma_parse_sound(s: Seq<u8>) {
        if s.len() >= 36 {
            let t = s.take(4);
            lemma_pow256_values();
            lemma_be_value_bound(t);
            lemma_bytes_of_be_value(t);
            assert(s.take(36) =~= t + s.subrange(4, 36));
        }
    }

    proof fn lemma_round_trip(v: SpecInvVect, rest: Seq<u8>) {
        lemma_pow256_values();
        lemma_be_bytes_len(v.hash_type as nat, 4);
        lemma_be_value_of_bytes(v.hash_type as nat, 4);
        let s = Self::wire(v) + rest;
        assert(s.take(4) =~= be_bytes(v.hash_type as nat, 4));
        assert(s.subrange(4, 36) =~= v.hash);
    }

    fn write_to(&self, buf: &mut Vec<u8>) {
        push_be(buf, self.hash_type as u64, 4);
        push_bytes(buf, &self.hash);
        assert(final(buf)@ =~= old(buf)@ + Self::wire(self@));
    }

    fn read_at(buf: &Vec<u8>, off: usize) -> (r: Result<(InvVect, usize), Error>) {
        let ghost s = buf@.skip(off as int);
        if buf.len() - off < 36 {
            return Err(Error::Truncated);
        }
        proof {
            lemma_pow256_values();
            lemma_be_value_bound(buf@.subrange(off as int, off + 4));
        }
        let hash_type = read_be(buf, off, 4) as u32;
        let hash = copy_range(buf, off + 4, 32);
        assert(buf@.subrange(off as int, off + 4) =~= s.take(4));
        assert(hash@ =~= s.subrange(4, 36));
        Ok((InvVect { hash_type, hash }, 36))
    }
}

impl InvVect {
    pub fn from_vec(array: Vec<u8>, hash_type: u32) -> (r: InvVect)
        ensures
            r@ == (SpecInvVect { hash_type, hash: array@ }),
    {
        InvVect { hash_type, hash: array }
    }

    /// Reads an inventory vector at the start of `buffer`.
    pub fn read(buffer: &Vec<u8>) -> (r: Result<InvVect, Error>)
        ensures
            decoded(r, buffer@),
    {
        assert(buffer@.skip(0) =~= buffer@);
        match InvVect::read_at(buffer, 0) {
            Ok((v, _)) => Ok(v),
            Err(e) => Err(e),
        }
    }

    pub fn send(&self) -> (r: Vec<u8>)
        ensures
            r@ == InvVect::wire(self@),
    {
        let mut buf = Vec::new();
        self.write_to(&mut buf);
        assert(buf@ =~= InvVect::wire(self@));
        buf
    }
}

impl Duplicate for Address {
    fn duplicate(&self) -> (r: Address) {
        Address { timestamp: self.timestamp, ip: copy_bytes(&self.ip), port: self.port }
    }
}

impl Duplicate for InvVect {
    fn duplicate(&self) -> (r: InvVect) {
        InvVect { hash_type: self.hash_type, hash: copy_bytes(&self.hash) }
    }
}

} // verus!
