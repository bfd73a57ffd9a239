//! Primitive wire encodings: big-endian integers, variable-length integers,
//! length-prefixed strings, and counted lists of encoded items.
use vstd::prelude::*;
use vstd::utf8::*;
use crate::error::Error;

verus! {

/// 256 to the power `n`.
pub open spec fn pow256(n: nat) -> nat
    decreases n,
{
    if n == 0 {
        1
    } else {
        256 * pow256((n - 1) as nat)
    }
}

/// The `n` low bytes of `v`, most significant byte first.
pub open spec fn be_bytes(v: nat, n: nat) -> Seq<u8>
    decreases n,
{
    if n == 0 {
        Seq::empty()
    } else {
        be_bytes(v / 256, (n - 1) as nat).push((v % 256) as u8)
    }
}

/// The number that the bytes `s` denote, most significant byte first.
pub open spec fn be_value(s: Seq<u8>) -> nat
    decreases s.len(),
{
    if s.len() == 0 {
        0
    } else {
        be_value(s.drop_last()) * 256 + s.last() as nat
    }
}

pub proof fn lemma_pow256_mono(a: nat, b: nat)
    requires
        a <= b,
    ensures
        1 <= pow256(a) <= pow256(b),
    decreases b,
{
    if b > a {
        lemma_pow256_mono(a, (b - 1) as nat);
    } else if a > 0 {
        lemma_pow256_mono((a - 1) as nat, (a - 1) as nat);
    }
}

pub proof fn lemma_pow256_values()
    ensures
        pow256(2) == 0x1_0000,
        pow256(4) == 0x1_0000_0000,
        pow256(8) == 0x1_0000_0000_0000_0000,
{
    reveal_with_fuel(pow256, 9);
}

pub proof fn lemma_be_bytes_len(v: nat, n: nat)
    ensures
        be_bytes(v, n).len() == n,
    decreases n,
{
    if n > 0 {
        lemma_be_bytes_len(v / 256, (n - 1) as nat);
    }
}

/// Reading back `n` written bytes gives the number, when it fits in `n` bytes.
pub proof fn lemma_be_value_of_bytes(v: nat, n: nat)
    requires
        v < pow256(n),
    ensures
        be_value(be_bytes(v, n)) == v,
    decreases n,
{
    if n > 0 {
        let p = pow256((n - 1) as nat);
        assert(v / 256 < p) by (nonlinear_arith)
            requires
                v < 256 * p,
        ;
        lemma_be_value_of_bytes(v / 256, (n - 1) as nat);
        let s = be_bytes(v, n);
        assert(s.drop_last() =~= be_bytes(v / 256, (n - 1) as nat));
    }
}

pub proof fn lemma_be_value_bound(s: Seq<u8>)
    ensures
        be_value(s) < pow256(s.len()),
    decreases s.len(),
{
    if s.len() > 0 {
        let x = be_value(s.drop_last());
        let p = pow256((s.len() - 1) as nat);
        lemma_be_value_bound(s.drop_last());
        let l = s.last() as nat;
        assert(x * 256 + l < 256 * p) by (nonlinear_arith)
            requires
                x < p,
                l < 256,
        ;
    }
}

/// Writing back the number that some bytes denote gives those bytes.
pub proof fn lemma_bytes_of_be_value(s: Seq<u8>)
    ensures
        be_bytes(be_value(s), s.len()) == s,
    decreases s.len(),
{
    if s.len() > 0 {
        let x = be_value(s.drop_last());
        let l = s.last() as nat;
        lemma_bytes_of_be_value(s.drop_last());
        assert((x * 256 + l) / 256 == x && (x * 256 + l) % 256 == l) by (nonlinear_arith)
            requires
                l < 256,
        ;
        assert(be_bytes(be_value(s), s.len()) =~= s);
    }
}

/// Appends the `n` low bytes of `v`, most significant first.
pub fn push_be(buf: &mut Vec<u8>, v: u64, n: usize)
    requires
        n <= 8,
    ensures
        final(buf)@ == old(buf)@ + be_bytes(v as nat, n as nat),
    decreases n,
{
    if n > 0 {
        push_be(buf, v / 256, n - 1);
        buf.push((v % 256) as u8);
        assert(final(buf)@ =~= old(buf)@ + be_bytes(v as nat, n as nat));
    } else {
        assert(final(buf)@ =~= old(buf)@ + be_bytes(v as nat, n as nat));
    }
}

/// Reads `n` bytes at `off` as a number, most significant byte first.
pub fn read_be(buf: &Vec<u8>, off: usize, n: usize) -> (r: u64)
    requires
        n <= 8,
        off + n <= buf@.len(),
    ensures
        r as nat == be_value(buf@.subrange(off as int, off + n)),
{
    let mut acc: u64 = 0;
    let mut i: usize = 0;
    while i < n
        invariant
            i <= n <= 8,
            off + n <= buf@.len(),
            acc as nat == be_value(buf@.subrange(off as int, off + i)),
            acc < pow256(i as nat),
        decreases n - i,
    {
        proof {
            lemma_pow256_mono((i + 1) as nat, 8);
            lemma_pow256_values();
        }
        assert(off + i < buf.len());
        let b = buf[off + i];
        assert(acc * 256 + b < 256 * pow256(i as nat)) by (nonlinear_arith)
            requires
                acc < pow256(i as nat),
                b < 256,
        ;
        acc = acc * 256 + b as u64;
        i = i + 1;
        assert(buf@.subrange(off as int, off + i).drop_last() =~= buf@.subrange(
            off as int,
            off + i - 1,
        ));
    }
    acc
}

/// The number of bytes that the encoding of `v` as a variable-length integer takes.
pub open spec fn varuint_len(v: u64) -> nat {
    if v < 0xFD {
        1
    } else if v <= 0xFFFF {
        3
    } else if v <= 0xFFFF_FFFF {
        5
    } else {
        9
    }
}

/// The canonical encoding of `v` as a variable-length integer: one byte below 0xFD,
/// else a prefix byte 0xFD, 0xFE or 0xFF followed by a 2, 4 or 8-byte body.
pub open spec fn varuint_bytes(v: u64) -> Seq<u8> {
    if v < 0xFD {
        seq![v as u8]
    } else if v <= 0xFFFF {
        seq![0xFDu8] + be_bytes(v as nat, 2)
    } else if v <= 0xFFFF_FFFF {
        seq![0xFEu8] + be_bytes(v as nat, 4)
    } else {
        seq![0xFFu8] + be_bytes(v as nat, 8)
    }
}

/// Decodes a variable-length integer at the start of `s`: its value and the bytes
/// it takes. A body whose value would have a shorter encoding is refused.
pub open spec fn parse_varuint(s: Seq<u8>) -> Result<(u64, nat), Error> {
    if s.len() == 0 {
        Err(Error::Truncated)
    } else if s[0] < 0xFD {
        Ok((s[0] as u64, 1))
    } else {
        let body: nat = if s[0] == 0xFD {
            2
        } else if s[0] == 0xFE {
            4
        } else {
            8
        };
        if s.len() < 1 + body {
            Err(Error::Truncated)
        } else {
            let v = be_value(s.subrange(1, 1 + body as int)) as u64;
            if varuint_len(v) != 1 + body {
                Err(Error::Decode)
            } else {
                Ok((v, 1 + body))
            }
        }
    }
}

pub proof fn lemma_varuint_bytes_len(v: u64)
    ensures
        varuint_bytes(v).len() == varuint_len(v),
{
    lemma_be_bytes_len(v as nat, 2);
    lemma_be_bytes_len(v as nat, 4);
    lemma_be_bytes_len(v as nat, 8);
}

/// An encoded integer, followed by anything, decodes to itself.
pub proof fn lemma_varuint_round_trip(v: u64, rest: Seq<u8>)
    ensures
        parse_varuint(varuint_bytes(v) + rest) == Ok::<(u64, nat), Error>((v, varuint_len(v))),
{
    lemma_varuint_bytes_len(v);
    lemma_pow256_values();
    let s = varuint_bytes(v) + rest;
    if v >= 0xFD {
        let body: nat = if v <= 0xFFFF {
            2
        } else if v <= 0xFFFF_FFFF {
            4
        } else {
            8
        };
        assert(s.subrange(1, 1 + body as int) =~= be_bytes(v as nat, body));
        lemma_be_value_of_bytes(v as nat, body);
    }
}

/// Decoding a variable-length integer, encoding its value and decoding again
/// gives the first result: decoding accepts canonical encodings only.
pub proof fn lemma_varuint_decode_encode(b: Seq<u8>)
    requires
        parse_varuint(b) is Ok,
    ensures
        parse_varuint(varuint_bytes(parse_varuint(b)->Ok_0.0)) == parse_varuint(b),
{
    let v = parse_varuint(b)->Ok_0.0;
    lemma_varuint_round_trip(v, Seq::empty());
    assert(varuint_bytes(v) + Seq::<u8>::empty() =~= varuint_bytes(v));
}

/// The bytes of a decoded variable-length integer are the canonical encoding of its value.
pub proof fn lemma_varuint_sound(s: Seq<u8>)
    ensures
        parse_varuint(s) is Ok ==> s.take(parse_varuint(s)->Ok_0.1 as int) == varuint_bytes(
            parse_varuint(s)->Ok_0.0,
        ),
{
    if s.len() > 0 {
        if s[0] < 0xFD {
            assert(s.take(1) =~= seq![s[0]]);
        } else {
            let body: nat = if s[0] == 0xFD {
                2
            } else if s[0] == 0xFE {
                4
            } else {
                8
            };
            if s.len() >= 1 + body {
                let sub = s.subrange(1, 1 + body as int);
                lemma_be_value_bound(sub);
                lemma_pow256_values();
                lemma_bytes_of_be_value(sub);
                assert(s.take(1 + body as int) =~= seq![s[0]] + sub);
            }
        }
    }
}

/// A number that is carried on the wire as a variable-length integer.
#[derive(Clone, Copy, Debug)]
pub struct VarUint {
    pub value: u64,
}

impl VarUint {
    pub fn from_u64(value: u64) -> (r: VarUint)
        ensures
            r.value == value,
    {
        VarUint { value }
    }

    /// The number of bytes of the encoding.
    pub fn size(&self) -> (r: u64)
        ensures
            r == varuint_len(self.value),
    {
        if self.value < 0xFD {
            1
        } else if self.value <= 0xFFFF {
            3
        } else if self.value <= 0xFFFF_FFFF {
            5
        } else {
            9
        }
    }

    /// Appends the encoding to `buf`.
    pub fn write(&self, buf: &mut Vec<u8>)
        ensures
            final(buf)@ == old(buf)@ + varuint_bytes(self.value),
    {
        let v = self.value;
        if v < 0xFD {
            buf.push(v as u8);
            assert(final(buf)@ =~= old(buf)@ + varuint_bytes(v));
        } else {
            let ghost start = buf@;
            let n: usize;
            if v <= 0xFFFF {
                buf.push(0xFD);
                n = 2;
            } else if v <= 0xFFFF_FFFF {
                buf.push(0xFE);
                n = 4;
            } else {
                buf.push(0xFF);
                n = 8;
            }
            push_be(buf, v, n);
            assert(final(buf)@ =~= old(buf)@ + varuint_bytes(v));
        }
    }

    pub fn send(&self) -> (r: Vec<u8>)
        ensures
            r@ == varuint_bytes(self.value),
    {
        let mut buf = Vec::new();
        self.write(&mut buf);
        assert(buf@ =~= varuint_bytes(self.value));
        buf
    }

    /// Decodes a variable-length integer at `off` in `buf`, with the number of bytes it took.
    pub fn read(buf: &Vec<u8>, off: usize) -> (r: Result<(VarUint, usize), Error>)
        requires
            off <= buf@.len(),
        ensures
            match r {
                Ok((x, n)) => parse_varuint(buf@.skip(off as int)) == Ok::<(u64, nat), Error>(
                    (x.value, n as nat),
                ),
                Err(e) => parse_varuint(buf@.skip(off as int)) == Err::<(u64, nat), Error>(e),
            },
    {
        let ghost s = buf@.skip(off as int);
        if off >= buf.len() {
            return Err(Error::Truncated);
        }
        let first = buf[off];
        if first < 0xFD {
            return Ok((VarUint { value: first as u64 }, 1));
        }
        let body: usize = if first == 0xFD {
            2
        } else if first == 0xFE {
            4
        } else {
            8
        };
        if buf.len() - off < 1 + body {
            return Err(Error::Truncated);
        }
        let v = read_be(buf, off + 1, body);
        assert(buf@.subrange(off + 1, off + 1 + body) =~= s.subrange(1, 1 + body as int));
        let x = VarUint { value: v };
        if x.size() != 1 + body as u64 {
            return Err(Error::Decode);
        }
        Ok((x, 1 + body))
    }

    /// Decodes a variable-length integer at the start of `buf`.
    pub fn decode(buf: &Vec<u8>) -> (r: Result<(VarUint, usize), Error>)
        ensures
            match r {
                Ok((x, n)) => parse_varuint(buf@) == Ok::<(u64, nat), Error>((x.value, n as nat)),
                Err(e) => parse_varuint(buf@) == Err::<(u64, nat), Error>(e),
            },
    {
        assert(buf@.skip(0) =~= buf@);
        VarUint::read(buf, 0)
    }
}

/// A value with a byte encoding: what it means (`V`), which meanings can be sent
/// (`valid`), how they are written (`wire`) and how bytes are read back (`parse`).
pub trait Wire: View + Sized {
    spec fn valid(v: Self::V) -> bool;

    spec fn wire(v: Self::V) -> Seq<u8>;

    /// The value at the start of `s` and the number of bytes it takes.
    spec fn parse(s: Seq<u8>) -> Result<(Self::V, nat), Error>;

    proof fn lemma_parse_bounded(s: Seq<u8>)
        ensures
            Self::parse(s) is Ok ==> Self::parse(s)->Ok_0.1 <= s.len(),
    ;

    /// What is read can be sent, and the bytes read are exactly its encoding.
    proof fn lemma_parse_sound(s: Seq<u8>)
        ensures
            Self::parse(s) is Ok ==> {
                &&& Self::valid(Self::parse(s)->Ok_0.0)
                &&& Self::parse(s)->Ok_0.1 <= s.len()
                &&& s.take(Self::parse(s)->Ok_0.1 as int) == Self::wire(Self::parse(s)->Ok_0.0)
            },
    ;

    proof fn lemma_round_trip(v: Self::V, rest: Seq<u8>)
        requires
            Self::valid(v),
        ensures
            Self::parse(Self::wire(v) + rest) == Ok::<(Self::V, nat), Error>(
                (v, Self::wire(v).len()),
            ),
    ;

    fn write_to(&self, buf: &mut Vec<u8>)
        ensures
            final(buf)@ == old(buf)@ + Self::wire(self@),
    ;

    fn read_at(buf: &Vec<u8>, off: usize) -> (r: Result<(Self, usize), Error>)
        requires
            off <= buf@.len(),
        ensures
            read_result(r, Self::parse(buf@.skip(off as int))),
    ;
}

/// `r` is what the specification `expected` gives: the same value and length, or the same error.
pub open spec fn read_result<T: View>(
    r: Result<(T, usize), Error>,
    expected: Result<(T::V, nat), Error>,
) -> bool {
    match r {
        Ok((t, n)) => expected == Ok::<(T::V, nat), Error>((t@, n as nat)),
        Err(e) => expected == Err::<(T::V, nat), Error>(e),
    }
}

/// The meanings of the items of `xs`.
pub open spec fn views<T: View>(xs: Seq<T>) -> Seq<T::V> {
    xs.map_values(|x: T| x@)
}

/// The encodings of `xs`, one after the other.
pub open spec fn concat_wire<T: Wire>(xs: Seq<T::V>) -> Seq<u8>
    decreases xs.len(),
{
    if xs.len() == 0 {
        Seq::empty()
    } else {
        concat_wire::<T>(xs.drop_last()) + T::wire(xs.last())
    }
}

/// Reads `count` values one after the other from the start of `s`.
pub open spec fn parse_many<T: Wire>(count: nat, s: Seq<u8>) -> Result<(Seq<T::V>, nat), Error>
    decreases count,
{
    if count == 0 {
        Ok((Seq::empty(), 0))
    } else {
        match T::parse(s) {
            Err(e) => Err(e),
            Ok((x, n)) => match parse_many::<T>((count - 1) as nat, s.skip(n as int)) {
                Err(e) => Err(e),
                Ok((xs, m)) => Ok((seq![x] + xs, n + m)),
            },
        }
    }
}

/// A list sent as its length, a variable-length integer, then its items.
pub open spec fn counted_wire<T: Wire>(xs: Seq<T::V>) -> Seq<u8> {
    varuint_bytes(xs.len() as u64) + concat_wire::<T>(xs)
}

/// Reads a list sent as its length and then its items.
pub open spec fn parse_counted<T: Wire>(s: Seq<u8>) -> Result<(Seq<T::V>, nat), Error> {
    match parse_varuint(s) {
        Err(e) => Err(e),
        Ok((count, k)) => match parse_many::<T>(count as nat, s.skip(k as int)) {
            Err(e) => Err(e),
            Ok((xs, m)) => Ok((xs, k + m)),
        },
    }
}

/// Every item can be sent, and there are few enough to be counted in 64 bits.
pub open spec fn all_valid<T: Wire>(xs: Seq<T::V>) -> bool {
    &&& xs.len() <= u64::MAX
    &&& forall|i: int| 0 <= i < xs.len() ==> T::valid(#[trigger] xs[i])
}

pub proof fn lemma_parse_varuint_bounded(s: Seq<u8>)
    ensures
        parse_varuint(s) is Ok ==> 1 <= parse_varuint(s)->Ok_0.1 <= s.len(),
{
}

pub proof fn lemma_parse_many_bounded<T: Wire>(count: nat, s: Seq<u8>)
    ensures
        parse_many::<T>(count, s) is Ok ==> parse_many::<T>(count, s)->Ok_0.1 <= s.len(),
    decreases count,
{
    if count > 0 {
        T::lemma_parse_bounded(s);
        if T::parse(s) is Ok {
            let n = T::parse(s)->Ok_0.1;
            lemma_parse_many_bounded::<T>((count - 1) as nat, s.skip(n as int));
        }
    }
}

pub proof fn lemma_parse_counted_bounded<T: Wire>(s: Seq<u8>)
    ensures
        parse_counted::<T>(s) is Ok ==> parse_counted::<T>(s)->Ok_0.1 <= s.len(),
{
    if parse_varuint(s) is Ok {
        let (count, k) = parse_varuint(s)->Ok_0;
        lemma_parse_many_bounded::<T>(count as nat, s.skip(k as int));
    }
}

/// Reading `k + 1` values is reading `k` values and then one more.
pub proof fn lemma_parse_many_snoc<T: Wire>(k: nat, s: Seq<u8>)
    ensures
        parse_many::<T>(k + 1, s) == match parse_many::<T>(k, s) {
            Err(e) => Err(e),
            Ok((xs, m)) => match T::parse(s.skip(m as int)) {
                Err(e) => Err(e),
                Ok((x, n)) => Ok((xs.push(x), m + n)),
            },
        },
    decreases k,
{
    T::lemma_parse_bounded(s);
    if k == 0 {
        assert(s.skip(0) =~= s);
        if T::parse(s) is Ok {
            let (x, n) = T::parse(s)->Ok_0;
            assert(parse_many::<T>(0, s.skip(n as int)) == Ok::<(Seq<T::V>, nat), Error>(
                (Seq::empty(), 0),
            ));
            assert(seq![x] + Seq::<T::V>::empty() =~= Seq::<T::V>::empty().push(x));
        }
    } else {
        if T::parse(s) is Ok {
            let (x, n) = T::parse(s)->Ok_0;
            let t = s.skip(n as int);
            lemma_parse_many_snoc::<T>((k - 1) as nat, t);
            if parse_many::<T>((k - 1) as nat, t) is Ok {
                let (ys, m) = parse_many::<T>((k - 1) as nat, t)->Ok_0;
                lemma_parse_many_bounded::<T>((k - 1) as nat, t);
                assert(t.skip(m as int) =~= s.skip((n + m) as int));
                if T::parse(t.skip(m as int)) is Ok {
                    let (z, q) = T::parse(t.skip(m as int))->Ok_0;
                    assert((seq![x] + ys).push(z) =~= seq![x] + ys.push(z));
                }
            }
        }
    }
}

/// Once reading fails, reading more values fails with the same error.
pub proof fn lemma_parse_many_err<T: Wire>(k: nat, k2: nat, s: Seq<u8>)
    requires
        k <= k2,
        parse_many::<T>(k, s) is Err,
    ensures
        parse_many::<T>(k2, s) == parse_many::<T>(k, s),
    decreases k2 - k,
{
    if k < k2 {
        lemma_parse_many_snoc::<T>(k, s);
        lemma_parse_many_err::<T>(k + 1, k2, s);
    }
}

/// Sent values, followed by anything, read back as themselves.
pub proof fn lemma_parse_many_wire<T: Wire>(xs: Seq<T::V>, rest: Seq<u8>)
    requires
        forall|i: int| 0 <= i < xs.len() ==> T::valid(#[trigger] xs[i]),
    ensures
        parse_many::<T>(xs.len(), concat_wire::<T>(xs) + rest) == Ok::<(Seq<T::V>, nat), Error>(
            (xs, concat_wire::<T>(xs).len()),
        ),
    decreases xs.len(),
{
    if xs.len() > 0 {
        let ys = xs.drop_last();
        let x = xs.last();
        let s = concat_wire::<T>(xs) + rest;
        assert(s =~= concat_wire::<T>(ys) + (T::wire(x) + rest));
        assert forall|i: int| 0 <= i < ys.len() implies T::valid(#[trigger] ys[i]) by {
            assert(T::valid(xs[i]));
        }
        lemma_parse_many_wire::<T>(ys, T::wire(x) + rest);
        lemma_parse_many_snoc::<T>(ys.len(), s);
        assert(s.skip(concat_wire::<T>(ys).len() as int) =~= T::wire(x) + rest);
        assert(T::valid(xs[xs.len() - 1]));
        assert(ys.len() + 1 == xs.len());
        T::lemma_round_trip(x, rest);
        assert(ys.push(x) =~= xs);
        assert(parse_many::<T>(ys.len(), s) == Ok::<(Seq<T::V>, nat), Error>(
            (ys, concat_wire::<T>(ys).len()),
        ));
        assert(T::parse(s.skip(concat_wire::<T>(ys).len() as int)) == Ok::<(T::V, nat), Error>(
            (x, T::wire(x).len()),
        ));
        assert(concat_wire::<T>(xs).len() == concat_wire::<T>(ys).len() + T::wire(x).len());
    } else {
        assert(concat_wire::<T>(xs) + rest =~= rest);
        assert(xs =~= Seq::<T::V>::empty());
    }
}

/// A sent list, followed by anything, reads back as itself.
pub proof fn lemma_counted_round_trip<T: Wire>(xs: Seq<T::V>, rest: Seq<u8>)
    requires
        all_valid::<T>(xs),
    ensures
        parse_counted::<T>(counted_wire::<T>(xs) + rest) == Ok::<(Seq<T::V>, nat), Error>(
            (xs, counted_wire::<T>(xs).len()),
        ),
{
    let c = xs.len() as u64;
    let s = counted_wire::<T>(xs) + rest;
    assert(s =~= varuint_bytes(c) + (concat_wire::<T>(xs) + rest));
    lemma_varuint_round_trip(c, concat_wire::<T>(xs) + rest);
    lemma_varuint_bytes_len(c);
    assert(s.skip(varuint_len(c) as int) =~= concat_wire::<T>(xs) + rest);
    lemma_parse_many_wire::<T>(xs, rest);
}

/// The first `a + b` bytes are the first `a`, then the `b` after them.
pub proof fn lemma_take_split(s: Seq<u8>, a: int, b: int)
    requires
        0 <= a,
        0 <= b,
        a + b <= s.len(),
    ensures
        s.take(a + b) == s.take(a) + s.skip(a).take(b),
        s.skip(a).skip(b) == s.skip(a + b),
{
    assert(s.take(a + b) =~= s.take(a) + s.skip(a).take(b));
    assert(s.skip(a).skip(b) =~= s.skip(a + b));
}

/// Values read one after the other can be sent, and the bytes read are their encodings.
pub proof fn lemma_parse_many_sound<T: Wire>(k: nat, s: Seq<u8>)
    ensures
        parse_many::<T>(k, s) is Ok ==> {
            let (xs, m) = parse_many::<T>(k, s)->Ok_0;
            &&& xs.len() == k
            &&& m <= s.len()
            &&& forall|i: int| 0 <= i < xs.len() ==> T::valid(#[trigger] xs[i])
            &&& s.take(m as int) == concat_wire::<T>(xs)
        },
    decreases k,
{
    if k == 0 {
        assert(s.take(0) =~= Seq::<u8>::empty());
    } else {
        let j = (k - 1) as nat;
        lemma_parse_many_snoc::<T>(j, s);
        lemma_parse_many_sound::<T>(j, s);
        if parse_many::<T>(j, s) is Ok {
            let (xs, m) = parse_many::<T>(j, s)->Ok_0;
            let t = s.skip(m as int);
            T::lemma_parse_sound(t);
            if T::parse(t) is Ok {
                let (x, n) = T::parse(t)->Ok_0;
                assert(s.take((m + n) as int) =~= s.take(m as int) + t.take(n as int));
                assert(xs.push(x).drop_last() =~= xs);
                assert forall|i: int| 0 <= i < xs.push(x).len() implies T::valid(
                    #[trigger] xs.push(x)[i],
                ) by {
                    if i < xs.len() {
                        assert(xs.push(x)[i] == xs[i]);
                    }
                }
            }
        }
    }
}

/// A list read as its length and its items can be sent, and the bytes read are its encoding.
pub proof fn lemma_parse_counted_sound<T: Wire>(s: Seq<u8>)
    ensures
        parse_counted::<T>(s) is Ok ==> {
            let (xs, m) = parse_counted::<T>(s)->Ok_0;
            &&& all_valid::<T>(xs)
            &&& m <= s.len()
            &&& s.take(m as int) == counted_wire::<T>(xs)
        },
{
    lemma_varuint_sound(s);
    lemma_parse_varuint_bounded(s);
    if parse_varuint(s) is Ok {
        let (count, k) = parse_varuint(s)->Ok_0;
        let t = s.skip(k as int);
        lemma_parse_many_sound::<T>(count as nat, t);
        if parse_many::<T>(count as nat, t) is Ok {
            let (xs, m) = parse_many::<T>(count as nat, t)->Ok_0;
            assert(s.take((k + m) as int) =~= s.take(k as int) + t.take(m as int));
            assert(xs.len() as u64 == count);
        }
    }
}

/// Reads `count` values one after the other, starting at `off`.
pub fn read_many<T: Wire>(buf: &Vec<u8>, off: usize, count: u64) -> (r: Result<(Vec<T>, usize), Error>)
    requires
        off <= buf@.len(),
    ensures
        match r {
            Ok((xs, n)) => parse_many::<T>(count as nat, buf@.skip(off as int)) == Ok::<
                (Seq<T::V>, nat),
                Error,
            >((views(xs@), n as nat)),
            Err(e) => parse_many::<T>(count as nat, buf@.skip(off as int)) == Err::<
                (Seq<T::V>, nat),
                Error,
            >(e),
        },
{
    let ghost s = buf@.skip(off as int);
    let total = buf.len();
    let mut items: Vec<T> = Vec::new();
    let mut pos = off;
    let mut i: u64 = 0;
    assert(views(items@) =~= Seq::<T::V>::empty());
    while i < count
        invariant
            off <= pos <= buf@.len(),
            total == buf@.len(),
            i <= count,
            s == buf@.skip(off as int),
            parse_many::<T>(i as nat, s) == Ok::<(Seq<T::V>, nat), Error>(
                (views(items@), (pos - off) as nat),
            ),
        decreases count - i,
    {
        proof {
            lemma_parse_many_snoc::<T>(i as nat, s);
            assert(s.skip(pos - off) =~= buf@.skip(pos as int));
            T::lemma_parse_bounded(buf@.skip(pos as int));
        }
        match T::read_at(buf, pos) {
            Err(e) => {
                proof {
                    lemma_parse_many_err::<T>((i + 1) as nat, count as nat, s);
                }
                return Err(e);
            },
            Ok((x, n)) => {
                assert(T::parse(buf@.skip(pos as int)) == Ok::<(T::V, nat), Error>((x@, n as nat)));
                assert(n <= buf@.len() - pos);
                let ghost before = items@;
                items.push(x);
                assert(views(items@) =~= views(before).push(x@));
                pos = pos + n;
                i = i + 1;
            },
        }
    }
    Ok((items, pos - off))
}

/// Reads a list sent as its length and then its items, starting at `off`.
pub fn read_counted<T: Wire>(buf: &Vec<u8>, off: usize) -> (r: Result<(Vec<T>, usize), Error>)
    requires
        off <= buf@.len(),
    ensures
        match r {
            Ok((xs, n)) => parse_counted::<T>(buf@.skip(off as int)) == Ok::<
                (Seq<T::V>, nat),
                Error,
            >((views(xs@), n as nat)),
            Err(e) => parse_counted::<T>(buf@.skip(off as int)) == Err::<(Seq<T::V>, nat), Error>(
                e,
            ),
        },
{
    let total = buf.len();
    match VarUint::read(buf, off) {
        Err(e) => Err(e),
        Ok((count, k)) => {
            assert(parse_varuint(buf@.skip(off as int)) == Ok::<(u64, nat), Error>((count.value, k as nat)));
            proof {
                lemma_parse_varuint_bounded(buf@.skip(off as int));
                assert(buf@.skip(off as int).skip(k as int) =~= buf@.skip(off + k));
            }
            match read_many::<T>(buf, off + k, count.value) {
                Err(e) => Err(e),
                Ok((xs, m)) => {
                    proof {
                        lemma_parse_many_bounded::<T>(count.value as nat, buf@.skip(off + k));
                    }
                    Ok((xs, k + m))
                },
            }
        },
    }
}

/// Appends the encodings of the items of `xs`, one after the other.
pub fn write_many<T: Wire>(xs: &Vec<T>, buf: &mut Vec<u8>)
    ensures
        final(buf)@ == old(buf)@ + concat_wire::<T>(views(xs@)),
{
    let mut i: usize = 0;
    while i < xs.len()
        invariant
            i <= xs@.len(),
            buf@ == old(buf)@ + concat_wire::<T>(views(xs@.take(i as int))),
        decreases xs@.len() - i,
    {
        let ghost before = buf@;
        xs[i].write_to(buf);
        assert(views(xs@.take(i + 1)).drop_last() =~= views(xs@.take(i as int)));
        i = i + 1;
        assert(buf@ =~= old(buf)@ + concat_wire::<T>(views(xs@.take(i as int))));
    }
    assert(xs@.take(i as int) =~= xs@);
}

/// Appends a list as its length and then its items.
pub fn write_counted<T: Wire>(xs: &Vec<T>, buf: &mut Vec<u8>)
    ensures
        final(buf)@ == old(buf)@ + counted_wire::<T>(views(xs@)),
{
    VarUint::from_u64(xs.len() as u64).write(buf);
    write_many(xs, buf);
    assert(final(buf)@ =~= old(buf)@ + counted_wire::<T>(views(xs@)));
}

/// Relies on String::from_utf8: it accepts exactly the well-formed UTF-8 byte strings,
/// and the string it returns holds the characters that the bytes encode.
#[verifier::external_body]
fn string_from_utf8(bytes: Vec<u8>) -> (r: Option<String>)
    ensures
        r is Some <==> valid_utf8(bytes@),
        r matches Some(s) ==> s@ == decode_utf8(bytes@),
{
    String::from_utf8(bytes).ok()
}

/// A text carried on the wire as its length in bytes, then its UTF-8 bytes.
#[derive(Clone, Debug)]
pub struct VarStr {
    pub value: String,
}

impl View for VarStr {
    type V = Seq<char>;

    open spec fn view(&self) -> Seq<char> {
        self.value@
    }
}

impl Wire for VarStr {
    open spec fn valid(v: Seq<char>) -> bool {
        encode_utf8(v).len() <= u64::MAX
    }

    open spec fn wire(v: Seq<char>) -> Seq<u8> {
        varuint_bytes(encode_utf8(v).len() as u64) + encode_utf8(v)
    }

    open spec fn parse(s: Seq<u8>) -> Result<(Seq<char>, nat), Error> {
        match parse_varuint(s) {
            Err(e) => Err(e),
            Ok((n, k)) => if s.len() < k + n {
                Err(Error::Truncated)
            } else if !valid_utf8(s.subrange(k as int, k + n)) {
                Err(Error::Decode)
            } else {
                Ok((decode_utf8(s.subrange(k as int, k + n)), (k + n) as nat))
            },
        }
    }

    proof fn lemma_parse_bounded(s: Seq<u8>) {
    }

    proof fn lemma_parse_sound(s: Seq<u8>) {
        lemma_varuint_sound(s);
        if parse_varuint(s) is Ok {
            let (n, k) = parse_varuint(s)->Ok_0;
            if s.len() >= k + n {
                let b = s.subrange(k as int, k + n);
                if valid_utf8(b) {
                    decode_utf8_encode_utf8(b);
                    assert(b.len() as u64 == n);
                    assert(s.take(k + n) =~= s.take(k as int) + b);
                }
            }
        }
    }

    proof fn lemma_round_trip(v: Seq<char>, rest: Seq<u8>) {
        broadcast use encode_utf8_valid_utf8, encode_utf8_decode_utf8;

        let b = encode_utf8(v);
        let n = b.len() as u64;
        lemma_varuint_round_trip(n, b + rest);
        lemma_varuint_bytes_len(n);
        let s = Self::wire(v) + rest;
        assert(s =~= varuint_bytes(n) + (b + rest));
        let k = varuint_len(n);
        assert(s.subrange(k as int, k + n) =~= b);
    }

    fn write_to(&self, buf: &mut Vec<u8>) {
        let bytes = self.value.as_str().as_bytes();
        VarUint::from_u64(bytes.len() as u64).write(buf);
        let ghost mid = buf@;
        let mut i: usize = 0;
        while i < bytes.len()
            invariant
                i <= bytes@.len(),
                buf@ == mid + bytes@.take(i as int),
            decreases bytes@.len() - i,
        {
            buf.push(bytes[i]);
            i = i + 1;
            assert(buf@ =~= mid + bytes@.take(i as int));
        }
        assert(bytes@.take(i as int) =~= bytes@);
        assert(final(buf)@ =~= old(buf)@ + Self::wire(self@));
    }

    fn read_at(buf: &Vec<u8>, off: usize) -> (r: Result<(VarStr, usize), Error>) {
        let ghost s = buf@.skip(off as int);
        match VarUint::read(buf, off) {
            Err(e) => Err(e),
            Ok((len, k)) => {
                if ((buf.len() - off - k) as u64) < len.value {
                    return Err(Error::Truncated);
                }
                let n = len.value as usize;
                let start = off + k;
                let mut bytes: Vec<u8> = Vec::new();
                let mut i: usize = 0;
                while i < n
                    invariant
                        i <= n,
                        start + n <= buf@.len(),
                        bytes@ == buf@.subrange(start as int, start + i),
                    decreases n - i,
                {
                    assert(start + i < buf.len());
                    bytes.push(buf[start + i]);
                    i = i + 1;
                    assert(bytes@ =~= buf@.subrange(start as int, start + i));
                }
                assert(bytes@ =~= s.subrange(k as int, k + n));
                match string_from_utf8(bytes) {
                    None => Err(Error::Decode),
                    Some(value) => Ok((VarStr { value }, k + n)),
                }
            },
        }
    }
}

impl VarStr {
    /// Reads a text at the start of `payload`.
    pub fn new(payload: &Vec<u8>) -> (r: Result<(VarStr, usize), Error>)
        ensures
            read_result(r, VarStr::parse(payload@)),
    {
        assert(payload@.skip(0) =~= payload@);
        VarStr::read_at(payload, 0)
    }

    pub fn from_string(value: String) -> (r: VarStr)
        ensures
            r@ == value@,
    {
        VarStr { value }
    }

    pub fn send(&self) -> (r: Vec<u8>)
        ensures
            r@ == VarStr::wire(self@),
    {
        let mut buf = Vec::new();
        self.write_to(&mut buf);
        assert(buf@ =~= VarStr::wire(self@));
        buf
    }

    /// Every text held in memory is short enough to be sent: its UTF-8 bytes form a
    /// slice, whose length fits in a machine word.
    pub fn check_sendable(&self)
        ensures
            VarStr::valid(self@),
    {
        let _ = self.value.as_str().as_bytes().len();
    }

    pub fn val(&self) -> (r: String)
        ensures
            r@ == self@,
    {
        self.value.clone()
    }
}

/// A copy of some bytes.
pub fn copy_bytes(v: &Vec<u8>) -> (r: Vec<u8>)
    ensures
        r@ == v@,
{
    let mut r: Vec<u8> = Vec::new();
    let mut i: usize = 0;
    while i < v.len()
        invariant
            i <= v@.len(),
            r@ == v@.take(i as int),
        decreases v@.len() - i,
    {
        r.push(v[i]);
        i = i + 1;
        assert(r@ =~= v@.take(i as int));
    }
    assert(v@.take(i as int) =~= v@);
    r
}

/// Appends the bytes of `v` to `buf`.
pub fn push_bytes(buf: &mut Vec<u8>, v: &Vec<u8>)
    ensures
        final(buf)@ == old(buf)@ + v@,
{
    let mut i: usize = 0;
    while i < v.len()
        invariant
            i <= v@.len(),
            buf@ == old(buf)@ + v@.take(i as int),
        decreases v@.len() - i,
    {
        buf.push(v[i]);
        i = i + 1;
        assert(buf@ =~= old(buf)@ + v@.take(i as int));
    }
    assert(v@.take(i as int) =~= v@);
}

/// Whether two byte strings are equal.
pub fn bytes_eq(a: &Vec<u8>, b: &Vec<u8>) -> (r: bool)
    ensures
        r == (a@ == b@),
{
    if a.len() != b.len() {
        return false;
    }
    let mut i: usize = 0;
    while i < a.len()
        invariant
            i <= a@.len(),
            a@.len() == b@.len(),
            a@.take(i as int) == b@.take(i as int),
        decreases a@.len() - i,
    {
        if a[i] != b[i] {
            return false;
        }
        i = i + 1;
        assert(a@.take(i as int) =~= a@.take(i - 1).push(a@[i - 1]));
        assert(b@.take(i as int) =~= b@.take(i - 1).push(b@[i - 1]));
    }
    assert(a@ =~= a@.take(i as int));
    assert(b@ =~= b@.take(i as int));
    true
}

/// `n` zero bytes.
pub fn zeros(n: usize) -> (r: Vec<u8>)
    ensures
        r@ == Seq::new(n as nat, |i: int| 0u8),
{
    let mut r: Vec<u8> = Vec::new();
    let mut i: usize = 0;
    while i < n
        invariant
            i <= n,
            r@ == Seq::new(i as nat, |j: int| 0u8),
        decreases n - i,
    {
        r.push(0);
        i = i + 1;
        assert(r@ =~= Seq::new(i as nat, |j: int| 0u8));
    }
    r
}

/// A copy of the `len` bytes of `buf` at `start`.
pub fn copy_range(buf: &Vec<u8>, start: usize, len: usize) -> (r: Vec<u8>)
    requires
        start + len <= buf@.len(),
    ensures
        r@ == buf@.subrange(start as int, start + len),
{
    let mut r: Vec<u8> = Vec::new();
    let mut i: usize = 0;
    while i < len
        invariant
            i <= len,
            start + len <= buf@.len(),
            r@ == buf@.subrange(start as int, start + i),
        decreases len - i,
    {
        assert(start + i < buf.len());
        r.push(buf[start + i]);
        i = i + 1;
        assert(r@ =~= buf@.subrange(start as int, start + i));
    }
    r
}

/// What decoding the start of `s` as a `T` gives: the value, or the error.
pub open spec fn decoded<T: Wire>(r: Result<T, Error>, s: Seq<u8>) -> bool {
    match T::parse(s) {
        Ok((v, n)) => r is Ok && r->Ok_0@ == v,
        Err(e) => r == Err::<T, Error>(e),
    }
}

/// A 32-byte hash, sent as its bytes.
impl Wire for Vec<u8> {
    open spec fn valid(v: Seq<u8>) -> bool {
        v.len() == 32
    }

    open spec fn wire(v: Seq<u8>) -> Seq<u8> {
        v
    }

    open spec fn parse(s: Seq<u8>) -> Result<(Seq<u8>, nat), Error> {
        if s.len() < 32 {
            Err(Error::Truncated)
        } else {
            Ok((s.take(32), 32))
        }
    }

    proof fn lemma_parse_bounded(s: Seq<u8>) {
    }

    proof fn lemma_parse_sound(s: Seq<u8>) {
    }

    proof fn lemma_round_trip(v: Seq<u8>, rest: Seq<u8>) {
        assert((v + rest).take(32) =~= v);
    }

    fn write_to(&self, buf: &mut Vec<u8>) {
        push_bytes(buf, self);
    }

    fn read_at(buf: &Vec<u8>, off: usize) -> (r: Result<(Vec<u8>, usize), Error>) {
        if buf.len() - off < 32 {
            return Err(Error::Truncated);
        }
        let h = copy_range(buf, off, 32);
        assert(h@ =~= buf@.skip(off as int).take(32));
        Ok((h, 32))
    }
}

/// A value that can be copied with the same meaning.
pub trait Duplicate: View + Sized {
    fn duplicate(&self) -> (r: Self)
        ensures
            r@ == self@,
    ;
}

/// Copies of the items of `v`, with the same meanings.
pub fn duplicate_all<T: Duplicate>(v: &Vec<T>) -> (r: Vec<T>)
    ensures
        views(r@) == views(v@),
{
    let mut r: Vec<T> = Vec::new();
    let mut i: usize = 0;
    while i < v.len()
        invariant
            i <= v@.len(),
            views(r@) == views(v@).take(i as int),
        decreases v@.len() - i,
    {
        let x = v[i].duplicate();
        let ghost before = views(r@);
        r.push(x);
        assert(views(r@) =~= before.push(x@));
        i = i + 1;
        assert(views(r@) =~= views(v@).take(i as int));
    }
    assert(views(v@).take(i as int) =~= views(v@));
    r
}

impl Duplicate for VarStr {
    fn duplicate(&self) -> (r: VarStr) {
        VarStr { value: self.value.clone() }
    }
}

impl Duplicate for Vec<u8> {
    fn duplicate(&self) -> (r: Vec<u8>) {
        copy_bytes(self)
    }
}

} // verus!
