//! SHA-256 digests of byte strings.
use vstd::prelude::*;
use sha2::Digest;
use vstd::string::StringExecFns;
use crate::codec::copy_bytes;

verus! {

/// The SHA-256 digest of `data`.
pub uninterp spec fn sha256_of(data: Seq<u8>) -> Seq<u8>;

/// SHA-256 applied twice: the digest of the digest of `data`.
pub open spec fn double_sha256(data: Seq<u8>) -> Seq<u8> {
    sha256_of(sha256_of(data))
}

/// Relies on sha2's `Sha256::digest`: the SHA-256 digest of the bytes, 32 bytes long.
#[verifier::external_body]
pub fn hash(s: Vec<u8>) -> (r: Vec<u8>)
    ensures
        r@ == sha256_of(s@),
        r@.len() == 32,
{
    sha2::Sha256::digest(&s).to_vec()
}

/// The double SHA-256 digest of `s`, the identity of blocks and transactions.
pub fn double_hash(s: &Vec<u8>) -> (r: Vec<u8>)
    ensures
        r@ == double_sha256(s@),
        r@.len() == 32,
{
    hash(hash(copy_bytes(s)))
}


/// The lowercase hexadecimal digit of `n`, below 16.
pub open spec fn hex_char(n: u8) -> char {
    if n == 0 {
        '0'
    } else if n == 1 {
        '1'
    } else if n == 2 {
        '2'
    } else if n == 3 {
        '3'
    } else if n == 4 {
        '4'
    } else if n == 5 {
        '5'
    } else if n == 6 {
        '6'
    } else if n == 7 {
        '7'
    } else if n == 8 {
        '8'
    } else if n == 9 {
        '9'
    } else if n == 10 {
        'a'
    } else if n == 11 {
        'b'
    } else if n == 12 {
        'c'
    } else if n == 13 {
        'd'
    } else if n == 14 {
        'e'
    } else {
        'f'
    }
}

/// The bytes of `b` written in lowercase hexadecimal, two digits each.
pub open spec fn hex_text(b: Seq<u8>) -> Seq<char>
    decreases b.len(),
{
    if b.len() == 0 {
        Seq::empty()
    } else {
        hex_text(b.drop_last()) + seq![hex_char(b.last() / 16), hex_char(b.last() % 16)]
    }
}

fn hex_digit(n: u8) -> (r: &'static str)
    requires
        n < 16,
    ensures
        r@ == seq![hex_char(n)],
{
    if n == 0 {
        proof {
            reveal_strlit("0");
        }
        "0"
    } else if n == 1 {
        proof {
            reveal_strlit("1");
        }
        "1"
    } else if n == 2 {
        proof {
            reveal_strlit("2");
        }
        "2"
    } else if n == 3 {
        proof {
            reveal_strlit("3");
        }
        "3"
    } else if n == 4 {
        proof {
            reveal_strlit("4");
        }
        "4"
    } else if n == 5 {
        proof {
            reveal_strlit("5");
        }
        "5"
    } else if n == 6 {
        proof {
            reveal_strlit("6");
        }
        "6"
    } else if n == 7 {
        proof {
            reveal_strlit("7");
        }
        "7"
    } else if n == 8 {
        proof {
            reveal_strlit("8");
        }
        "8"
    } else if n == 9 {
        proof {
            reveal_strlit("9");
        }
        "9"
    } else if n == 10 {
        proof {
            reveal_strlit("a");
        }
        "a"
    } else if n == 11 {
        proof {
            reveal_strlit("b");
        }
        "b"
    } else if n == 12 {
        proof {
            reveal_strlit("c");
        }
        "c"
    } else if n == 13 {
        proof {
            reveal_strlit("d");
        }
        "d"
    } else if n == 14 {
        proof {
            reveal_strlit("e");
        }
        "e"
    } else {
        proof {
            reveal_strlit("f");
        }
        "f"
    }
}

/// A hash written in lowercase hexadecimal.
pub fn hash_to_string(hash: &Vec<u8>) -> (r: String)
    ensures
        r@ == hex_text(hash@),
{
    let mut s = String::from_str("");
    proof {
        reveal_strlit("");
    }
    let mut i: usize = 0;
    while i < hash.len()
        invariant
            i <= hash@.len(),
            s@ == hex_text(hash@.take(i as int)),
        decreases hash@.len() - i,
    {
        let b = hash[i];
        s.append(hex_digit(b / 16));
        s.append(hex_digit(b % 16));
        assert(hash@.take(i + 1).drop_last() =~= hash@.take(i as int));
        i = i + 1;
        assert(s@ =~= hex_text(hash@.take(i as int)));
    }
    assert(hash@.take(i as int) =~= hash@);
    s
}

} // verus!
