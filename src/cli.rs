//! Checking the port given on the command line.
use vstd::prelude::*;
use vstd::string::StringSliceAdditionalSpecFns;

verus! {

/// The number that decimal digits denote.
pub open spec fn decimal_value(b: Seq<u8>) -> nat
    decreases b.len(),
{
    if b.len() == 0 {
        0
    } else {
        decimal_value(b.drop_last()) * 10 + (b.last() - 48) as nat
    }
}

/// Every byte is an ASCII decimal digit.
pub open spec fn all_digits(b: Seq<u8>) -> bool {
    forall|i: int| 0 <= i < b.len() ==> 48 <= #[trigger] b[i] <= 57
}

/// Why a port was refused.
#[derive(Clone, Copy, Debug, PartialEq, Eq, Structural)]
pub enum PortError {
    /// The text is not a decimal number.
    NotANumber,
    /// The number is not above 1024 or does not fit in 16 bits.
    OutOfRange,
}

/// What checking a port text gives: the port, when the text is decimal digits that
/// denote a number above 1024 and at most 65535.
pub open spec fn port_of(b: Seq<u8>) -> Result<u16, PortError> {
    if b.len() == 0 || !all_digits(b) {
        Err(PortError::NotANumber)
    } else if decimal_value(b) <= 1024 || decimal_value(b) > 65535 {
        Err(PortError::OutOfRange)
    } else {
        Ok(decimal_value(b) as u16)
    }
}

proof fn lemma_decimal_grows(b: Seq<u8>, i: int)
    requires
        all_digits(b),
        0 <= i <= b.len(),
    ensures
        decimal_value(b.take(i)) <= decimal_value(b),
    decreases b.len() - i,
{
    if i < b.len() {
        lemma_decimal_grows(b, i + 1);
        assert(b.take(i + 1).drop_last() =~= b.take(i));
        assert(decimal_value(b.take(i)) <= decimal_value(b.take(i)) * 10);
    } else {
        assert(b.take(i) =~= b);
    }
}

/// Checks a port given as text: decimal digits denoting a number above 1024.
pub fn is_port(value: &str) -> (r: Result<u16, PortError>)
    ensures
        r == port_of(value.spec_bytes()),
{
    let b = value.as_bytes();
    let ghost s = value.spec_bytes();
    if b.len() == 0 {
        return Err(PortError::NotANumber);
    }
    let mut i: usize = 0;
    while i < b.len()
        invariant
            s == value.spec_bytes(),
            b@ == s,
            i <= s.len(),
            forall|j: int| 0 <= j < i ==> 48 <= #[trigger] s[j] <= 57,
        decreases s.len() - i,
    {
        if b[i] < 48 || b[i] > 57 {
            assert(!(48 <= s[i as int] <= 57));
            assert(!all_digits(s));
            assert(port_of(s) == Err::<u16, PortError>(PortError::NotANumber));
            return Err(PortError::NotANumber);
        }
        i = i + 1;
    }
    let mut acc: u32 = 0;
    let mut k: usize = 0;
    while k < b.len()
        invariant
            s == value.spec_bytes(),
            b@ == s,
            all_digits(s),
            k <= s.len(),
            acc == decimal_value(s.take(k as int)),
            acc <= 65535,
        decreases s.len() - k,
    {
        let next = acc * 10 + (b[k] - 48) as u32;
        assert(s.take(k + 1).drop_last() =~= s.take(k as int));
        assert(decimal_value(s.take(k + 1)) == next);
        if next > 65535 {
            proof {
                lemma_decimal_grows(s, k + 1);
            }
            assert(decimal_value(s) > 65535);
            assert(port_of(s) == Err::<u16, PortError>(PortError::OutOfRange));
            return Err(PortError::OutOfRange);
        }
        acc = next;
        k = k + 1;
    }
    assert(s.take(k as int) =~= s);
    if acc <= 1024 {
        return Err(PortError::OutOfRange);
    }
    Ok(acc as u16)
}

} // verus!
