use ensicoin::codec::{VarStr, VarUint};
use ensicoin::error::Error;
use ensicoin::types::{Address, InvVect};

fn encode(v: u64) -> Vec<u8> {
    VarUint::from_u64(v).send()
}

#[test]
fn varuint_small_values_take_one_byte() {
    assert_eq!(encode(0), vec![0]);
    assert_eq!(encode(0xFC), vec![0xFC]);
    assert_eq!(VarUint::from_u64(0xFC).size(), 1);
}

#[test]
fn varuint_prefixes_select_body_sizes() {
    assert_eq!(encode(0xFD), vec![0xFD, 0x00, 0xFD]);
    assert_eq!(encode(0xFFFF), vec![0xFD, 0xFF, 0xFF]);
    assert_eq!(encode(0x1_0000), vec![0xFE, 0x00, 0x01, 0x00, 0x00]);
    assert_eq!(encode(0xFFFF_FFFF), vec![0xFE, 0xFF, 0xFF, 0xFF, 0xFF]);
    assert_eq!(
        encode(0x1_0000_0000),
        vec![0xFF, 0, 0, 0, 1, 0, 0, 0, 0]
    );
    assert_eq!(VarUint::from_u64(0xFFFF).size(), 3);
    assert_eq!(VarUint::from_u64(0xFFFF_FFFF).size(), 5);
    assert_eq!(VarUint::from_u64(u64::MAX).size(), 9);
}

#[test]
fn varuint_decodes_what_it_encodes() {
    for v in [0u64, 1, 0xFC, 0xFD, 0x1234, 0xFFFF, 0x10000, 0xFFFF_FFFF, 0x1_0000_0000, u64::MAX] {
        let bytes = encode(v);
        let (x, n) = VarUint::decode(&bytes).unwrap();
        assert_eq!(x.value, v);
        assert_eq!(n, bytes.len());
    }
}

#[test]
fn varuint_decode_encode_decode_is_stable() {
    let b = vec![0xFE, 0x00, 0x02, 0x00, 0x00, 0x99];
    let (x, n) = VarUint::decode(&b).unwrap();
    assert_eq!((x.value, n), (0x20000, 5));
    let again = VarUint::decode(&VarUint::from_u64(x.value).send()).unwrap();
    assert_eq!((again.0.value, again.1), (x.value, n));
}

#[test]
fn varuint_refuses_non_canonical_and_short_input() {
    assert_eq!(VarUint::decode(&vec![0xFD, 0x00, 0x10]).unwrap_err(), Error::Decode);
    assert_eq!(VarUint::decode(&vec![0xFE, 0x00, 0x00, 0xFF, 0xFF]).unwrap_err(), Error::Decode);
    assert_eq!(VarUint::decode(&vec![0xFD, 0x01]).unwrap_err(), Error::Truncated);
    assert_eq!(VarUint::decode(&vec![]).unwrap_err(), Error::Truncated);
}

#[test]
fn varstr_round_trip() {
    let s = VarStr::from_string("node".to_string());
    let bytes = s.send();
    assert_eq!(bytes, vec![4, b'n', b'o', b'd', b'e']);
    let (back, n) = VarStr::new(&bytes).unwrap();
    assert_eq!(back.val(), "node");
    assert_eq!(n, 5);
}

#[test]
fn varstr_refuses_bad_utf8_and_short_text() {
    assert_eq!(VarStr::new(&vec![2, 0xC3, 0x28]).unwrap_err(), Error::Decode);
    assert_eq!(VarStr::new(&vec![3, b'a']).unwrap_err(), Error::Truncated);
}

#[test]
fn address_takes_26_bytes() {
    let mut ip = vec![0u8; 10];
    ip.extend_from_slice(&[0xFF, 0xFF, 46, 193, 66, 26]);
    let a = Address::new(0x0102, ip.clone(), 4224);
    let bytes = a.send();
    assert_eq!(bytes.len(), 26);
    assert_eq!(&bytes[0..8], &[0, 0, 0, 0, 0, 0, 1, 2]);
    assert_eq!(&bytes[8..24], &ip[..]);
    assert_eq!(&bytes[24..26], &[0x10, 0x80]);
    let back = Address::read(&bytes).unwrap();
    assert_eq!(back.timestamp, 0x0102);
    assert_eq!(back.ip, ip);
    assert_eq!(back.port, 4224);
    assert_eq!(Address::read(&bytes[..25].to_vec()).unwrap_err(), Error::Truncated);
}

#[test]
fn inv_vect_takes_36_bytes() {
    let v = InvVect::from_vec(vec![7u8; 32], 1);
    let bytes = v.send();
    assert_eq!(&bytes[0..4], &[0, 0, 0, 1]);
    assert_eq!(bytes.len(), 36);
    let back = InvVect::read(&bytes).unwrap();
    assert_eq!(back.hash_type, 1);
    assert_eq!(back.hash, vec![7u8; 32]);
}
