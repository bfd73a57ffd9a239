use ensicoin::hash::{double_hash, hash, hash_to_string};
use ensicoin::merkle::compute_merkle_root;

#[test]
fn sha256_of_abc() {
    let h = hash(b"abc".to_vec());
    assert_eq!(
        hash_to_string(&h),
        "ba7816bf8f01cfea414140de5dae2223b00361a396177a9cb410ff61f20015ad"
    );
}

#[test]
fn double_hash_is_hash_of_hash() {
    let d = double_hash(&b"abc".to_vec());
    assert_eq!(d, hash(hash(b"abc".to_vec())));
    assert_ne!(d, hash(b"abc".to_vec()));
}

#[test]
fn hex_of_bytes() {
    assert_eq!(hash_to_string(&vec![0x00, 0x0f, 0xa0, 0xff]), "000fa0ff");
    assert_eq!(hash_to_string(&vec![]), "");
}

#[test]
fn merkle_root_of_nothing_is_zero() {
    assert_eq!(compute_merkle_root(vec![]), vec![0u8; 32]);
}

#[test]
fn merkle_root_of_one_hash_pairs_it_with_itself() {
    let h = hash(b"one".to_vec());
    assert_eq!(compute_merkle_root(vec![h.clone()]), compute_merkle_root(vec![h.clone(), h.clone()]));
    let mut both = h.clone();
    both.extend_from_slice(&h);
    assert_eq!(compute_merkle_root(vec![h.clone()]), double_hash(&both));
}

#[test]
fn merkle_root_of_three_repeats_the_last() {
    let a = hash(b"a".to_vec());
    let b = hash(b"b".to_vec());
    let c = hash(b"c".to_vec());
    let pair = |x: &Vec<u8>, y: &Vec<u8>| {
        let mut v = x.clone();
        v.extend_from_slice(y);
        double_hash(&v)
    };
    let expected = pair(&pair(&a, &b), &pair(&c, &c));
    assert_eq!(compute_merkle_root(vec![a.clone(), b.clone(), c.clone()]), expected);
    assert_ne!(compute_merkle_root(vec![b, a, c]), expected);
}
