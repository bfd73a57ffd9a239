use ensicoin::block::Block;
use ensicoin::codec::VarStr;
use ensicoin::error::Error;
use ensicoin::hash::double_hash;
use ensicoin::merkle::compute_merkle_root;
use ensicoin::transaction::{Outpoint, Transaction, TxIn, TxOut, TxTxo};
use ensicoin::utxo::{decode_utxos, encode_utxos};

fn out(value: u64) -> TxOut {
    TxOut { value, script: VarStr::from_string("lock".to_string()) }
}

fn input(byte: u8, index: u32) -> TxIn {
    TxIn {
        previous_output: Outpoint { hash: vec![byte; 32], index },
        script: VarStr::from_string("unlock".to_string()),
    }
}

fn sample_tx() -> Transaction {
    Transaction {
        version: 1,
        flags: vec![VarStr::from_string("f".to_string())],
        inputs: vec![input(1, 0), input(2, 3)],
        outputs: vec![out(5), out(300)],
    }
}

fn same_tx(a: &Transaction, b: &Transaction) -> bool {
    a.send() == b.send()
        && a.version == b.version
        && a.flags.len() == b.flags.len()
        && a.inputs.len() == b.inputs.len()
        && a.outputs.len() == b.outputs.len()
        && a.inputs.iter().zip(b.inputs.iter()).all(|(x, y)| {
            x.previous_output.hash == y.previous_output.hash
                && x.previous_output.index == y.previous_output.index
                && x.script.val() == y.script.val()
        })
        && a.outputs.iter().zip(b.outputs.iter()).all(|(x, y)| x.value == y.value && x.script.val() == y.script.val())
}

#[test]
fn outpoint_encoding() {
    let o = Outpoint { hash: vec![9u8; 32], index: 0x0102_0304 };
    let bytes = o.send();
    assert_eq!(bytes.len(), 36);
    assert_eq!(&bytes[32..], &[1, 2, 3, 4]);
    let back = Outpoint::read(&bytes).unwrap();
    assert_eq!(back.index, 0x0102_0304);
    assert_eq!(back.hash, vec![9u8; 32]);
}

#[test]
fn tx_out_encoding() {
    let bytes = out(258).send();
    assert_eq!(&bytes[0..8], &[0, 0, 0, 0, 0, 0, 1, 2]);
    assert_eq!(&bytes[8..], &[4, b'l', b'o', b'c', b'k']);
    let back = TxOut::read(&bytes).unwrap();
    assert_eq!(back.value, 258);
}

#[test]
fn tx_in_round_trip() {
    let i = input(3, 7);
    let back = TxIn::read(&i.send()).unwrap();
    assert_eq!(back.previous_output.hash, vec![3u8; 32]);
    assert_eq!(back.previous_output.index, 7);
    assert_eq!(back.script.val(), "unlock");
}

#[test]
fn transaction_round_trip() {
    let t = sample_tx();
    let bytes = t.send();
    let back = Transaction::read(&bytes).unwrap();
    assert!(same_tx(&t, &back));
    assert_eq!(back.hash(), t.hash());
}

#[test]
fn transaction_encoding_layout() {
    let t = Transaction { version: 2, flags: vec![], inputs: vec![], outputs: vec![out(1)] };
    let bytes = t.send();
    assert_eq!(&bytes[0..7], &[0, 0, 0, 2, 0, 0, 1]);
    assert_eq!(bytes.len(), 7 + 8 + 5);
}

#[test]
fn transaction_hash_is_double_sha_of_encoding() {
    let t = sample_tx();
    assert_eq!(t.hash(), double_hash(&t.send()));
    let mut u = sample_tx();
    u.version = 2;
    assert_ne!(u.hash(), t.hash());
}

#[test]
fn truncated_transaction_is_refused() {
    let bytes = sample_tx().send();
    let short = bytes[..bytes.len() - 1].to_vec();
    assert_eq!(Transaction::read(&short).unwrap_err(), Error::Truncated);
}

#[test]
fn sanity_of_transactions() {
    assert!(sample_tx().is_sane());
    let empty = Transaction { version: 0, flags: vec![], inputs: vec![], outputs: vec![] };
    assert!(!empty.is_sane());
    let zero = Transaction { version: 0, flags: vec![], inputs: vec![input(1, 0)], outputs: vec![out(1), out(0)] };
    assert!(!zero.is_sane());
    let only_input = Transaction { version: 0, flags: vec![], inputs: vec![input(1, 0)], outputs: vec![] };
    assert!(only_input.is_sane());
}

#[test]
fn validity_needs_strictly_more_value_in() {
    let t = sample_tx();
    assert!(TxTxo::new(&t, vec![out(306)]).is_valid());
    assert!(!TxTxo::new(&t, vec![out(305)]).is_valid());
    assert!(!TxTxo::new(&t, vec![out(300), out(4)]).is_valid());
    assert!(TxTxo::new(&t, vec![out(300), out(6)]).is_valid());
    assert!(TxTxo::new(&t, vec![out(u64::MAX), out(u64::MAX)]).is_valid());
}

fn block_with(timestamp: u64) -> Block {
    let mut b = Block::new(&Block::genesis_block(), timestamp);
    b.transactions = vec![sample_tx()];
    b.merkle_root = compute_merkle_root(vec![sample_tx().hash()]);
    b
}

#[test]
fn genesis_block_is_fixed() {
    let a = Block::genesis_block();
    let b = Block::genesis_block();
    assert_eq!(a.height, 0);
    assert_eq!(a.previous_hash, vec![0u8; 32]);
    assert_eq!(a.timestamp, 1_558_540_052);
    assert_eq!(a.nonce, 42);
    assert_eq!(a.flags[0].val(), "ici cest limag");
    assert!(a.transactions.is_empty());
    assert_eq!(a.hash(), b.hash());
    assert_eq!(a.hash().len(), 32);
}

#[test]
fn new_block_links_to_latest() {
    let g = Block::genesis_block();
    let b = Block::new(&g, 1_600_000_000);
    assert_eq!(b.previous_hash, g.hash());
    assert_eq!(b.height, 1);
    assert_eq!(b.timestamp, 1_600_000_000);
    let c = Block::new(&b, 1_600_000_600);
    assert_eq!(c.height, 2);
    assert_eq!(c.previous_hash, b.hash());
}

#[test]
fn block_round_trip_keeps_hash() {
    let b = block_with(1_600_000_000);
    let back = Block::read(&b.send()).unwrap();
    assert_eq!(back.hash(), b.hash());
    assert_eq!(back.transactions.len(), 1);
    assert_eq!(back.height, b.height);
    let g = Block::genesis_block();
    assert_eq!(Block::read(&g.send()).unwrap().hash(), g.hash());
}

#[test]
fn block_hash_covers_transaction_hashes() {
    let b = block_with(1_600_000_000);
    let mut bytes = b.send_header();
    bytes.extend_from_slice(&sample_tx().hash());
    assert_eq!(b.hash(), double_hash(&bytes));
    assert_eq!(b.send(), [b.send_header(), b.send_tx()].concat());
}

#[test]
fn block_timestamp_boundary() {
    let now = 1_700_000_000u64;
    assert!(!block_with(now + 7201).is_sane(now));
    assert!(block_with(now + 7199).is_sane(now));
    assert!(block_with(now + 7200).is_sane(now));
}

#[test]
fn block_without_transactions_or_right_root_is_not_sane() {
    let now = 1_700_000_000u64;
    let mut b = block_with(now);
    b.merkle_root = vec![1u8; 32];
    assert!(!b.is_sane(now));
    let g = Block::genesis_block();
    assert!(!g.is_sane(now));
}

#[test]
fn block_validity_checks_all_but_first_transaction() {
    let now = 1_700_000_000u64;
    let mut b = block_with(now);
    b.transactions = vec![sample_tx(), sample_tx()];
    b.merkle_root = compute_merkle_root(vec![sample_tx().hash(), sample_tx().hash()]);
    assert!(b.is_valid(now, &vec![vec![], vec![out(1000)]]));
    assert!(!b.is_valid(now, &vec![vec![], vec![out(10)]]));
    assert!(!b.is_valid(now, &vec![vec![]]));
}

#[test]
fn utxos_round_trip() {
    let outs = vec![out(1), out(2), out(3)];
    let bytes = encode_utxos(&outs);
    let back = decode_utxos(&bytes).unwrap();
    assert_eq!(back.iter().map(|o| o.value).collect::<Vec<_>>(), vec![1, 2, 3]);
    assert!(decode_utxos(&vec![]).unwrap().is_empty());
    assert_eq!(decode_utxos(&bytes[..bytes.len() - 2].to_vec()).unwrap_err(), Error::Truncated);
}
