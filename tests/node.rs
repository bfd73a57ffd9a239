use ensicoin::codec::VarStr;
use ensicoin::error::Error;
use ensicoin::locator::LocatorWalk;
use ensicoin::mempool::Mempool;
use ensicoin::message::{check_header, prepare_header, GetBlocks, Inv, Message, MessageType, WhoAmI};
use ensicoin::block::Block;
use ensicoin::peer::{Action, Peer, State};
use ensicoin::transaction::{Outpoint, Transaction, TxIn, TxOut};
use ensicoin::types::Address;

fn addr() -> Address {
    Address::new(1_600_000_000, vec![0u8; 16], 4224)
}

fn out(value: u64) -> TxOut {
    TxOut { value, script: VarStr::from_string("lock".to_string()) }
}

fn spending_tx(prev: u8) -> Transaction {
    Transaction {
        version: 0,
        flags: vec![],
        inputs: vec![TxIn {
            previous_output: Outpoint { hash: vec![prev; 32], index: 0 },
            script: VarStr::from_string("sig".to_string()),
        }],
        outputs: vec![out(5)],
    }
}

#[test]
fn header_layout() {
    let h = prepare_header(MessageType::WhoAmIAck, 0x0102);
    assert_eq!(&h[0..4], &[0x00, 0x06, 0x70, 0x85]);
    assert_eq!(&h[4..16], b"whoamiack\0\0\0");
    assert_eq!(&h[16..24], &[0, 0, 0, 0, 0, 0, 1, 2]);
    assert_eq!(check_header(&h).unwrap(), (MessageType::WhoAmIAck, 0x0102));
}

#[test]
fn header_with_bad_magic_or_unknown_tag() {
    let mut h = prepare_header(MessageType::Inv, 0);
    h[0] = 1;
    assert_eq!(check_header(&h).unwrap_err(), Error::Framing);
    let mut h = prepare_header(MessageType::Inv, 0);
    h[4] = b'x';
    assert_eq!(check_header(&h).unwrap(), (MessageType::Unknown, 0));
    assert_eq!(check_header(&vec![0u8; 10]).unwrap_err(), Error::Truncated);
}

#[test]
fn message_names_are_padded_tags() {
    assert_eq!(Message::WhoAmIAck.name(), "whoamiack\u{0}\u{0}\u{0}");
    assert_eq!(Message::MinusOne.name(), "minus1thats3");
    assert_eq!(Message::TwoPlusTwo.name().len(), 12);
    let frame = Message::TwoPlusTwo.frame();
    assert_eq!(frame.len(), 24);
    assert_eq!(&frame[4..16], b"2plus2is4\0\0\0");
}

#[test]
fn whoami_round_trip() {
    let w = WhoAmI::new(7, addr());
    let bytes = w.send();
    assert_eq!(bytes.len(), 4 + 26 + 1 + 5);
    let back = WhoAmI::read(&bytes).unwrap();
    assert_eq!(back.version, 7);
    assert_eq!(back.service_count.value, 1);
    assert_eq!(back.services.val(), "node");
}

#[test]
fn inv_and_getblocks_round_trip() {
    let inv = Inv::from_vec(vec![(vec![1u8; 32], 0), (vec![2u8; 32], 1)]);
    let back = Inv::read(&inv.send()).unwrap();
    assert_eq!(back.inventory.len(), 2);
    assert_eq!(back.inventory[1].hash_type, 1);
    let g = GetBlocks::from_hashes(vec![vec![3u8; 32]], vec![0u8; 32]);
    let bytes = g.send();
    assert_eq!(bytes.len(), 1 + 32 + 32);
    let back = GetBlocks::read(&bytes).unwrap();
    assert_eq!(back.block_locator, vec![vec![3u8; 32]]);
    assert_eq!(back.hash_stop, vec![0u8; 32]);
}

#[test]
fn handshake_answers_whoami() {
    let mut p = Peer::new(false, 1, addr());
    let payload = WhoAmI::new(1, addr()).send();
    let actions = p.handle(MessageType::WhoAmI, &payload).unwrap();
    assert_eq!(p.state, State::WhoAmI);
    assert_eq!(p.connection_version, 1);
    assert_eq!(actions.len(), 2);
    assert!(matches!(&actions[0], Action::Send(Message::WhoAmI(_))));
    assert!(matches!(&actions[1], Action::Send(Message::WhoAmIAck)));
}

#[test]
fn handshake_initiator_only_acknowledges_and_negotiates_down() {
    let mut p = Peer::new(true, 5, addr());
    let first = p.connect();
    assert_eq!(first.len(), 1);
    assert!(matches!(&first[0], Action::Send(Message::WhoAmI(w)) if w.version == 5));
    let actions = p.handle(MessageType::WhoAmI, &WhoAmI::new(3, addr()).send()).unwrap();
    assert_eq!(actions.len(), 1);
    assert!(matches!(&actions[0], Action::Send(Message::WhoAmIAck)));
    assert_eq!(p.connection_version, 3);
}

#[test]
fn handshake_completes_and_asks_for_blocks() {
    let mut p = Peer::new(false, 1, addr());
    p.handle(MessageType::WhoAmI, &WhoAmI::new(1, addr()).send()).unwrap();
    let actions = p.handle(MessageType::WhoAmIAck, &vec![]).unwrap();
    assert_eq!(p.state, State::Acknowledged);
    assert_eq!(actions.len(), 2);
    assert!(matches!(&actions[0], Action::Register));
    match &actions[1] {
        Action::Send(Message::GetBlocks(g)) => {
            assert_eq!(g.block_locator, vec![Block::genesis_block().hash()]);
            assert_eq!(g.hash_stop, vec![0u8; 32]);
        },
        _ => panic!("expected a getblocks request"),
    }
}

#[test]
fn whoamiack_before_whoami_closes() {
    let mut p = Peer::new(false, 1, addr());
    assert_eq!(p.handle(MessageType::WhoAmIAck, &vec![]).unwrap_err(), Error::ProtocolViolation);
    assert_eq!(p.state, State::Tcp);
}

#[test]
fn second_whoami_or_unknown_message_closes() {
    let mut p = Peer::new(false, 1, addr());
    let payload = WhoAmI::new(1, addr()).send();
    p.handle(MessageType::WhoAmI, &payload).unwrap();
    assert_eq!(p.handle(MessageType::WhoAmI, &payload).unwrap_err(), Error::ProtocolViolation);
    assert_eq!(p.state, State::WhoAmI);
    p.handle(MessageType::WhoAmIAck, &vec![]).unwrap();
    assert_eq!(p.handle(MessageType::Unknown, &vec![]).unwrap_err(), Error::ProtocolViolation);
    assert_eq!(p.handle(MessageType::WhoAmI, &payload).unwrap_err(), Error::ProtocolViolation);
    assert_eq!(p.state, State::Acknowledged);
}

#[test]
fn bad_whoami_payload_is_a_decode_error() {
    let mut p = Peer::new(false, 1, addr());
    assert_eq!(p.handle(MessageType::WhoAmI, &vec![0, 0, 0, 1]).unwrap_err(), Error::Truncated);
    assert_eq!(p.state, State::Tcp);
}

fn acknowledged() -> Peer {
    let mut p = Peer::new(true, 1, addr());
    p.handle(MessageType::WhoAmI, &WhoAmI::new(1, addr()).send()).unwrap();
    p.handle(MessageType::WhoAmIAck, &vec![]).unwrap();
    p
}

#[test]
fn inventory_is_split_into_transactions_and_blocks() {
    let mut p = acknowledged();
    let inv = Inv::from_vec(vec![(vec![1u8; 32], 0), (vec![2u8; 32], 1), (vec![3u8; 32], 0)]);
    let actions = p.handle(MessageType::Inv, &inv.send()).unwrap();
    assert_eq!(actions.len(), 2);
    match (&actions[0], &actions[1]) {
        (Action::CheckTxs(t), Action::CheckBlocks(b)) => {
            assert_eq!(t, &vec![vec![1u8; 32], vec![3u8; 32]]);
            assert_eq!(b, &vec![vec![2u8; 32]]);
        },
        _ => panic!("expected transaction then block checks"),
    }
    let only_blocks = Inv::from_vec(vec![(vec![2u8; 32], 2)]);
    let actions = p.handle(MessageType::Inv, &only_blocks.send()).unwrap();
    assert_eq!(actions.len(), 1);
    assert!(matches!(&actions[0], Action::CheckBlocks(_)));
}

#[test]
fn steady_state_messages() {
    let mut p = acknowledged();
    let a = p.handle(MessageType::TwoPlusTwo, &vec![]).unwrap();
    assert!(matches!(&a[0], Action::Send(Message::MinusOne)));
    let a = p.handle(MessageType::GetData, &Inv::from_vec(vec![]).send()).unwrap();
    assert!(a.is_empty());
    let a = p.handle(MessageType::Transaction, &spending_tx(1).send()).unwrap();
    assert!(matches!(&a[0], Action::AddTx(t) if t.hash() == spending_tx(1).hash()));
    let g = GetBlocks::from_hashes(vec![vec![4u8; 32]], vec![0u8; 32]);
    let a = p.handle(MessageType::GetBlocks, &g.send()).unwrap();
    assert!(matches!(&a[0], Action::GetBlocks(r) if r.block_locator == vec![vec![4u8; 32]]));
    let b = Block::genesis_block();
    let a = p.handle(MessageType::Block, &b.send()).unwrap();
    assert!(matches!(&a[0], Action::AddBlock(x) if x.hash() == b.hash()));
}

#[test]
fn mempool_accepts_a_fully_funded_transaction() {
    let mut m = Mempool::new();
    let tx = spending_tx(1);
    assert_eq!(m.add_tx(&tx, &vec![vec![out(10)]]), Ok(()));
    assert!(m.txs.contains_key(&tx.hash()));
    assert!(!m.orphans.contains_key(&tx.hash()));
    assert!(m.contains_tx(tx.hash()));
    assert!(m.orphans_outpoints.contains_key(&vec![1u8; 32]));
}

#[test]
fn mempool_keeps_an_unfunded_transaction_as_orphan() {
    let mut m = Mempool::new();
    let tx = spending_tx(2);
    assert_eq!(m.add_tx(&tx, &vec![vec![]]), Err(Error::TxNotValid));
    assert!(m.orphans.contains_key(&tx.hash()));
    assert!(!m.txs.contains_key(&tx.hash()));
    assert!(m.contains_tx(tx.hash()));
}

#[test]
fn mempool_refuses_a_transaction_without_fee() {
    let mut m = Mempool::new();
    let tx = spending_tx(3);
    assert_eq!(m.add_tx(&tx, &vec![vec![out(5)]]), Err(Error::TxNotValid));
    assert!(!m.txs.contains_key(&tx.hash()));
}

#[test]
fn mempool_spending_a_pending_transaction_is_no_orphan() {
    let mut m = Mempool::new();
    let parent = spending_tx(4);
    m.add_tx(&parent, &vec![vec![out(10)]]).unwrap();
    let mut child = spending_tx(5);
    child.inputs[0].previous_output.hash = parent.hash();
    child.outputs = vec![out(1)];
    assert_eq!(m.add_tx(&child, &vec![vec![]]), Err(Error::TxNotValid));
    assert!(!m.orphans.contains_key(&child.hash()));
    assert!(!m.orphans_outpoints.contains_key(&parent.hash()));
}

#[test]
fn mempool_lists_unknown_hashes() {
    let mut m = Mempool::new();
    let tx = spending_tx(6);
    m.add_tx(&tx, &vec![vec![out(10)]]).unwrap();
    let unknown = m.unknown_txs(&vec![tx.hash(), vec![9u8; 32]]);
    assert_eq!(unknown, vec![vec![9u8; 32]]);
}

#[test]
fn locator_walk_follows_the_chain_to_the_stop_hash() {
    let request = GetBlocks::from_hashes(vec![vec![1u8; 32], vec![2u8; 32]], vec![5u8; 32]);
    let mut w = LocatorWalk::start(&request, &vec![false, true]).unwrap();
    assert_eq!(w.current, vec![2u8; 32]);
    w.step(Some(vec![3u8; 32]));
    assert!(!w.done);
    w.step(Some(vec![5u8; 32]));
    assert!(w.done);
    assert_eq!(w.hashes(), vec![(vec![3u8; 32], 1), (vec![5u8; 32], 1)]);
}

#[test]
fn locator_walk_ends_with_the_chain_or_finds_nothing() {
    let request = GetBlocks::from_hashes(vec![vec![1u8; 32]], vec![0u8; 32]);
    assert!(LocatorWalk::start(&request, &vec![false]).is_none());
    let mut w = LocatorWalk::start(&request, &vec![true]).unwrap();
    w.step(None);
    assert!(w.done);
    assert!(w.hashes().is_empty());
}
