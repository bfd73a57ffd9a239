//! The per-connection protocol: the handshake, then the handling of each message.
//!
//! A connection is a state machine. The code that owns the socket reads a frame, hands
//! its kind and payload to [`Peer::handle`], and carries out the actions it returns:
//! sending messages, or passing requests on to the node.
use vstd::prelude::*;
use crate::block::{block_hash, genesis, Block, SpecBlock};
use crate::codec::{copy_bytes, views, zeros, Duplicate, Wire};
use crate::error::Error;
use crate::message::{GetBlocks, Inv, Message, MessageType, SpecGetBlocks, SpecWhoAmI, WhoAmI, message_kind, payload_wire};
use crate::transaction::{SpecTransaction, Transaction};
use crate::types::{Address, SpecAddress, SpecInvVect};

verus! {

/// The handshake state of a connection. It only moves forward.
#[derive(Clone, Copy, Debug, PartialEq, Eq, Structural)]
pub enum State {
    /// Connected; no `whoami` received yet.
    Tcp,
    /// The peer's `whoami` was received and answered; waiting for its `whoamiack`.
    WhoAmI,
    /// The handshake is complete.
    Acknowledged,
}

/// What a connection means.
pub struct SpecPeer {
    pub state: State,
    pub connection_version: u32,
    pub initiated_by_us: bool,
    pub local_address: SpecAddress,
}

/// The protocol state of one connection.
pub struct Peer {
    pub state: State,
    /// Our protocol version until the handshake, then the version both sides speak.
    pub connection_version: u32,
    pub initiated_by_us: bool,
    /// The address we announce in our `whoami`.
    pub local_address: Address,
}

impl View for Peer {
    type V = SpecPeer;

    open spec fn view(&self) -> SpecPeer {
        SpecPeer {
            state: self.state,
            connection_version: self.connection_version,
            initiated_by_us: self.initiated_by_us,
            local_address: self.local_address@,
        }
    }
}

/// What a connection asks of the code around it.
#[derive(Debug)]
pub enum Action {
    /// Send this message to the peer.
    Send(Message),
    /// The handshake is complete: register the peer with the node.
    Register,
    /// Ask the node which of these transactions it lacks.
    CheckTxs(Vec<Vec<u8>>),
    /// Ask the node which of these blocks it lacks.
    CheckBlocks(Vec<Vec<u8>>),
    /// Ask the node for the block hashes that answer this request.
    GetBlocks(GetBlocks),
    /// Hand a received transaction to the node.
    AddTx(Transaction),
    /// Hand a received block to the node.
    AddBlock(Block),
}

/// What an action means; a message to send is its kind and payload bytes.
pub enum SpecAction {
    Send { kind: MessageType, payload: Seq<u8> },
    Register,
    CheckTxs(Seq<Seq<u8>>),
    CheckBlocks(Seq<Seq<u8>>),
    GetBlocks(SpecGetBlocks),
    AddTx(SpecTransaction),
    AddBlock(SpecBlock),
}

impl View for Action {
    type V = SpecAction;

    open spec fn view(&self) -> SpecAction {
        match self {
            Action::Send(m) => SpecAction::Send { kind: message_kind(*m), payload: payload_wire(*m) },
            Action::Register => SpecAction::Register,
            Action::CheckTxs(h) => SpecAction::CheckTxs(views(h@)),
            Action::CheckBlocks(h) => SpecAction::CheckBlocks(views(h@)),
            Action::GetBlocks(g) => SpecAction::GetBlocks(g@),
            Action::AddTx(t) => SpecAction::AddTx(t@),
            Action::AddBlock(b) => SpecAction::AddBlock(b@),
        }
    }
}

/// Sending a message of kind `kind` with payload `payload`.
pub open spec fn send_action(kind: MessageType, payload: Seq<u8>) -> SpecAction {
    SpecAction::Send { kind, payload }
}

/// Our `whoami`: our version and address, and the one service "node".
pub open spec fn our_whoami(p: SpecPeer) -> SpecWhoAmI {
    SpecWhoAmI {
        version: p.connection_version,
        from: p.local_address,
        service_count: 1,
        services: "node"@,
    }
}

/// The request that starts synchronisation: the blocks after the genesis block.
pub open spec fn sync_request() -> SpecGetBlocks {
    SpecGetBlocks {
        block_locator: seq![block_hash(genesis())],
        hash_stop: Seq::new(32, |i: int| 0u8),
    }
}

/// The hashes of the inventory items that are transactions (`txs`) or blocks (`!txs`).
pub open spec fn hashes_of(inv: Seq<SpecInvVect>, txs: bool) -> Seq<Seq<u8>>
    decreases inv.len(),
{
    if inv.len() == 0 {
        Seq::empty()
    } else {
        let prev = hashes_of(inv.drop_last(), txs);
        if (inv.last().hash_type == 0) == txs {
            prev.push(inv.last().hash)
        } else {
            prev
        }
    }
}

/// An announcement is split into transactions and blocks; each nonempty part is
/// passed on to the node.
pub open spec fn inv_actions(inv: Seq<SpecInvVect>) -> Seq<SpecAction> {
    let t = hashes_of(inv, true);
    let b = hashes_of(inv, false);
    (if t.len() > 0 {
        seq![SpecAction::CheckTxs(t)]
    } else {
        Seq::empty()
    }) + (if b.len() > 0 {
        seq![SpecAction::CheckBlocks(b)]
    } else {
        Seq::empty()
    })
}

pub open spec fn min_u32(a: u32, b: u32) -> u32 {
    if a <= b {
        a
    } else {
        b
    }
}

/// What a connection in state `p` does on a message of kind `kind` with payload
/// `payload`: its next state and its actions, or the error that closes it.
pub open spec fn step(p: SpecPeer, kind: MessageType, payload: Seq<u8>) -> Result<
    (SpecPeer, Seq<SpecAction>),
    Error,
> {
    if p.state != State::Acknowledged {
        if kind == MessageType::WhoAmI && p.state == State::Tcp {
            match WhoAmI::parse(payload) {
                Err(e) => Err(e),
                Ok((w, _)) => Ok(
                    (
                        SpecPeer {
                            state: State::WhoAmI,
                            connection_version: min_u32(w.version, p.connection_version),
                            initiated_by_us: p.initiated_by_us,
                            local_address: p.local_address,
                        },
                        (if p.initiated_by_us {
                            Seq::empty()
                        } else {
                            seq![send_action(MessageType::WhoAmI, WhoAmI::wire(our_whoami(p)))]
                        }).push(send_action(MessageType::WhoAmIAck, Seq::empty())),
                    ),
                ),
            }
        } else if kind == MessageType::WhoAmIAck && p.state == State::WhoAmI {
            Ok(
                (
                    SpecPeer {
                        state: State::Acknowledged,
                        connection_version: p.connection_version,
                        initiated_by_us: p.initiated_by_us,
                        local_address: p.local_address,
                    },
                    seq![
                        SpecAction::Register,
                        send_action(MessageType::GetBlocks, GetBlocks::wire(sync_request())),
                    ],
                ),
            )
        } else {
            Err(Error::ProtocolViolation)
        }
    } else {
        match kind {
            MessageType::TwoPlusTwo => Ok((p, seq![send_action(MessageType::MinusOne, Seq::empty())])),
            MessageType::MinusOne => Ok((p, Seq::empty())),
            MessageType::Inv => match Inv::parse(payload) {
                Err(e) => Err(e),
                Ok((inv, _)) => Ok((p, inv_actions(inv))),
            },
            MessageType::GetData => match Inv::parse(payload) {
                Err(e) => Err(e),
                Ok(_) => Ok((p, Seq::empty())),
            },
            MessageType::GetBlocks => match GetBlocks::parse(payload) {
                Err(e) => Err(e),
                Ok((g, _)) => Ok((p, seq![SpecAction::GetBlocks(g)])),
            },
            MessageType::Transaction => match Transaction::parse(payload) {
                Err(e) => Err(e),
                Ok((t, _)) => Ok((p, seq![SpecAction::AddTx(t)])),
            },
            MessageType::Block => match Block::parse(payload) {
                Err(e) => Err(e),
                Ok((b, _)) => Ok((p, seq![SpecAction::AddBlock(b)])),
            },
            _ => Err(Error::ProtocolViolation),
        }
    }
}

/// What a connection we opened sends first: our `whoami`.
pub open spec fn connect_actions(p: SpecPeer) -> Seq<SpecAction> {
    if p.initiated_by_us {
        seq![send_action(MessageType::WhoAmI, WhoAmI::wire(our_whoami(p)))]
    } else {
        Seq::empty()
    }
}

/// The state that follows `s` in the handshake.
pub open spec fn next_state(s: State) -> State {
    match s {
        State::Tcp => State::WhoAmI,
        State::WhoAmI => State::Acknowledged,
        State::Acknowledged => State::Acknowledged,
    }
}

/// A message either leaves the handshake state as it is or moves it one state
/// forward; it never skips a state nor goes back.
pub proof fn lemma_state_moves_forward(p: SpecPeer, kind: MessageType, payload: Seq<u8>)
    requires
        step(p, kind, payload) is Ok,
    ensures
        step(p, kind, payload)->Ok_0.0.state == p.state || step(p, kind, payload)->Ok_0.0.state
            == next_state(p.state),
{
}

impl Peer {
    /// A fresh connection, before any handshake.
    pub fn new(initiated_by_us: bool, version: u32, local_address: Address) -> (r: Peer)
        ensures
            r@ == (SpecPeer {
                state: State::Tcp,
                connection_version: version,
                initiated_by_us,
                local_address: local_address@,
            }),
    {
        Peer { state: State::Tcp, connection_version: version, initiated_by_us, local_address }
    }

    fn our_whoami(&self) -> (r: Message)
        ensures
            message_kind(r) == MessageType::WhoAmI,
            payload_wire(r) == WhoAmI::wire(our_whoami(self@)),
    {
        let w = WhoAmI::new(self.connection_version, self.local_address.duplicate());
        proof {
            assert(w@ == our_whoami(self@));
        }
        Message::WhoAmI(w)
    }

    /// The actions that open a connection: our `whoami` when we opened it.
    pub fn connect(&self) -> (r: Vec<Action>)
        ensures
            views(r@) == connect_actions(self@),
    {
        let mut actions: Vec<Action> = Vec::new();
        if self.initiated_by_us {
            actions.push(Action::Send(self.our_whoami()));
        }
        assert(views(actions@) =~= connect_actions(self@));
        actions
    }

    /// Handles one received message of kind `kind`; on an error the connection must
    /// be closed and the state is left as it was.
    pub fn handle(&mut self, kind: MessageType, payload: &Vec<u8>) -> (r: Result<Vec<Action>, Error>)
        ensures
            match step(old(self)@, kind, payload@) {
                Ok((p, acts)) => {
                    &&& r is Ok
                    &&& final(self)@ == p
                    &&& views(r->Ok_0@) == acts
                },
                Err(e) => {
                    &&& r == Err::<Vec<Action>, Error>(e)
                    &&& final(self)@ == old(self)@
                },
            },
    {
        if self.state != State::Acknowledged {
            self.handle_handshake(kind, payload)
        } else {
            self.handle_message(kind, payload)
        }
    }

    fn handle_handshake(&mut self, kind: MessageType, payload: &Vec<u8>) -> (r: Result<
        Vec<Action>,
        Error,
    >)
        requires
            old(self).state != State::Acknowledged,
        ensures
            match step(old(self)@, kind, payload@) {
                Ok((p, acts)) => {
                    &&& r is Ok
                    &&& final(self)@ == p
                    &&& views(r->Ok_0@) == acts
                },
                Err(e) => {
                    &&& r == Err::<Vec<Action>, Error>(e)
                    &&& final(self)@ == old(self)@
                },
            },
    {
        if kind == MessageType::WhoAmI && self.state == State::Tcp {
            let w = match WhoAmI::read(payload) {
                Err(e) => return Err(e),
                Ok(w) => w,
            };
            let mut actions: Vec<Action> = Vec::new();
            if !self.initiated_by_us {
                actions.push(Action::Send(self.our_whoami()));
            }
            actions.push(Action::Send(Message::WhoAmIAck));
            let ghost before = self@;
            if w.version < self.connection_version {
                self.connection_version = w.version;
            }
            self.state = State::WhoAmI;
            assert(views(actions@) =~= (if before.initiated_by_us {
                Seq::empty()
            } else {
                seq![send_action(MessageType::WhoAmI, WhoAmI::wire(our_whoami(before)))]
            }).push(send_action(MessageType::WhoAmIAck, Seq::empty())));
            Ok(actions)
        } else if kind == MessageType::WhoAmIAck && self.state == State::WhoAmI {
            self.state = State::Acknowledged;
            let mut locator: Vec<Vec<u8>> = Vec::new();
            locator.push(Block::genesis_block().hash());
            let request = GetBlocks::from_hashes(locator, zeros(32));
            assert(request@.block_locator =~= sync_request().block_locator);
            assert(request@ == sync_request());
            let mut actions: Vec<Action> = Vec::new();
            actions.push(Action::Register);
            actions.push(Action::Send(Message::GetBlocks(request)));
            assert(views(actions@) =~= seq![
                SpecAction::Register,
                send_action(MessageType::GetBlocks, GetBlocks::wire(sync_request())),
            ]);
            Ok(actions)
        } else {
            Err(Error::ProtocolViolation)
        }
    }

    fn handle_message(&mut self, kind: MessageType, payload: &Vec<u8>) -> (r: Result<
        Vec<Action>,
        Error,
    >)
        requires
            old(self).state == State::Acknowledged,
        ensures
            match step(old(self)@, kind, payload@) {
                Ok((p, acts)) => {
                    &&& r is Ok
                    &&& final(self)@ == p
                    &&& views(r->Ok_0@) == acts
                },
                Err(e) => {
                    &&& r == Err::<Vec<Action>, Error>(e)
                    &&& final(self)@ == old(self)@
                },
            },
    {
        let mut actions: Vec<Action> = Vec::new();
        match kind {
            MessageType::TwoPlusTwo => {
                actions.push(Action::Send(Message::MinusOne));
                assert(views(actions@) =~= seq![send_action(MessageType::MinusOne, Seq::empty())]);
            },
            MessageType::MinusOne => {
                assert(views(actions@) =~= Seq::<SpecAction>::empty());
            },
            MessageType::Inv => {
                let inv = match Inv::read(payload) {
                    Err(e) => return Err(e),
                    Ok(inv) => inv,
                };
                actions = split_inventory(&inv);
            },
            MessageType::GetData => {
                match Inv::read(payload) {
                    Err(e) => return Err(e),
                    Ok(_) => {},
                }
                assert(views(actions@) =~= Seq::<SpecAction>::empty());
            },
            MessageType::GetBlocks => {
                let g = match GetBlocks::read(payload) {
                    Err(e) => return Err(e),
                    Ok(g) => g,
                };
                actions.push(Action::GetBlocks(g));
                assert(views(actions@) =~= seq![SpecAction::GetBlocks(g@)]);
            },
            MessageType::Transaction => {
                let t = match Transaction::read(payload) {
                    Err(e) => return Err(e),
                    Ok(t) => t,
                };
                actions.push(Action::AddTx(t));
                assert(views(actions@) =~= seq![SpecAction::AddTx(t@)]);
            },
            MessageType::Block => {
                let b = match Block::read(payload) {
                    Err(e) => return Err(e),
                    Ok(b) => b,
                };
                actions.push(Action::AddBlock(b));
                assert(views(actions@) =~= seq![SpecAction::AddBlock(b@)]);
            },
            _ => {
                return Err(Error::ProtocolViolation);
            },
        }
        Ok(actions)
    }
}

/// The actions for an announcement: its transactions, then its blocks, each when there are some.
fn split_inventory(inv: &Inv) -> (r: Vec<Action>)
    ensures
        views(r@) == inv_actions(inv@),
{
    let ghost items = inv@;
    let mut txs: Vec<Vec<u8>> = Vec::new();
    let mut blocks: Vec<Vec<u8>> = Vec::new();
    let mut i: usize = 0;
    while i < inv.inventory.len()
        invariant
            i <= inv.inventory@.len(),
            items == inv@,
            views(txs@) == hashes_of(items.take(i as int), true),
            views(blocks@) == hashes_of(items.take(i as int), false),
        decreases inv.inventory@.len() - i,
    {
        let item = &inv.inventory[i];
        assert(items.take(i + 1).drop_last() =~= items.take(i as int));
        assert(items[i as int] == item@);
        let h = copy_bytes(&item.hash);
        if item.hash_type == 0 {
            let ghost before = views(txs@);
            txs.push(h);
            assert(views(txs@) =~= before.push(h@));
        } else {
            let ghost before = views(blocks@);
            blocks.push(h);
            assert(views(blocks@) =~= before.push(h@));
        }
        i = i + 1;
    }
    assert(items.take(i as int) =~= items);
    let mut actions: Vec<Action> = Vec::new();
    let has_txs = txs.len() > 0;
    let has_blocks = blocks.len() > 0;
    let ghost t = views(txs@);
    let ghost b = views(blocks@);
    if has_txs {
        actions.push(Action::CheckTxs(txs));
    }
    if has_blocks {
        actions.push(Action::CheckBlocks(blocks));
    }
    assert(views(actions@) =~= inv_actions(items));
    actions
}

/// An answer of the node to a request of this connection.
#[derive(Debug)]
pub enum Reply {
    /// Transactions that the node lacks: ask the peer for them.
    AskTxs(Vec<Vec<u8>>),
    /// Blocks that the node lacks, each with its kind: ask the peer for them.
    AskBlocks(Vec<(Vec<u8>, u32)>),
    /// The answer to the peer's `getblocks`: hashes with their kinds.
    GetBlocksReply(Vec<(Vec<u8>, u32)>),
}

/// The inventory that lists `hashes`, each with the kind `kind`.
pub open spec fn inventory_of(hashes: Seq<Seq<u8>>, kind: u32) -> Seq<SpecInvVect> {
    hashes.map_values(|h: Seq<u8>| SpecInvVect { hash_type: kind, hash: h })
}

/// The inventory that lists each hash with its own kind.
pub open spec fn inventory_of_pairs(pairs: Seq<(Vec<u8>, u32)>) -> Seq<SpecInvVect> {
    pairs.map_values(|p: (Vec<u8>, u32)| SpecInvVect { hash_type: p.1, hash: p.0@ })
}

/// The message that carries a reply to the peer: an `inv` of the wanted transactions
/// (kind 0), a `getdata` of the wanted blocks, or an `inv` answering `getblocks`.
pub fn reply_message(reply: Reply) -> (r: Message)
    ensures
        match reply {
            Reply::AskTxs(h) => r matches Message::Inv(i) && i@ == inventory_of(views(h@), 0),
            Reply::AskBlocks(p) => r matches Message::GetData(i) && i@ == inventory_of_pairs(p@),
            Reply::GetBlocksReply(p) => r matches Message::Inv(i) && i@ == inventory_of_pairs(p@),
        },
{
    match reply {
        Reply::AskTxs(hashes) => {
            let ghost hs = views(hashes@);
            let mut inventory: Vec<crate::types::InvVect> = Vec::new();
            let mut i: usize = 0;
            while i < hashes.len()
                invariant
                    i <= hashes@.len(),
                    hs == views(hashes@),
                    views(inventory@) == inventory_of(hs, 0).take(i as int),
                decreases hashes@.len() - i,
            {
                let v = crate::types::InvVect::from_vec(copy_bytes(&hashes[i]), 0);
                let ghost before = views(inventory@);
                inventory.push(v);
                assert(views(inventory@) =~= before.push(v@));
                i = i + 1;
                assert(views(inventory@) =~= inventory_of(hs, 0).take(i as int));
            }
            assert(inventory_of(hs, 0).take(i as int) =~= inventory_of(hs, 0));
            Message::Inv(Inv { inventory })
        },
        Reply::AskBlocks(pairs) => {
            let inv = Inv::from_vec(pairs);
            assert(inv@ =~= inventory_of_pairs(pairs@));
            Message::GetData(inv)
        },
        Reply::GetBlocksReply(pairs) => {
            let inv = Inv::from_vec(pairs);
            assert(inv@ =~= inventory_of_pairs(pairs@));
            Message::Inv(inv)
        },
    }
}

} // verus!
