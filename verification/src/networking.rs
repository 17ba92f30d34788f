//! What gossip asks of the core: a transaction from a peer is handed to
//! the engine; a block from a peer is not imported.
use crate::consensus::{ConsensusEngine, ConsensusError};
use crate::mempool::inserted;
use crate::types::{Block, Transaction, TxId};
use vstd::prelude::*;

verus! {

/// A message exchanged between peers.
#[derive(Debug)]
pub enum GossipMessage {
    Tx(Transaction),
    Block(Block),
}

/// Takes in a message from a peer. A transaction is submitted to the
/// engine, and what the engine answers comes back; a block leaves the
/// engine as it is, and nothing comes back.
pub fn handle_gossip<E: ConsensusEngine>(engine: &mut E, msg: GossipMessage) -> (r: Option<
    Result<TxId, ConsensusError>,
>)
    requires
        old(engine).inv(),
    ensures
        final(engine).inv(),
        final(engine).rounds_left() == old(engine).rounds_left(),
        match msg {
            GossipMessage::Tx(tx) => {
                &&& r is Some
                &&& final(engine).pending_limit() == old(engine).pending_limit()
                &&& final(engine).pending_txs() == inserted(
                    old(engine).pending_txs(),
                    old(engine).pending_limit(),
                    tx@,
                )
                &&& r->Some_0 is Err <==> old(engine).pending_txs().len() >= old(
                    engine,
                ).pending_limit()
                &&& r->Some_0 is Err ==> r->Some_0->Err_0 is Mempool
                &&& r->Some_0 is Ok ==> r->Some_0->Ok_0 == tx.id()
            },
            GossipMessage::Block(_) => r is None && *final(engine) == *old(engine),
        },
{
    match msg {
        GossipMessage::Tx(tx) => Some(engine.submit_tx(tx)),
        GossipMessage::Block(_) => None,
    }
}

} // verus!
