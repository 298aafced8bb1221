//! Envelopes exchanged between nodes, and the payloads of the broadcast node.
use vstd::prelude::*;
use std::collections::HashMap;

verus! {

/// The body of an envelope: an optional local message id, an optional id of
/// the message it answers, and the typed payload.
pub struct Body<M> {
    pub msg_id: Option<usize>,
    pub in_reply_to: Option<usize>,
    pub msg: M,
}

/// An envelope from `src` to `dst`.
pub struct Message<M> {
    pub src: String,
    pub dst: String,
    pub body: Body<M>,
}

impl<M> Message<M> {
    /// An envelope that carries `body` back from this one's destination to
    /// its source.
    pub fn response(&self, body: Body<M>) -> (r: Message<M>)
        ensures
            r.src@ == self.dst@,
            r.dst@ == self.src@,
            r.body == body,
    {
        Message { src: self.dst.clone(), dst: self.src.clone(), body }
    }
}

/// Payloads of the broadcast node.
pub enum BroadcastMessages {
    /// A datum to replicate.
    Broadcast { message: usize },
    /// Gossip between peers: data the receiver should learn from the sender,
    /// and data the sender has recently learned from the receiver.
    Gossip { data_you_need: Vec<usize>, data_i_received_from_you: Vec<usize> },
    /// A request for every datum seen.
    Read,
    /// A topology proposal, acknowledged and ignored.
    Topology { topology: HashMap<String, Vec<String>> },
    ReadOk { messages: Vec<usize> },
    BroadcastOk,
    TopologyOk,
}

/// What a node is told at its handshake: its own identifier, the roster of
/// the cluster, and the first local message id to use.
pub struct PartialNode {
    pub id: String,
    pub peers: Vec<String>,
    pub msg_id: usize,
}

} // verus!
