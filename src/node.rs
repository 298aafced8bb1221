//! The broadcast node: its handshake, its answer to each message, and the
//! gossip it sends on every tick.
use vstd::prelude::*;
use crate::messages::{Body, BroadcastMessages, Message, PartialNode};
use crate::topology::{ids_view, lemma_peers_of_distinct, peer_set, topology_of};
use crate::convergence::{
    lemma_confirmed_kept_by_backfill, lemma_confirmed_kept_by_gossip, lemma_gossip_known_data_tables,
    lemma_record_local_known, same_entry,
};
use crate::tracker::{
    DatumStatus, Tracker, TrackerError, gossip_accepted_from, tables_after_gossip, with_status,
};

verus! {

/// Milliseconds between two gossip ticks.
pub const GOSSIP_INTERVAL_MS: u64 = 250;

/// `m` answers `msg` with local message id `id`.
pub open spec fn answers<M, N>(m: Message<M>, msg: Message<N>, id: usize) -> bool {
    &&& m.src@ == msg.dst@
    &&& m.dst@ == msg.src@
    &&& m.body.msg_id == Some(id)
    &&& m.body.in_reply_to == msg.body.msg_id
}

/// `m` is a gossip payload built from the table `t`.
pub open spec fn gossip_from_table(m: BroadcastMessages, t: Map<usize, DatumStatus>) -> bool {
    match m {
        BroadcastMessages::Gossip { data_you_need, data_i_received_from_you } => {
            &&& data_you_need@.to_set() == with_status(t, DatumStatus::SentUnconfirmed)
            &&& data_i_received_from_you@.to_set() == with_status(t, DatumStatus::ReceivedUnconfirmed)
        },
        _ => false,
    }
}

/// Datum `d` is confirmed in table `t`.
pub open spec fn confirmed(t: Map<usize, DatumStatus>, d: usize) -> bool {
    t.contains_key(d) && t[d] == DatumStatus::Confirmed
}

/// A node of the broadcast protocol.
pub struct BroadcastNode {
    pub id: String,
    pub msg_id: usize,
    pub tracker: Tracker,
}

impl BroadcastNode {
    /// The node made at the handshake: its peers are the fixed topology
    /// derived from its identifier and the roster; nothing is seen yet.
    /// `None` where an identifier carries no ordinal.
    pub fn new(partial_node: PartialNode) -> (r: Option<BroadcastNode>)
        ensures
            match topology_of(partial_node.id@, ids_view(partial_node.peers@)) {
                None => r is None,
                Some(peers) => r matches Some(node) && {
                    &&& node.id@ == partial_node.id@
                    &&& node.msg_id == partial_node.msg_id
                    &&& node.tracker.wf()
                    &&& node.tracker.seen_view() == Set::<usize>::empty()
                    &&& node.tracker.peers_view() == peers
                    &&& forall|i: int|
                        0 <= i < peers.len() ==> node.tracker.tables_view()[i] == Map::<usize, DatumStatus>::empty()
                },
            },
    {
        let peers = match peer_set(&partial_node.id, &partial_node.peers) {
            Some(p) => p,
            None => return None,
        };
        proof {
            lemma_peers_of_distinct(
                crate::ids::ordinal_of(partial_node.id@)->0,
                ids_view(partial_node.peers@),
            );
        }
        let tracker = Tracker::new(peers);
        Some(BroadcastNode { id: partial_node.id, msg_id: partial_node.msg_id, tracker })
    }

    /// Interval of the gossip tick, in milliseconds.
    pub fn bg_task_interval_ms(&self) -> (r: u64)
        ensures
            r == GOSSIP_INTERVAL_MS,
    {
        GOSSIP_INTERVAL_MS
    }

    /// The answer to `msg` carrying `rsp`, stamped with the next local
    /// message id.
    pub fn reply<M, N>(&mut self, msg: &Message<N>, rsp: M) -> (r: Message<M>)
        requires
            old(self).msg_id < usize::MAX,
        ensures
            answers(r, *msg, old(self).msg_id),
            r.body.msg == rsp,
            final(self).msg_id == old(self).msg_id + 1,
            final(self).id == old(self).id,
            final(self).tracker == old(self).tracker,
    {
        let body = Body { msg_id: Some(self.msg_id), in_reply_to: msg.body.msg_id, msg: rsp };
        self.msg_id = self.msg_id + 1;
        Message { src: msg.dst.clone(), dst: msg.src.clone(), body }
    }

    /// Handles one message: a broadcast is recorded and acknowledged, a read
    /// is answered with every datum seen, a topology proposal is acknowledged
    /// and ignored, gossip is recorded without an answer. The peers never
    /// change, whoever sends. Gossip that reports as received a datum never
    /// tracked for its sender (any datum, where the sender is not a peer) is
    /// refused. A confirmed entry stays confirmed.
    pub fn handle_msg(&mut self, msg: Message<BroadcastMessages>) -> (r: Result<
        Option<Message<BroadcastMessages>>,
        TrackerError,
    >)
        requires
            old(self).tracker.wf(),
            old(self).msg_id < usize::MAX,
        ensures
            final(self).tracker.wf(),
            final(self).id == old(self).id,
            final(self).tracker.peers_view() == old(self).tracker.peers_view(),
            final(self).tracker.tables_view().len() == old(self).tracker.tables_view().len(),
            forall|j: int, d: usize|
                0 <= j < old(self).tracker.tables_view().len() && #[trigger] confirmed(
                    old(self).tracker.tables_view()[j],
                    d,
                ) ==> confirmed(final(self).tracker.tables_view()[j], d),
            match msg.body.msg {
                BroadcastMessages::Broadcast { message } => {
                    &&& r matches Ok(Some(m)) && answers(m, msg, old(self).msg_id)
                        && m.body.msg is BroadcastOk
                    &&& final(self).msg_id == old(self).msg_id + 1
                    &&& final(self).tracker.seen_view() == old(self).tracker.seen_view().insert(message)
                    &&& final(self).tracker.tables_view() == old(self).tracker.tables_view()
                    &&& old(self).tracker.seen_view().contains(message) ==> final(self).tracker.seen_view()
                        == old(self).tracker.seen_view()
                },
                BroadcastMessages::Read => {
                    &&& r matches Ok(Some(m)) && answers(m, msg, old(self).msg_id) && (
                    m.body.msg matches BroadcastMessages::ReadOk { messages } && messages@.to_set()
                        == old(self).tracker.seen_view() && messages@.no_duplicates())
                    &&& final(self).msg_id == old(self).msg_id + 1
                    &&& final(self).tracker == old(self).tracker
                },
                BroadcastMessages::Topology { .. } => {
                    &&& r matches Ok(Some(m)) && answers(m, msg, old(self).msg_id)
                        && m.body.msg is TopologyOk
                    &&& final(self).msg_id == old(self).msg_id + 1
                    &&& final(self).tracker == old(self).tracker
                },
                BroadcastMessages::Gossip { data_you_need, data_i_received_from_you } => {
                    let old_t = old(self).tracker;
                    let new_t = final(self).tracker;
                    let need = data_you_need@.to_set();
                    let received = data_i_received_from_you@.to_set();
                    let accepted = gossip_accepted_from(
                        old_t.peers_view(),
                        old_t.tables_view(),
                        old_t.seen_view(),
                        msg.src@,
                        need,
                        received,
                    );
                    &&& final(self).msg_id == old(self).msg_id
                    &&& (accepted ==> r == Ok::<Option<Message<BroadcastMessages>>, TrackerError>(None))
                    &&& (!accepted ==> r == Err::<Option<Message<BroadcastMessages>>, TrackerError>(
                        TrackerError::UntrackedConfirmation,
                    ))
                    &&& accepted ==> {
                        &&& new_t.seen_view() == old_t.seen_view().union(need)
                        &&& new_t.tables_view() == tables_after_gossip(
                            old_t.peers_view(),
                            old_t.tables_view(),
                            old_t.seen_view(),
                            msg.src@,
                            need,
                            received,
                        )
                    }
                    &&& !accepted ==> {
                        &&& new_t.seen_view() == old_t.seen_view()
                        &&& new_t.tables_view() == old_t.tables_view()
                    }
                    &&& need.subset_of(old_t.seen_view()) ==> {
                        &&& new_t.seen_view() == old_t.seen_view()
                        &&& forall|j: int, d: usize|
                            0 <= j < old_t.tables_view().len() && !received.contains(d) ==> #[trigger] same_entry(
                                new_t.tables_view()[j],
                                old_t.tables_view()[j],
                                d,
                            )
                    }
                },
                _ => {
                    &&& r == Ok::<Option<Message<BroadcastMessages>>, TrackerError>(None)
                    &&& final(self).msg_id == old(self).msg_id
                    &&& final(self).tracker == old(self).tracker
                },
            },
    {
        match &msg.body.msg {
            BroadcastMessages::Broadcast { message } => {
                proof {
                    if self.tracker.seen_view().contains(*message) {
                        lemma_record_local_known(self.tracker.seen_view(), *message);
                    }
                }
                self.tracker.record_local(*message);
                Ok(Some(self.reply(&msg, BroadcastMessages::BroadcastOk)))
            },
            BroadcastMessages::Read => {
                let messages = self.tracker.seen_list();
                Ok(Some(self.reply(&msg, BroadcastMessages::ReadOk { messages })))
            },
            BroadcastMessages::Topology { .. } => {
                Ok(Some(self.reply(&msg, BroadcastMessages::TopologyOk)))
            },
            BroadcastMessages::Gossip { data_you_need, data_i_received_from_you } => {
                let ghost peers0 = self.tracker.peers_view();
                let ghost tables0 = self.tracker.tables_view();
                let ghost seen0 = self.tracker.seen_view();
                let ghost need = data_you_need@.to_set();
                let ghost received = data_i_received_from_you@.to_set();
                let r = self.tracker.record_gossip(&msg.src, data_you_need, data_i_received_from_you);
                proof {
                    if r is Ok {
                        assert forall|j: int, d: usize|
                            0 <= j < tables0.len() && #[trigger] confirmed(tables0[j], d) implies confirmed(
                            self.tracker.tables_view()[j],
                            d,
                        ) by {
                            lemma_confirmed_kept_by_gossip(peers0, tables0, seen0, msg.src@, need, received, j, d);
                        }
                        if need.subset_of(seen0) {
                            assert(seen0.union(need) =~= seen0);
                            assert forall|j: int, d: usize|
                                0 <= j < tables0.len() && !received.contains(d) implies #[trigger] same_entry(
                                self.tracker.tables_view()[j],
                                tables0[j],
                                d,
                            ) by {
                                lemma_gossip_known_data_tables(peers0, tables0, seen0, msg.src@, need, received, j, d);
                            }
                        }
                    }
                }
                match r {
                    Ok(()) => Ok(None),
                    Err(e) => Err(e),
                }
            },
            _ => Ok(None),
        }
    }

    /// The gossip tick: backfills every peer's table with the data seen, then
    /// builds one gossip message per peer, in peer order, from that peer's
    /// table, with consecutive local message ids.
    pub fn bg_task(&mut self) -> (r: Vec<Message<BroadcastMessages>>)
        requires
            old(self).tracker.wf(),
            old(self).msg_id + old(self).tracker.peers_view().len() <= usize::MAX,
        ensures
            final(self).tracker.wf(),
            final(self).id == old(self).id,
            final(self).msg_id == old(self).msg_id + old(self).tracker.peers_view().len(),
            final(self).tracker.seen_view() == old(self).tracker.seen_view(),
            final(self).tracker.peers_view() == old(self).tracker.peers_view(),
            final(self).tracker.tables_view().len() == old(self).tracker.tables_view().len(),
            forall|i: int|
                0 <= i < old(self).tracker.tables_view().len() ==> #[trigger] final(self).tracker.tables_view()[i]
                    == crate::tracker::backfill_table(
                    old(self).tracker.tables_view()[i],
                    old(self).tracker.seen_view(),
                ),
            forall|j: int, d: usize|
                0 <= j < old(self).tracker.tables_view().len() && #[trigger] confirmed(
                    old(self).tracker.tables_view()[j],
                    d,
                ) ==> confirmed(final(self).tracker.tables_view()[j], d),
            r@.len() == old(self).tracker.peers_view().len(),
            forall|i: int|
                0 <= i < r@.len() ==> {
                    &&& (#[trigger] r@[i]).src@ == old(self).id@
                    &&& r@[i].dst@ == old(self).tracker.peers_view()[i]
                    &&& r@[i].body.msg_id == Some((old(self).msg_id + i) as usize)
                    &&& r@[i].body.in_reply_to is None
                    &&& gossip_from_table(r@[i].body.msg, final(self).tracker.tables_view()[i])
                },
    {
        let ghost tables0 = self.tracker.tables_view();
        let ghost seen0 = self.tracker.seen_view();
        self.tracker.backfill();
        proof {
            assert forall|j: int, d: usize|
                0 <= j < tables0.len() && #[trigger] confirmed(tables0[j], d) implies confirmed(
                self.tracker.tables_view()[j],
                d,
            ) by {
                lemma_confirmed_kept_by_backfill(tables0[j], seen0, d);
            }
        }
        let n = self.tracker.peer_count();
        let mut out: Vec<Message<BroadcastMessages>> = Vec::new();
        let mut count: usize = 0;
        while count < n
            invariant
                self.tracker.wf(),
                n == self.tracker.peers_view().len(),
                count <= n,
                out@.len() == count,
                self.msg_id + n <= usize::MAX,
                forall|i: int|
                    0 <= i < count ==> {
                        &&& (#[trigger] out@[i]).src@ == self.id@
                        &&& out@[i].dst@ == self.tracker.peers_view()[i]
                        &&& out@[i].body.msg_id == Some((self.msg_id + i) as usize)
                        &&& out@[i].body.in_reply_to is None
                        &&& gossip_from_table(out@[i].body.msg, self.tracker.tables_view()[i])
                    },
            decreases n - count,
        {
            let (data_you_need, data_i_received_from_you) = self.tracker.deltas(count);
            let m = Message {
                src: self.id.clone(),
                dst: self.tracker.peer_id(count).clone(),
                body: Body {
                    msg_id: Some(self.msg_id + count),
                    in_reply_to: None,
                    msg: BroadcastMessages::Gossip { data_you_need, data_i_received_from_you },
                },
            };
            out.push(m);
            count = count + 1;
        }
        self.msg_id = self.msg_id + n;
        out
    }
}

} // verus!
