//! Facts about the convergence tables that hold across operations.
use vstd::prelude::*;
use crate::tracker::{
    DatumStatus, backfill_table, gossip_accepted, gossip_accepted_from, gossip_table, newly_learned,
    tables_after_gossip, tables_within, with_status,
};

verus! {

/// Recording locally a datum already seen leaves the seen set as it was.
pub proof fn lemma_record_local_known(seen: Set<usize>, d: usize)
    requires
        seen.contains(d),
    ensures
        seen.insert(d) == seen,
{
    assert(seen.insert(d) =~= seen);
}

/// Gossip that only carries data already seen, and confirms nothing, changes
/// neither the seen set nor the sender's table.
pub proof fn lemma_gossip_known_data(t: Map<usize, DatumStatus>, seen: Set<usize>, need: Set<usize>)
    requires
        need.subset_of(seen),
    ensures
        seen.union(need) == seen,
        gossip_table(t, seen, need, Set::empty()) == t,
{
    assert(seen.union(need) =~= seen);
    assert(gossip_table(t, seen, need, Set::empty()) =~= t);
}

/// `a` and `b` agree on datum `d`: both lack it, or both hold it with the
/// same status.
pub open spec fn same_entry(a: Map<usize, DatumStatus>, b: Map<usize, DatumStatus>, d: usize) -> bool {
    &&& a.contains_key(d) == b.contains_key(d)
    &&& a.contains_key(d) ==> a[d] == b[d]
}

/// Gossip whose needed data are all seen already leaves every table entry
/// as it was, but those it reports as received.
pub proof fn lemma_gossip_known_data_tables(
    peers: Seq<Seq<char>>,
    tables: Seq<Map<usize, DatumStatus>>,
    seen: Set<usize>,
    p: Seq<char>,
    need: Set<usize>,
    received: Set<usize>,
    j: int,
    d: usize,
)
    requires
        peers.len() == tables.len(),
        need.subset_of(seen),
        0 <= j < tables.len(),
        !received.contains(d),
    ensures
        same_entry(tables_after_gossip(peers, tables, seen, p, need, received)[j], tables[j], d),
{
    if peers.contains(p) {
        let k = peers.index_of(p);
        assert(peers[k] == p);
    }
}

/// Recording the same gossip message a second time changes nothing: the
/// message is accepted again, and the seen set and every table stay as the
/// first time left them.
pub proof fn lemma_gossip_twice(
    peers: Seq<Seq<char>>,
    tables: Seq<Map<usize, DatumStatus>>,
    seen: Set<usize>,
    p: Seq<char>,
    need: Set<usize>,
    received: Set<usize>,
)
    requires
        peers.len() == tables.len(),
        gossip_accepted_from(peers, tables, seen, p, need, received),
    ensures
        ({
            let tables1 = tables_after_gossip(peers, tables, seen, p, need, received);
            let seen1 = seen.union(need);
            &&& gossip_accepted_from(peers, tables1, seen1, p, need, received)
            &&& seen1.union(need) == seen1
            &&& tables_after_gossip(peers, tables1, seen1, p, need, received) == tables1
        }),
{
    let tables1 = tables_after_gossip(peers, tables, seen, p, need, received);
    let seen1 = seen.union(need);
    assert(seen1.union(need) =~= seen1);
    if peers.contains(p) {
        let i = peers.index_of(p);
        assert(peers[i] == p);
        let t1 = gossip_table(tables[i], seen, need, received);
        assert(tables1[i] == t1);
        assert forall|d: usize| #[trigger] received.contains(d) implies t1.contains_key(d) || newly_learned(seen1, need, d) by {
        }
        assert(gossip_table(t1, seen1, need, received) =~= t1);
        assert(tables1.update(i, t1) =~= tables1);
    }
}

/// A confirmed entry stays confirmed through the scheduler's backfill.
pub proof fn lemma_confirmed_kept_by_backfill(t: Map<usize, DatumStatus>, seen: Set<usize>, d: usize)
    requires
        t.contains_key(d),
        t[d] == DatumStatus::Confirmed,
    ensures
        backfill_table(t, seen).contains_key(d),
        backfill_table(t, seen)[d] == DatumStatus::Confirmed,
{
}

/// A confirmed entry stays confirmed through any gossip message, from any
/// sender, while every tracked datum has been seen (which the tracker keeps).
pub proof fn lemma_confirmed_kept_by_gossip(
    peers: Seq<Seq<char>>,
    tables: Seq<Map<usize, DatumStatus>>,
    seen: Set<usize>,
    p: Seq<char>,
    need: Set<usize>,
    received: Set<usize>,
    j: int,
    d: usize,
)
    requires
        peers.len() == tables.len(),
        peers.no_duplicates(),
        tables_within(tables, seen),
        0 <= j < tables.len(),
        tables[j].contains_key(d),
        tables[j][d] == DatumStatus::Confirmed,
    ensures
        tables_after_gossip(peers, tables, seen, p, need, received)[j].contains_key(d),
        tables_after_gossip(peers, tables, seen, p, need, received)[j][d] == DatumStatus::Confirmed,
{
    assert(seen.contains(d));
    if peers.contains(p) {
        let k = peers.index_of(p);
        assert(peers[k] == p);
    }
}

/// On a tick, every datum seen is tracked for every peer, and unless it is
/// confirmed it goes out in that peer's gossip: as data the peer needs, or as
/// data received from it.
pub proof fn lemma_tick_offers_unconfirmed(t: Map<usize, DatumStatus>, seen: Set<usize>, d: usize)
    requires
        seen.contains(d),
    ensures
        ({
            let b = backfill_table(t, seen);
            &&& b.contains_key(d)
            &&& b[d] == DatumStatus::Confirmed || with_status(b, DatumStatus::SentUnconfirmed).contains(d)
                || with_status(b, DatumStatus::ReceivedUnconfirmed).contains(d)
        }),
{
    let b = backfill_table(t, seen);
    assert(b.contains_key(d));
}

/// A node that records gossip has seen every datum the gossip says it needs.
pub proof fn lemma_gossip_teaches(seen: Set<usize>, need: Set<usize>, d: usize)
    requires
        need.contains(d),
    ensures
        seen.union(need).contains(d),
{
}

} // verus!
