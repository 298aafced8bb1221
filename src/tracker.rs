//! Convergence tracking: the set of data this node has seen and, for each peer,
//! what is known of that peer's knowledge of each datum.
use vstd::prelude::*;
use std::collections::{HashMap, HashSet};
use vstd::std_specs::iter::IteratorSpec;
use crate::topology::ids_view;

verus! {

broadcast use vstd::std_specs::hash::group_hash_axioms;

/// What this node knows of one peer's knowledge of one datum.
#[derive(Clone, Copy, Debug, PartialEq, Eq, Structural)]
pub enum DatumStatus {
    /// This node knows the datum and has sent it, without word that the peer has it.
    SentUnconfirmed,
    /// This node learned the datum from the peer and has not yet told it so.
    ReceivedUnconfirmed,
    /// Both sides know the datum, and each knows that the other knows it.
    Confirmed,
}

/// A peer reported as received a datum that was never tracked for it.
#[derive(Clone, Copy, Debug, PartialEq, Eq, Structural)]
pub enum TrackerError {
    UntrackedConfirmation,
}

/// The data of a table that carry status `s`.
pub open spec fn with_status(t: Map<usize, DatumStatus>, s: DatumStatus) -> Set<usize> {
    t.dom().filter(|d: usize| t[d] == s)
}

/// A table after the scheduler's backfill: every seen datum that the table
/// lacks is added as sent and unconfirmed.
pub open spec fn backfill_table(t: Map<usize, DatumStatus>, seen: Set<usize>) -> Map<usize, DatumStatus> {
    Map::new(
        |d: usize| t.contains_key(d) || seen.contains(d),
        |d: usize|
            if t.contains_key(d) {
                t[d]
            } else {
                DatumStatus::SentUnconfirmed
            },
    )
}

/// Data of a gossip message that are new to a node which has seen `seen`.
pub open spec fn newly_learned(seen: Set<usize>, need: Set<usize>, d: usize) -> bool {
    need.contains(d) && !seen.contains(d)
}

/// A peer's table after a gossip message from that peer: data new to this
/// node become received and unconfirmed, then every datum the peer reports
/// as received becomes confirmed.
pub open spec fn gossip_table(
    t: Map<usize, DatumStatus>,
    seen: Set<usize>,
    need: Set<usize>,
    received: Set<usize>,
) -> Map<usize, DatumStatus> {
    Map::new(
        |d: usize| t.contains_key(d) || newly_learned(seen, need, d),
        |d: usize|
            if received.contains(d) {
                DatumStatus::Confirmed
            } else if newly_learned(seen, need, d) {
                DatumStatus::ReceivedUnconfirmed
            } else {
                t[d]
            },
    )
}

/// A gossip message is accepted when every datum it reports as received is
/// tracked for its sender once the data new to this node are.
pub open spec fn gossip_accepted(
    t: Map<usize, DatumStatus>,
    seen: Set<usize>,
    need: Set<usize>,
    received: Set<usize>,
) -> bool {
    forall|d: usize| #[trigger] received.contains(d) ==> t.contains_key(d) || newly_learned(seen, need, d)
}

/// Whether a gossip message from `p` is accepted. From a peer, as
/// `gossip_accepted` says of that peer's table. A sender outside the peers
/// has no table: its message is accepted only where it reports nothing as
/// received.
pub open spec fn gossip_accepted_from(
    peers: Seq<Seq<char>>,
    tables: Seq<Map<usize, DatumStatus>>,
    seen: Set<usize>,
    p: Seq<char>,
    need: Set<usize>,
    received: Set<usize>,
) -> bool {
    if peers.contains(p) {
        gossip_accepted(tables[peers.index_of(p)], seen, need, received)
    } else {
        received == Set::<usize>::empty()
    }
}

/// The tables after an accepted gossip message from `p`: the sender's table
/// is updated where the sender is a peer; no table is added for any other.
pub open spec fn tables_after_gossip(
    peers: Seq<Seq<char>>,
    tables: Seq<Map<usize, DatumStatus>>,
    seen: Set<usize>,
    p: Seq<char>,
    need: Set<usize>,
    received: Set<usize>,
) -> Seq<Map<usize, DatumStatus>> {
    if peers.contains(p) {
        let i = peers.index_of(p);
        tables.update(i, gossip_table(tables[i], seen, need, received))
    } else {
        tables
    }
}

/// Every tracked datum has been seen.
pub open spec fn tables_within(tables: Seq<Map<usize, DatumStatus>>, seen: Set<usize>) -> bool {
    forall|i: int, d: usize|
        0 <= i < tables.len() && #[trigger] tables[i].contains_key(d) ==> seen.contains(d)
}

proof fn lemma_push_to_set(s: Seq<usize>, x: usize)
    ensures
        s.push(x).to_set() == s.to_set().insert(x),
{
    let b = s.push(x);
    assert forall|y: usize| b.contains(y) <==> (s.contains(y) || y == x) by {
        if b.contains(y) {
            let m = choose|m: int| 0 <= m < b.len() && b[m] == y;
            if m < s.len() {
                assert(s[m] == y);
            }
        }
        if s.contains(y) {
            let m = choose|m: int| 0 <= m < s.len() && s[m] == y;
            assert(b[m] == y);
        }
        if y == x {
            assert(b[s.len() as int] == y);
        }
    }
    assert(b.to_set() =~= s.to_set().insert(x));
}

/// Whether `v` holds `d`.
fn vec_contains(v: &Vec<usize>, d: usize) -> (r: bool)
    ensures
        r == v@.contains(d),
{
    let mut i: usize = 0;
    while i < v.len()
        invariant
            i <= v.len(),
            forall|j: int| 0 <= j < i ==> v@[j] != d,
        decreases v.len() - i,
    {
        if v[i] == d {
            return true;
        }
        i = i + 1;
    }
    false
}

/// Lists the members of a set, each once.
pub fn set_members(set: &HashSet<usize>) -> (r: Vec<usize>)
    ensures
        r@.to_set() == set@,
        r@.no_duplicates(),
{
    let mut out: Vec<usize> = Vec::new();
    let ghost whole = vstd::std_specs::hash::spec_hash_keys_iter(set).remaining().unref();
    for d in it: set.iter()
        invariant
            whole == it.seq().unref(),
            out@ == it.seq().take(it.index()).unref(),
    {
        out.push(*d);
        proof {
            assert(it.seq().take(it.index() + 1).unref() =~= it.seq().take(it.index()).unref().push(*d));
        }
    }
    proof {
        assert(out@ =~= whole);
    }
    out
}

/// Lists the data of a table that carry status `s`.
fn data_with_status(t: &HashMap<usize, DatumStatus>, s: DatumStatus) -> (r: Vec<usize>)
    ensures
        r@.to_set() == with_status(t@, s),
{
    let mut out: Vec<usize> = Vec::new();
    let ghost whole = vstd::std_specs::hash::spec_hash_map_iter(t).remaining().unref();
    let ghost mut visited: Seq<(usize, DatumStatus)> = Seq::empty();
    for entry in it: t.iter()
        invariant
            whole == it.seq().unref(),
            whole.to_set() == t@.kv_pairs(),
            visited == it.seq().take(it.index()).unref(),
            forall|d: usize| out@.contains(d) <==> visited.contains((d, s)),
    {
        let (d, st) = entry;
        let ghost out0 = out@;
        let ghost v0 = visited;
        proof {
            let post = it.seq().take(it.index() + 1).unref();
            assert(post =~= visited.push((*d, *st)));
            visited = visited.push((*d, *st));
        }
        if *st == s {
            out.push(*d);
        }
        proof {
            assert forall|x: usize| out@.contains(x) <==> visited.contains((x, s)) by {
                if visited.contains((x, s)) {
                    let j = choose|j: int| 0 <= j < visited.len() && visited[j] == (x, s);
                    if j < v0.len() {
                        assert(v0[j] == (x, s));
                        assert(out0.contains(x));
                        let k = choose|k: int| 0 <= k < out0.len() && out0[k] == x;
                        assert(out@[k] == x);
                    } else {
                        assert(out@[out@.len() - 1] == x);
                    }
                }
                if out@.contains(x) {
                    let k = choose|k: int| 0 <= k < out@.len() && out@[k] == x;
                    if k < out0.len() {
                        assert(out0[k] == x);
                        assert(out0.contains(x));
                        assert(v0.contains((x, s)));
                        let j = choose|j: int| 0 <= j < v0.len() && v0[j] == (x, s);
                        assert(visited[j] == (x, s));
                    } else {
                        assert(visited[visited.len() - 1] == (x, s));
                    }
                }
            }
        }
    }
    proof {
        assert(visited =~= whole);
        assert forall|d: usize| out@.to_set().contains(d) <==> with_status(t@, s).contains(d) by {
            if with_status(t@, s).contains(d) {
                assert(t@.kv_pairs().contains((d, s)));
                assert(whole.to_set().contains((d, s)));
            }
            if out@.contains(d) {
                assert(whole.contains((d, s)));
                assert(whole.to_set().contains((d, s)));
            }
        }
        assert(out@.to_set() =~= with_status(t@, s));
    }
    out
}

/// Adds every datum of `seen` that `t` lacks, as sent and unconfirmed.
fn fill_table(t: &mut HashMap<usize, DatumStatus>, seen: &HashSet<usize>)
    ensures
        final(t)@ == backfill_table(old(t)@, seen@),
{
    let ghost t0 = t@;
    let ghost whole = vstd::std_specs::hash::spec_hash_keys_iter(seen).remaining().unref();
    let ghost mut visited: Seq<usize> = Seq::empty();
    for d in it: seen.iter()
        invariant
            whole == it.seq().unref(),
            whole.to_set() == seen@,
            visited == it.seq().take(it.index()).unref(),
            forall|x: usize| #[trigger] t@.contains_key(x) <==> (t0.contains_key(x) || visited.contains(x)),
            forall|x: usize|
                #[trigger] t@.contains_key(x) ==> t@[x] == (if t0.contains_key(x) {
                    t0[x]
                } else {
                    DatumStatus::SentUnconfirmed
                }),
    {
        let ghost v0 = visited;
        proof {
            assert(it.seq().take(it.index() + 1).unref() =~= visited.push(*d));
            visited = visited.push(*d);
            assert forall|x: usize| visited.contains(x) <==> (v0.contains(x) || x == *d) by {
                if visited.contains(x) {
                    let j = choose|j: int| 0 <= j < visited.len() && visited[j] == x;
                    if j < v0.len() {
                        assert(v0[j] == x);
                    }
                }
                if v0.contains(x) {
                    let j = choose|j: int| 0 <= j < v0.len() && v0[j] == x;
                    assert(visited[j] == x);
                }
                if x == *d {
                    assert(visited[visited.len() - 1] == x);
                }
            }
        }
        if !t.contains_key(d) {
            t.insert(*d, DatumStatus::SentUnconfirmed);
        }
    }
    proof {
        assert(visited =~= whole);
        assert forall|x: usize| visited.contains(x) <==> seen@.contains(x) by {
            assert(visited.to_set().contains(x) == visited.contains(x));
        }
        assert(t@ =~= backfill_table(t0, seen@));
    }
}

/// Applies a gossip message to the sender's table.
fn apply_gossip(
    t: &mut HashMap<usize, DatumStatus>,
    seen: &HashSet<usize>,
    need: &Vec<usize>,
    received: &Vec<usize>,
)
    requires
        gossip_accepted(old(t)@, seen@, need@.to_set(), received@.to_set()),
    ensures
        final(t)@ == gossip_table(old(t)@, seen@, need@.to_set(), received@.to_set()),
{
    let ghost t0 = t@;
    let ghost needs = need@.to_set();
    let ghost recvs = received@.to_set();
    let mut j: usize = 0;
    while j < need.len()
        invariant
            j <= need.len(),
            needs == need@.to_set(),
            forall|x: usize|
                #[trigger] t@.contains_key(x) <==> (t0.contains_key(x) || newly_learned(
                    seen@,
                    need@.take(j as int).to_set(),
                    x,
                )),
            forall|x: usize|
                #[trigger] t@.contains_key(x) ==> t@[x] == (if newly_learned(
                    seen@,
                    need@.take(j as int).to_set(),
                    x,
                ) {
                    DatumStatus::ReceivedUnconfirmed
                } else {
                    t0[x]
                }),
        decreases need.len() - j,
    {
        let d = need[j];
        proof {
            let a = need@.take(j as int);
            let b = need@.take(j + 1);
            assert(b =~= a.push(d));
            assert forall|x: usize| b.to_set().contains(x) <==> (a.to_set().contains(x) || x == d) by {
                if b.contains(x) {
                    let m = choose|m: int| 0 <= m < b.len() && b[m] == x;
                    if m < j {
                        assert(a[m] == x);
                    }
                }
                if a.contains(x) {
                    let m = choose|m: int| 0 <= m < a.len() && a[m] == x;
                    assert(b[m] == x);
                }
                if x == d {
                    assert(b[j as int] == x);
                }
            }
        }
        if !seen.contains(&d) {
            t.insert(d, DatumStatus::ReceivedUnconfirmed);
        }
        j = j + 1;
    }
    assert(need@.take(j as int) =~= need@);
    let ghost t1 = t@;
    let mut k: usize = 0;
    while k < received.len()
        invariant
            k <= received.len(),
            needs == need@.to_set(),
            recvs == received@.to_set(),
            gossip_accepted(t0, seen@, needs, recvs),
            forall|x: usize| #[trigger] t1.contains_key(x) <==> (t0.contains_key(x) || newly_learned(seen@, needs, x)),
            forall|x: usize|
                #[trigger] t1.contains_key(x) ==> t1[x] == (if newly_learned(seen@, needs, x) {
                    DatumStatus::ReceivedUnconfirmed
                } else {
                    t0[x]
                }),
            forall|x: usize| #[trigger] t@.contains_key(x) <==> t1.contains_key(x),
            forall|x: usize|
                #[trigger] t@.contains_key(x) ==> t@[x] == (if received@.take(k as int).contains(x) {
                    DatumStatus::Confirmed
                } else {
                    t1[x]
                }),
        decreases received.len() - k,
    {
        let d = received[k];
        proof {
            assert(recvs.contains(d));
            let a = received@.take(k as int);
            let b = received@.take(k + 1);
            assert forall|x: usize| b.contains(x) <==> (a.contains(x) || x == d) by {
                if b.contains(x) {
                    let m = choose|m: int| 0 <= m < b.len() && b[m] == x;
                    if m < k {
                        assert(a[m] == x);
                    }
                }
                if a.contains(x) {
                    let m = choose|m: int| 0 <= m < a.len() && a[m] == x;
                    assert(b[m] == x);
                }
                if x == d {
                    assert(b[k as int] == x);
                }
            }
        }
        t.insert(d, DatumStatus::Confirmed);
        k = k + 1;
    }
    proof {
        assert(received@.take(k as int) =~= received@);
        assert(t@ =~= gossip_table(t0, seen@, needs, recvs));
    }
}

/// The set of data this node has seen, and one convergence table per peer.
pub struct Tracker {
    seen: HashSet<usize>,
    peers: Vec<String>,
    tables: Vec<HashMap<usize, DatumStatus>>,
}

impl Tracker {
    /// The data this node has seen.
    pub closed spec fn seen_view(&self) -> Set<usize> {
        self.seen@
    }

    /// The peers that are tracked, in the order they were added.
    pub closed spec fn peers_view(&self) -> Seq<Seq<char>> {
        ids_view(self.peers@)
    }

    /// The convergence table of each peer, in the order of `peers_view`.
    pub closed spec fn tables_view(&self) -> Seq<Map<usize, DatumStatus>> {
        self.tables@.map_values(|t: HashMap<usize, DatumStatus>| t@)
    }

    /// Well-formedness: one table per peer, no peer twice, and only seen
    /// data tracked.
    pub open spec fn wf(&self) -> bool {
        &&& self.peers_view().len() == self.tables_view().len()
        &&& self.peers_view().no_duplicates()
        &&& tables_within(self.tables_view(), self.seen_view())
    }

    /// A tracker for the given peers, with nothing seen and empty tables.
    pub fn new(peers: Vec<String>) -> (r: Tracker)
        requires
            ids_view(peers@).no_duplicates(),
        ensures
            r.wf(),
            r.seen_view() == Set::<usize>::empty(),
            r.peers_view() == ids_view(peers@),
            r.tables_view().len() == peers@.len(),
            forall|i: int| 0 <= i < peers@.len() ==> r.tables_view()[i] == Map::<usize, DatumStatus>::empty(),
    {
        let mut tables: Vec<HashMap<usize, DatumStatus>> = Vec::new();
        let mut i: usize = 0;
        while i < peers.len()
            invariant
                i <= peers.len(),
                tables@.len() == i,
                forall|j: int| 0 <= j < i ==> tables@[j]@ == Map::<usize, DatumStatus>::empty(),
            decreases peers.len() - i,
        {
            tables.push(HashMap::new());
            i = i + 1;
        }
        Tracker { seen: HashSet::new(), peers, tables }
    }

    /// Number of tracked peers.
    pub fn peer_count(&self) -> (r: usize)
        requires
            self.wf(),
        ensures
            r == self.peers_view().len(),
    {
        self.peers.len()
    }

    /// Identifier of the `i`-th tracked peer.
    pub fn peer_id(&self, i: usize) -> (r: &String)
        requires
            self.wf(),
            i < self.peers_view().len(),
        ensures
            r@ == self.peers_view()[i as int],
    {
        &self.peers[i]
    }

    /// Position of peer `p` among the tracked peers.
    pub fn peer_position(&self, p: &String) -> (r: Option<usize>)
        requires
            self.wf(),
        ensures
            match r {
                Some(i) => i < self.peers_view().len() && i == self.peers_view().index_of(p@)
                    && self.peers_view().contains(p@),
                None => !self.peers_view().contains(p@),
            },
    {
        let mut i: usize = 0;
        while i < self.peers.len()
            invariant
                self.wf(),
                i <= self.peers@.len(),
                forall|j: int| 0 <= j < i ==> self.peers@[j]@ != p@,
            decreases self.peers.len() - i,
        {
            if self.peers[i] == *p {
                proof {
                    let pv = self.peers_view();
                    assert(pv[i as int] == p@);
                    assert(pv.contains(p@));
                    let k = pv.index_of(p@);
                    assert(pv[k] == p@);
                }
                return Some(i);
            }
            i = i + 1;
        }
        proof {
            if self.peers_view().contains(p@) {
                let j = choose|j: int| 0 <= j < self.peers_view().len() && self.peers_view()[j] == p@;
                assert(self.peers@[j]@ == p@);
            }
        }
        None
    }

    /// Whether datum `d` has been seen.
    pub fn has_seen(&self, d: usize) -> (r: bool)
        ensures
            r == self.seen_view().contains(d),
    {
        self.seen.contains(&d)
    }

    /// The data seen so far, each once.
    pub fn seen_list(&self) -> (r: Vec<usize>)
        ensures
            r@.to_set() == self.seen_view(),
            r@.no_duplicates(),
    {
        set_members(&self.seen)
    }

    /// Status of datum `d` for the `i`-th peer, if it is tracked.
    pub fn status(&self, i: usize, d: usize) -> (r: Option<DatumStatus>)
        requires
            self.wf(),
            i < self.peers_view().len(),
        ensures
            r == (if self.tables_view()[i as int].contains_key(d) {
                Some(self.tables_view()[i as int][d])
            } else {
                None
            }),
    {
        match self.tables[i].get(&d) {
            Some(s) => Some(*s),
            None => None,
        }
    }

    /// The scheduler's backfill: every seen datum that a peer's table lacks
    /// is added to it as sent and unconfirmed.
    pub fn backfill(&mut self)
        requires
            old(self).wf(),
        ensures
            final(self).wf(),
            final(self).seen_view() == old(self).seen_view(),
            final(self).peers_view() == old(self).peers_view(),
            final(self).tables_view().len() == old(self).tables_view().len(),
            forall|i: int|
                0 <= i < old(self).tables_view().len() ==> #[trigger] final(self).tables_view()[i]
                    == backfill_table(old(self).tables_view()[i], old(self).seen_view()),
    {
        let ghost tables0 = self.tables_view();
        let mut i: usize = 0;
        while i < self.tables.len()
            invariant
                i <= self.tables@.len(),
                self.seen@ == old(self).seen@,
                self.peers@ == old(self).peers@,
                self.tables@.len() == old(self).tables@.len(),
                tables0 == old(self).tables_view(),
                forall|j: int| 0 <= j < i ==> #[trigger] self.tables@[j]@ == backfill_table(tables0[j], self.seen@),
                forall|j: int| i <= j < self.tables@.len() ==> #[trigger] self.tables@[j] == old(self).tables@[j],
            decreases self.tables@.len() - i,
        {
            let mut t: HashMap<usize, DatumStatus> = HashMap::new();
            self.tables.set_and_swap(i, &mut t);
            fill_table(&mut t, &self.seen);
            self.tables.set_and_swap(i, &mut t);
            i = i + 1;
        }
        proof {
            assert(self.tables_view() =~= Seq::new(tables0.len(), |j: int| backfill_table(tables0[j], self.seen@)));
            assert forall|j: int, d: usize|
                0 <= j < self.tables_view().len() && #[trigger] self.tables_view()[j].contains_key(d)
                implies self.seen_view().contains(d) by {
                if !tables0[j].contains_key(d) {
                    assert(self.seen@.contains(d));
                } else {
                    assert(old(self).tables_view()[j].contains_key(d));
                }
            }
        }
    }

    /// The data of the `i`-th peer's table that are sent and unconfirmed, and
    /// those that are received and unconfirmed.
    pub fn deltas(&self, i: usize) -> (r: (Vec<usize>, Vec<usize>))
        requires
            self.wf(),
            i < self.peers_view().len(),
        ensures
            r.0@.to_set() == with_status(self.tables_view()[i as int], DatumStatus::SentUnconfirmed),
            r.1@.to_set() == with_status(self.tables_view()[i as int], DatumStatus::ReceivedUnconfirmed),
    {
        let need = data_with_status(&self.tables[i], DatumStatus::SentUnconfirmed);
        let received = data_with_status(&self.tables[i], DatumStatus::ReceivedUnconfirmed);
        (need, received)
    }

    /// Adds every datum of `need` to the seen set.
    fn learn_all(&mut self, need: &Vec<usize>)
        requires
            old(self).peers_view().len() == old(self).tables_view().len(),
            old(self).peers_view().no_duplicates(),
            tables_within(old(self).tables_view(), old(self).seen_view().union(need@.to_set())),
        ensures
            final(self).wf(),
            final(self).seen_view() == old(self).seen_view().union(need@.to_set()),
            final(self).peers_view() == old(self).peers_view(),
            final(self).tables_view() == old(self).tables_view(),
    {
        let ghost seen0 = self.seen@;
        let mut j: usize = 0;
        while j < need.len()
            invariant
                j <= need.len(),
                self.seen@ == seen0.union(need@.take(j as int).to_set()),
                seen0 == old(self).seen@,
                self.peers@ == old(self).peers@,
                self.tables@ == old(self).tables@,
            decreases need.len() - j,
        {
            proof {
                assert(need@.take(j + 1) =~= need@.take(j as int).push(need@[j as int]));
                lemma_push_to_set(need@.take(j as int), need@[j as int]);
            }
            self.seen.insert(need[j]);
            j = j + 1;
        }
        proof {
            assert(need@.take(j as int) =~= need@);
            assert(self.seen@ =~= seen0.union(need@.to_set()));
            assert(self.tables_view() == old(self).tables_view());
        }
    }

    /// Records a gossip message from `peer`: the data it says this node needs,
    /// and the data it says it received from this node. The data needed join
    /// the seen set whoever sent them; the sender's table changes only where
    /// the sender is a peer, and the peers never change. Fails, changing
    /// nothing, where a datum reported as received is not tracked for the
    /// sender (any datum, where the sender is not a peer).
    pub fn record_gossip(&mut self, peer: &String, need: &Vec<usize>, received: &Vec<usize>) -> (r: Result<(), TrackerError>)
        requires
            old(self).wf(),
        ensures
            final(self).wf(),
            final(self).peers_view() == old(self).peers_view(),
            ({
                let accepted = gossip_accepted_from(
                    old(self).peers_view(),
                    old(self).tables_view(),
                    old(self).seen_view(),
                    peer@,
                    need@.to_set(),
                    received@.to_set(),
                );
                &&& (r is Ok <==> accepted)
                &&& accepted ==> {
                    &&& final(self).seen_view() == old(self).seen_view().union(need@.to_set())
                    &&& final(self).tables_view() == tables_after_gossip(
                        old(self).peers_view(),
                        old(self).tables_view(),
                        old(self).seen_view(),
                        peer@,
                        need@.to_set(),
                        received@.to_set(),
                    )
                }
                &&& !accepted ==> {
                    &&& final(self).seen_view() == old(self).seen_view()
                    &&& final(self).tables_view() == old(self).tables_view()
                }
            }),
    {
        let ghost needs = need@.to_set();
        let ghost recvs = received@.to_set();
        let ghost peers0 = self.peers_view();
        let ghost tables0 = self.tables_view();
        let ghost seen0 = self.seen@;
        let i = match self.peer_position(peer) {
            Some(i) => i,
            None => {
                if received.len() > 0 {
                    proof {
                        assert(recvs.contains(received@[0]));
                    }
                    return Err(TrackerError::UntrackedConfirmation);
                }
                proof {
                    assert(recvs =~= Set::<usize>::empty());
                }
                self.learn_all(need);
                return Ok(());
            },
        };
        let ghost t0 = tables0[i as int];
        proof {
            assert(t0 == self.tables@[i as int]@);
        }
        let mut k: usize = 0;
        while k < received.len()
            invariant
                self.wf(),
                self.seen@ == seen0,
                self.peers@ == old(self).peers@,
                self.tables@ == old(self).tables@,
                peers0 == old(self).peers_view(),
                tables0 == old(self).tables_view(),
                seen0 == old(self).seen_view(),
                peers0.contains(peer@),
                i == peers0.index_of(peer@),
                t0 == tables0[i as int],
                k <= received.len(),
                i < self.tables@.len(),
                t0 == self.tables@[i as int]@,
                needs == need@.to_set(),
                recvs == received@.to_set(),
                forall|j: int| 0 <= j < k ==> t0.contains_key(#[trigger] received@[j]) || newly_learned(self.seen@, needs, received@[j]),
            decreases received.len() - k,
        {
            let d = received[k];
            if !self.tables[i].contains_key(&d) {
                let fresh = vec_contains(need, d) && !self.seen.contains(&d);
                if !fresh {
                    proof {
                        assert(recvs.contains(d));
                        assert(!gossip_accepted(t0, self.seen@, needs, recvs));
                    }
                    return Err(TrackerError::UntrackedConfirmation);
                }
            }
            k = k + 1;
        }
        proof {
            assert forall|d: usize| #[trigger] recvs.contains(d) implies t0.contains_key(d) || newly_learned(self.seen@, needs, d) by {
                let j = choose|j: int| 0 <= j < received@.len() && received@[j] == d;
            }
        }
        let mut t: HashMap<usize, DatumStatus> = HashMap::new();
        self.tables.set_and_swap(i, &mut t);
        apply_gossip(&mut t, &self.seen, need, received);
        self.tables.set_and_swap(i, &mut t);
        proof {
            assert(self.tables_view() =~= tables_after_gossip(peers0, tables0, seen0, peer@, needs, recvs));
            assert(self.peers_view() == peers0);
            assert forall|x: int, d: usize|
                0 <= x < self.tables_view().len() && #[trigger] self.tables_view()[x].contains_key(d)
                implies seen0.union(needs).contains(d) by {
                if x != i {
                    assert(tables0[x].contains_key(d));
                } else if !newly_learned(seen0, needs, d) {
                    assert(t0.contains_key(d));
                }
            }
        }
        self.learn_all(need);
        Ok(())
    }

    /// Records a datum learned directly: it joins the seen set.
    pub fn record_local(&mut self, d: usize)
        requires
            old(self).wf(),
        ensures
            final(self).wf(),
            final(self).seen_view() == old(self).seen_view().insert(d),
            final(self).peers_view() == old(self).peers_view(),
            final(self).tables_view() == old(self).tables_view(),
    {
        self.seen.insert(d);
    }
}

} // verus!
