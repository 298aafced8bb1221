//! The fixed peer topology: trunk nodes in a ring, each fanning out to the
//! branch nodes of its group, and branch nodes paired within their group.
use vstd::prelude::*;
use crate::ids::{N_GROUPS, node_num, ordinal_of};

verus! {

/// Whether the node with ordinal `other` is a peer of the node with ordinal
/// `this`. The first `N_GROUPS` ordinals are trunk nodes; a trunk peers with
/// the branch nodes of its group and with its two ring neighbours; a branch
/// peers with its trunk and with the one branch that it is paired with.
pub open spec fn is_peer(this: u32, other: u32) -> bool {
    let t = this as int;
    let o = other as int;
    let g = N_GROUPS as int;
    if t < g {
        ||| (o != t && o % g == t % g)
        ||| o == (t + 1) % g
        ||| o == (t + g - 1) % g
    } else {
        ||| o == t % g
        ||| (o == t + g && o % (2 * g) == t % g)
        ||| (o + g == t && t % (2 * g) == t % g)
    }
}

/// Views of a sequence of identifiers.
pub open spec fn ids_view(ids: Seq<String>) -> Seq<Seq<char>> {
    ids.map_values(|s: String| s@)
}

/// Every identifier carries an ordinal.
pub open spec fn all_have_ordinals(ids: Seq<Seq<char>>) -> bool {
    forall|i: int| 0 <= i < ids.len() ==> (#[trigger] ordinal_of(ids[i])) is Some
}

/// The peers of the node with ordinal `me` among `roster`, in roster order,
/// each identifier taken once.
pub open spec fn peers_of(me: u32, roster: Seq<Seq<char>>) -> Seq<Seq<char>>
    decreases roster.len(),
{
    if roster.len() == 0 {
        Seq::empty()
    } else {
        let before = peers_of(me, roster.drop_last());
        let id = roster.last();
        if is_peer(me, ordinal_of(id)->0) && !before.contains(id) {
            before.push(id)
        } else {
            before
        }
    }
}

/// What the topology of a node is, given its identifier and the roster: `None`
/// where an identifier carries no ordinal, else the peers of the node.
pub open spec fn topology_of(self_id: Seq<char>, roster: Seq<Seq<char>>) -> Option<Seq<Seq<char>>> {
    if ordinal_of(self_id) is Some && all_have_ordinals(roster) {
        Some(peers_of(ordinal_of(self_id)->0, roster))
    } else {
        None
    }
}

/// No identifier stands twice among the peers.
pub proof fn lemma_peers_of_distinct(me: u32, roster: Seq<Seq<char>>)
    ensures
        peers_of(me, roster).no_duplicates(),
    decreases roster.len(),
{
    if roster.len() > 0 {
        lemma_peers_of_distinct(me, roster.drop_last());
        let before = peers_of(me, roster.drop_last());
        let id = roster.last();
        if is_peer(me, ordinal_of(id)->0) && !before.contains(id) {
            let after = before.push(id);
            assert forall|i: int, j: int| 0 <= i < after.len() && 0 <= j < after.len() && i != j implies after[i] != after[j] by {
                if i < before.len() && j < before.len() {
                } else if i < before.len() {
                    assert(before[i] == after[i]);
                } else {
                    assert(before[j] == after[j]);
                }
            }
        }
    }
}

/// The peers of a node are exactly the identifiers of the roster that the
/// peer relation admits.
pub proof fn lemma_peers_of_members(me: u32, roster: Seq<Seq<char>>, x: Seq<char>)
    ensures
        peers_of(me, roster).contains(x) <==> (roster.contains(x) && is_peer(me, ordinal_of(x)->0)),
    decreases roster.len(),
{
    if roster.len() > 0 {
        let rest = roster.drop_last();
        lemma_peers_of_members(me, rest, x);
        let before = peers_of(me, rest);
        let id = roster.last();
        assert(roster =~= rest.push(id));
        assert(roster.contains(x) <==> (rest.contains(x) || x == id)) by {
            if roster.contains(x) {
                let k = choose|k: int| 0 <= k < roster.len() && roster[k] == x;
                if k < rest.len() {
                    assert(rest[k] == x);
                }
            }
            if rest.contains(x) {
                let k = choose|k: int| 0 <= k < rest.len() && rest[k] == x;
                assert(roster[k] == x);
            }
            if x == id {
                assert(roster[roster.len() - 1] == x);
            }
        }
        if is_peer(me, ordinal_of(id)->0) && !before.contains(id) {
            let after = before.push(id);
            assert(after.contains(x) <==> (before.contains(x) || x == id)) by {
                if after.contains(x) {
                    let k = choose|k: int| 0 <= k < after.len() && after[k] == x;
                    if k < before.len() {
                        assert(before[k] == x);
                    }
                }
                if before.contains(x) {
                    let k = choose|k: int| 0 <= k < before.len() && before[k] == x;
                    assert(after[k] == x);
                }
                if x == id {
                    assert(after[after.len() - 1] == x);
                }
            }
        }
    }
}

/// Building the topology from the same identifier and roster always yields
/// the same peers.
pub proof fn lemma_topology_deterministic(
    self_id: Seq<char>,
    roster: Seq<Seq<char>>,
    first: Option<Seq<Seq<char>>>,
    second: Option<Seq<Seq<char>>>,
)
    requires
        first == topology_of(self_id, roster),
        second == topology_of(self_id, roster),
    ensures
        first == second,
{
}

/// The branch node that a branch node is paired with.
pub open spec fn partner_of(b: u32) -> int {
    let g = N_GROUPS as int;
    let x = b as int;
    if (x + g) % (2 * g) == x % g {
        x + g
    } else {
        x - g
    }
}

/// A branch node peers with exactly two nodes: its trunk, and its partner, a
/// branch node of the same group.
pub proof fn lemma_branch_peers(b: u32, o: u32)
    requires
        b >= N_GROUPS,
    ensures
        is_peer(b, o) <==> (o as int == b as int % (N_GROUPS as int) || o as int == partner_of(b)),
        partner_of(b) >= N_GROUPS,
        partner_of(b) % (N_GROUPS as int) == b as int % (N_GROUPS as int),
        partner_of(b) != b as int % (N_GROUPS as int),
{
}

/// Whether two nodes are peers does not depend on which one is asked.
pub proof fn lemma_peer_symmetric(a: u32, b: u32)
    ensures
        is_peer(a, b) == is_peer(b, a),
{
}

/// `p` is a walk of peer links among the ordinals below `n`.
pub open spec fn is_walk(p: Seq<u32>, n: u32) -> bool {
    &&& p.len() >= 1
    &&& forall|i: int| 0 <= i < p.len() ==> #[trigger] p[i] < n
    &&& forall|i: int| 0 <= i < p.len() - 1 ==> is_peer(#[trigger] p[i], p[i + 1])
}

proof fn lemma_walk_concat(p: Seq<u32>, q: Seq<u32>, n: u32)
    requires
        is_walk(p, n),
        is_walk(q, n),
        is_peer(p.last(), q[0]),
    ensures
        is_walk(p + q, n),
{
    let r = p + q;
    assert forall|i: int| 0 <= i < r.len() implies #[trigger] r[i] < n by {
        if i >= p.len() {
            assert(r[i] == q[i - p.len()]);
        }
    }
    assert forall|i: int| 0 <= i < r.len() - 1 implies is_peer(#[trigger] r[i], r[i + 1]) by {
        if i < p.len() - 1 {
            assert(r[i] == p[i] && r[i + 1] == p[i + 1]);
        } else if i == p.len() - 1 {
            assert(r[i] == p.last() && r[i + 1] == q[0]);
        } else {
            assert(r[i] == q[i - p.len()] && r[i + 1] == q[i - p.len() + 1]);
        }
    }
}

proof fn lemma_single_walk(a: u32, n: u32)
    requires
        a < n,
    ensures
        is_walk(seq![a], n),
{
}

proof fn lemma_pair_walk(a: u32, b: u32, n: u32)
    requires
        a < n,
        b < n,
        is_peer(a, b),
    ensures
        is_walk(seq![a, b], n),
{
    let p = seq![a, b];
    assert forall|i: int| 0 <= i < p.len() - 1 implies is_peer(#[trigger] p[i], p[i + 1]) by {
        assert(i == 0);
    }
}

/// A walk from trunk `t` to trunk `u` around the ring, of at most two links.
pub open spec fn ring_walk(t: u32, u: u32) -> Seq<u32> {
    let g = N_GROUPS as int;
    let d = (u as int - t as int + g) % g;
    if d == 0 {
        seq![t]
    } else if d == 1 || d == g - 1 {
        seq![t, u]
    } else if d == 2 {
        seq![t, ((t as int + 1) % g) as u32, u]
    } else {
        seq![t, ((t as int + g - 1) % g) as u32, u]
    }
}

proof fn lemma_ring_walk(t: u32, u: u32, n: u32)
    requires
        t < N_GROUPS,
        u < N_GROUPS,
        N_GROUPS <= n,
    ensures
        is_walk(ring_walk(t, u), n),
        ring_walk(t, u)[0] == t,
        ring_walk(t, u).last() == u,
        ring_walk(t, u).len() <= 3,
{
    let g = N_GROUPS as int;
    let d = (u as int - t as int + g) % g;
    if d == 0 {
        lemma_single_walk(t, n);
    } else if d == 1 || d == g - 1 {
        lemma_pair_walk(t, u, n);
    } else if d == 2 {
        let m = ((t as int + 1) % g) as u32;
        lemma_pair_walk(t, m, n);
        lemma_pair_walk(m, u, n);
        assert(seq![t, m, u] =~= seq![t, m] + seq![u]);
        lemma_single_walk(u, n);
        lemma_walk_concat(seq![t, m], seq![u], n);
    } else {
        let m = ((t as int + g - 1) % g) as u32;
        lemma_pair_walk(t, m, n);
        lemma_pair_walk(m, u, n);
        assert(seq![t, m, u] =~= seq![t, m] + seq![u]);
        lemma_single_walk(u, n);
        lemma_walk_concat(seq![t, m], seq![u], n);
    }
}

/// With every ordinal below `n` in the roster (and at least the trunk
/// nodes), any two nodes are joined by a walk of at most four links.
pub proof fn lemma_four_hops(n: u32, a: u32, b: u32)
    requires
        N_GROUPS <= n,
        a < n,
        b < n,
    ensures
        exists|p: Seq<u32>| is_walk(p, n) && p[0] == a && p.last() == b && p.len() <= 5,
{
    let ta = a % N_GROUPS;
    let tb = b % N_GROUPS;
    lemma_ring_walk(ta, tb, n);
    let mid = ring_walk(ta, tb);
    let up = if a < N_GROUPS {
        mid
    } else {
        lemma_single_walk(a, n);
        lemma_walk_concat(seq![a], mid, n);
        seq![a] + mid
    };
    assert(is_walk(up, n) && up[0] == a && up.last() == tb && up.len() <= 4);
    if b < N_GROUPS {
        assert(is_walk(up, n) && up[0] == a && up.last() == b && up.len() <= 5);
    } else {
        lemma_single_walk(b, n);
        lemma_walk_concat(up, seq![b], n);
        let p = up + seq![b];
        assert(p.last() == b);
        assert(p[0] == a);
        assert(is_walk(p, n) && p[0] == a && p.last() == b && p.len() <= 5);
    }
}

/// Some identifier of the roster carries ordinal `o`.
pub open spec fn carries(roster: Seq<Seq<char>>, o: u32) -> bool {
    exists|k: int| 0 <= k < roster.len() && #[trigger] ordinal_of(roster[k]) == Some(o)
}

/// Every ordinal below `n` is carried by an identifier of the roster, every
/// identifier carries one below `n`, and no two identifiers share one.
pub open spec fn roster_of_ordinals(roster: Seq<Seq<char>>, n: u32) -> bool {
    &&& all_have_ordinals(roster)
    &&& forall|k: int| 0 <= k < roster.len() ==> (#[trigger] ordinal_of(roster[k]))->0 < n
    &&& forall|o: u32| o < n ==> #[trigger] carries(roster, o)
    &&& forall|k: int, l: int|
        0 <= k < roster.len() && 0 <= l < roster.len() && #[trigger] ordinal_of(roster[k])
            == #[trigger] ordinal_of(roster[l]) ==> roster[k] == roster[l]
}

/// `p` is a walk among identifiers in which each one is among the peers
/// that the topology gives to the one before it.
pub open spec fn is_peer_walk(p: Seq<Seq<char>>, roster: Seq<Seq<char>>) -> bool {
    &&& p.len() >= 1
    &&& forall|i: int|
        0 <= i < p.len() - 1 ==> peers_of(ordinal_of(#[trigger] p[i])->0, roster).contains(p[i + 1])
}

/// The identifier of the roster that carries ordinal `o`.
pub open spec fn id_with_ordinal(roster: Seq<Seq<char>>, o: u32) -> Seq<char> {
    roster[choose|k: int| 0 <= k < roster.len() && ordinal_of(roster[k]) == Some(o)]
}

/// In a roster whose identifiers carry the ordinals `0..n` once each (with at
/// least the trunk nodes), the peer sets that the topology gives join any
/// two members by a walk of at most four links.
pub proof fn lemma_roster_four_hops(roster: Seq<Seq<char>>, n: u32, a: Seq<char>, b: Seq<char>)
    requires
        N_GROUPS <= n,
        roster_of_ordinals(roster, n),
        roster.contains(a),
        roster.contains(b),
    ensures
        exists|p: Seq<Seq<char>>| is_peer_walk(p, roster) && p[0] == a && p.last() == b && p.len() <= 5,
{
    let ka = choose|k: int| 0 <= k < roster.len() && roster[k] == a;
    let kb = choose|k: int| 0 <= k < roster.len() && roster[k] == b;
    let oa = ordinal_of(roster[ka])->0;
    let ob = ordinal_of(roster[kb])->0;
    lemma_four_hops(n, oa, ob);
    let w = choose|w: Seq<u32>| is_walk(w, n) && w[0] == oa && w.last() == ob && w.len() <= 5;
    let p = Seq::new(
        w.len(),
        |i: int|
            if i == 0 {
                a
            } else if i == w.len() - 1 {
                b
            } else {
                id_with_ordinal(roster, w[i])
            },
    );
    assert forall|i: int| 0 <= i < p.len() implies roster.contains(#[trigger] p[i]) && ordinal_of(p[i]) == Some(w[i]) by {
        if i == 0 {
            assert(roster[ka] == a);
        } else if i == w.len() - 1 {
            assert(roster[kb] == b);
        } else {
            assert(w[i] < n);
            assert(carries(roster, w[i]));
            let k = choose|k: int| 0 <= k < roster.len() && ordinal_of(roster[k]) == Some(w[i]);
            assert(roster[k] == p[i]);
        }
    }
    if w.len() == 1 {
        assert(ordinal_of(roster[ka]) == ordinal_of(roster[kb]));
        assert(a == b);
        assert(p[0] == a && p.last() == b);
    }
    assert forall|i: int| 0 <= i < p.len() - 1 implies peers_of(ordinal_of(#[trigger] p[i])->0, roster).contains(p[i + 1]) by {
        assert(is_peer(w[i], w[i + 1]));
        assert(roster.contains(p[i + 1]));
        lemma_peers_of_members(w[i], roster, p[i + 1]);
    }
    assert(is_peer_walk(p, roster) && p[0] == a && p.last() == b && p.len() <= 5);
}

/// Executable form of `is_peer`.
pub fn are_peers(this: u32, other: u32) -> (r: bool)
    ensures
        r == is_peer(this, other),
{
    let t = this as u64;
    let o = other as u64;
    let g = N_GROUPS as u64;
    if t < g {
        (o != t && o % g == t % g) || o == (t + 1) % g || o == (t + g - 1) % g
    } else {
        o == t % g || (o == t + g && o % (2 * g) == t % g) || (o + g == t && t % (2 * g) == t % g)
    }
}

/// Whether `ids` holds an identifier equal to `id`.
fn contains_id(ids: &Vec<String>, id: &String) -> (r: bool)
    ensures
        r == ids_view(ids@).contains(id@),
{
    let mut i: usize = 0;
    while i < ids.len()
        invariant
            i <= ids.len(),
            forall|j: int| 0 <= j < i ==> ids@[j]@ != id@,
        decreases ids.len() - i,
    {
        if ids[i] == *id {
            assert(ids_view(ids@)[i as int] == id@);
            return true;
        }
        i = i + 1;
    }
    proof {
        if ids_view(ids@).contains(id@) {
            let j = choose|j: int| 0 <= j < ids_view(ids@).len() && ids_view(ids@)[j] == id@;
            assert(ids@[j]@ == id@);
        }
    }
    false
}

/// Builds the fixed set of peers that the node `self_id` gossips with, from
/// the full roster of the cluster (which includes the node itself). `None`
/// where the node's identifier or one in the roster carries no ordinal.
pub fn peer_set(self_id: &String, roster: &Vec<String>) -> (r: Option<Vec<String>>)
    ensures
        match r {
            Some(v) => topology_of(self_id@, ids_view(roster@)) == Some(ids_view(v@)),
            None => topology_of(self_id@, ids_view(roster@)) is None,
        },
{
    let me = match node_num(self_id) {
        Some(o) => o,
        None => return None,
    };
    let ghost ids = ids_view(roster@);
    let mut peers: Vec<String> = Vec::new();
    let mut i: usize = 0;
    while i < roster.len()
        invariant
            i <= roster.len(),
            ids == ids_view(roster@),
            ordinal_of(self_id@) == Some(me),
            all_have_ordinals(ids.take(i as int)),
            ids_view(peers@) == peers_of(me, ids.take(i as int)),
        decreases roster.len() - i,
    {
        let other = match node_num(&roster[i]) {
            Some(o) => o,
            None => {
                assert(ids[i as int] == roster@[i as int]@);
                return None;
            },
        };
        proof {
            assert(ids.take(i + 1).drop_last() =~= ids.take(i as int));
            assert(ids.take(i + 1).last() == roster@[i as int]@);
        }
        if are_peers(me, other) && !contains_id(&peers, &roster[i]) {
            peers.push(roster[i].clone());
            assert(ids_view(peers@) =~= ids_view(peers@).drop_last().push(roster@[i as int]@));
        }
        proof {
            assert forall|j: int| 0 <= j < i + 1 implies (#[trigger] ordinal_of(ids.take(i + 1)[j])) is Some by {
                if j < i {
                    assert(ids.take(i + 1)[j] == ids.take(i as int)[j]);
                }
            }
        }
        i = i + 1;
    }
    assert(ids.take(i as int) =~= ids);
    Some(peers)
}

} // verus!
