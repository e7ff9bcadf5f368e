//! The state of a driver as plain values, the predicates that its contracts
//! are stated in, and the lemmas that its proofs rest on.

use vstd::prelude::*;

use crate::dag::{
    dag_grows, dag_wf, in_dag, in_round, in_slot, lemma_digest_one_round, lemma_in_dag_grows, parents_present, placeable,
    slot_taken,
};
use crate::driver::AckMessage;
use crate::missing::MissingView;
use crate::types::{CertifiedNodeAck, CertifiedNodeRequest, Digest, NodeView, Parent, PeerId};

verus! {

/// A pending node as plain values.
pub ghost struct PendingView {
    pub node: NodeView,
    /// Digests of the parents that are not in the DAG yet.
    pub missing_parents: Seq<Digest>,
}

/// The state of a driver as plain values.
pub ghost struct DriverView {
    pub my_id: PeerId,
    pub dag: Seq<Seq<NodeView>>,
    pub pending: Seq<PendingView>,
    pub missing: Seq<(Digest, MissingView)>,
}

/// Whether a node with digest `d` is pending.
pub open spec fn is_pending(v: DriverView, d: Digest) -> bool {
    exists|i: int| 0 <= i < v.pending.len() && #[trigger] v.pending[i].node.digest == d
}

/// Whether `m` is a pending node.
pub open spec fn pending_node(v: DriverView, m: NodeView) -> bool {
    exists|j: int| 0 <= j < v.pending.len() && #[trigger] v.pending[j].node == m
}

/// Whether the missing index has an entry for `d`.
pub open spec fn is_missing(v: DriverView, d: Digest) -> bool {
    exists|i: int| 0 <= i < v.missing.len() && #[trigger] v.missing[i].0 == d
}

/// The missing entry for `m` lists the pending node `p` among those that wait
/// on it.
pub open spec fn listed_dependency(v: DriverView, m: Digest, p: Digest) -> bool {
    exists|mi: int| 0 <= mi < v.missing.len() && #[trigger] v.missing[mi].0 == m && v.missing[mi].1.dependencies.contains(p)
}

/// The invariant of a driver, but for the links from pending nodes to the
/// missing index: the DAG is well formed, every pending node still misses a
/// parent, every missing entry has a node that waits on it and lists each
/// dependency and peer once, the two indices
/// hold each digest at most once, a pending node is neither in the DAG nor
/// fetched, and each parent of a pending node is missing or in the DAG.
pub open spec fn indices_wf(v: DriverView) -> bool {
    &&& dag_wf(v.dag)
    &&& forall|i: int| 0 <= i < v.pending.len() ==> #[trigger] v.pending[i].missing_parents.len() > 0
    &&& forall|i: int, j: int| 0 <= i < v.pending.len() && 0 <= j < v.pending.len() && i != j
        ==> #[trigger] v.pending[i].node.digest != #[trigger] v.pending[j].node.digest
    &&& forall|i: int| 0 <= i < v.missing.len() ==> #[trigger] v.missing[i].1.dependencies.len() > 0
    &&& forall|i: int| 0 <= i < v.missing.len()
        ==> (#[trigger] v.missing[i]).1.dependencies.no_duplicates() && v.missing[i].1.peers.no_duplicates()
    &&& forall|i: int, j: int| 0 <= i < v.missing.len() && 0 <= j < v.missing.len() && i != j
        ==> #[trigger] v.missing[i].0 != #[trigger] v.missing[j].0
    &&& forall|i: int| 0 <= i < v.pending.len() ==> !in_dag(v.dag, #[trigger] v.pending[i].node.digest)
    &&& forall|i: int, j: int|
        0 <= i < v.pending.len() && 0 <= j < v.missing.len() && #[trigger] v.missing[j].1.need_to_send_request
            ==> v.missing[j].0 != #[trigger] v.pending[i].node.digest
    &&& forall|i: int| 0 <= i < v.pending.len() ==> pending_parents_ok(v.dag, #[trigger] v.pending[i])
}

/// A pending node is above genesis, has parents, and each of its parents is
/// in its missing list or in the DAG.
pub open spec fn pending_parents_ok(d: Seq<Seq<NodeView>>, p: PendingView) -> bool {
    &&& p.node.round >= 1
    &&& p.node.parents.len() > 0
    &&& forall|k: int| 0 <= k < p.node.parents.len()
        ==> p.missing_parents.contains(#[trigger] p.node.parents[k].digest) || in_dag(d, p.node.parents[k].digest)
}

/// Every parent that a pending node other than `x` misses has a missing
/// entry that lists the node.
pub open spec fn linked_outside(v: DriverView, x: Digest) -> bool {
    forall|pi: int, q: int|
        0 <= pi < v.pending.len() && 0 <= q < v.pending[pi].missing_parents.len() && v.pending[pi].node.digest != x
            ==> listed_dependency(v, #[trigger] v.pending[pi].missing_parents[q], v.pending[pi].node.digest)
}

/// Every parent that a pending node misses has a missing entry that lists
/// the node.
pub open spec fn linked(v: DriverView) -> bool {
    forall|pi: int, q: int| 0 <= pi < v.pending.len() && 0 <= q < v.pending[pi].missing_parents.len()
        ==> listed_dependency(v, #[trigger] v.pending[pi].missing_parents[q], v.pending[pi].node.digest)
}

/// Every parent that a pending node misses has a missing entry that lists
/// the node, but for `d`, whose entry is gone: the nodes that miss `d` are
/// all in `rest`.
pub open spec fn linked_but(v: DriverView, d: Digest, rest: Seq<Digest>) -> bool {
    forall|pi: int, q: int| 0 <= pi < v.pending.len() && 0 <= q < v.pending[pi].missing_parents.len()
        ==> if #[trigger] v.pending[pi].missing_parents[q] == d {
            rest.contains(v.pending[pi].node.digest)
        } else {
            listed_dependency(v, v.pending[pi].missing_parents[q], v.pending[pi].node.digest)
        }
}

/// The pending node `p` misses `m`.
pub open spec fn dependent_pending(v: DriverView, p: Digest, m: Digest) -> bool {
    exists|pi: int| 0 <= pi < v.pending.len() && #[trigger] v.pending[pi].node.digest == p && v.pending[pi].missing_parents.contains(m)
}

/// Every node that a missing entry lists as waiting on it is a pending node
/// that misses it.
pub open spec fn back_linked(v: DriverView) -> bool {
    forall|mi: int, t: int| 0 <= mi < v.missing.len() && 0 <= t < v.missing[mi].1.dependencies.len()
        ==> dependent_pending(v, #[trigger] v.missing[mi].1.dependencies[t], v.missing[mi].0)
}

/// The invariant of a driver: [`indices_wf`], every parent that a pending
/// node misses has a missing entry that lists the node, and every node that
/// a missing entry lists is a pending node that misses it.
pub open spec fn driver_wf(v: DriverView) -> bool {
    indices_wf(v) && linked(v) && back_linked(v)
}

/// The node of author `s` in round `r`.
pub open spec fn node_at(d: Seq<Seq<NodeView>>, r: int, s: PeerId) -> NodeView {
    d[r][choose|i: int| 0 <= i < d[r].len() && #[trigger] d[r][i].source == s]
}

/// What is sent for request `q`: the requested node, to the requester and
/// with no ack asked, when the DAG holds a node at the requested round and
/// author with the requested digest; nothing otherwise.
pub open spec fn response_for(v: DriverView, q: CertifiedNodeRequest) -> Option<(NodeView, PeerId, bool)> {
    if slot_taken(v.dag, q.node_round as int, q.node_source) && node_at(v.dag, q.node_round as int, q.node_source).digest
        == q.digest {
        Some((node_at(v.dag, q.node_round as int, q.node_source), q.requester, false))
    } else {
        None
    }
}

/// The fetch request for missing entry `e`, and the peers it goes to.
pub open spec fn request_for(me: PeerId, e: (Digest, MissingView)) -> (CertifiedNodeRequest, Seq<PeerId>) {
    (
        CertifiedNodeRequest {
            node_source: e.1.node_source,
            node_round: e.1.node_round,
            digest: e.0,
            requester: me,
        },
        e.1.peers,
    )
}

/// One fetch request for each missing entry that must be fetched, in the
/// order of the index.
pub open spec fn fetch_requests(v: DriverView) -> Seq<(CertifiedNodeRequest, Seq<PeerId>)> {
    v.missing.filter(|e: (Digest, MissingView)| e.1.need_to_send_request).map_values(
        |e: (Digest, MissingView)| request_for(v.my_id, e),
    )
}

/// What a cascade leaves of `v0` in `v1`: the same validator, a DAG that only
/// grew, pending nodes that were all pending before, and missing entries that
/// were all there before.
pub open spec fn cascade_frame(v0: DriverView, v1: DriverView) -> bool {
    &&& v1.my_id == v0.my_id
    &&& dag_grows(v0.dag, v1.dag)
    &&& pending_shrunk(v0, v1)
    &&& forall|i: int| 0 <= i < v1.missing.len() ==> is_missing(v0, #[trigger] v1.missing[i].0)
}

/// `p` was pending in `v` as the same node, missing at least the parents
/// that `p` misses.
pub open spec fn was_pending(v: DriverView, p: PendingView) -> bool {
    exists|j: int|
        0 <= j < v.pending.len() && #[trigger] v.pending[j].node == p.node
            && forall|x: Digest| p.missing_parents.contains(x) ==> v.pending[j].missing_parents.contains(x)
}

/// Every pending node of `v1` was pending in `v0`, and misses no parent that
/// it did not miss there.
pub open spec fn pending_shrunk(v0: DriverView, v1: DriverView) -> bool {
    forall|i: int| 0 <= i < v1.pending.len() ==> was_pending(v0, #[trigger] v1.pending[i])
}

/// Peers grow from `v0` to `v1`, and nothing else changes.
pub open spec fn peers_frame(v0: DriverView, v1: DriverView) -> bool {
    &&& v1.my_id == v0.my_id
    &&& v1.dag == v0.dag
    &&& v1.pending == v0.pending
    &&& v1.missing.len() == v0.missing.len()
    &&& forall|i: int| 0 <= i < v0.missing.len() ==> {
        &&& (#[trigger] v1.missing[i]).0 == v0.missing[i].0
        &&& v1.missing[i].1 == MissingView { peers: v1.missing[i].1.peers, ..v0.missing[i].1 }
        &&& forall|x: PeerId| v0.missing[i].1.peers.contains(x) ==> #[trigger] v1.missing[i].1.peers.contains(x)
    }
}

/// The missing parent `m` of a pending node is taken care of for `source`:
/// where `m` must be fetched, `source` is among its peers; where `m` is held
/// as a pending node, it is in `seen` or still in `queued`.
pub open spec fn parent_covered(v: DriverView, seen: Seq<Digest>, queued: Seq<Digest>, m: Digest, source: PeerId) -> bool {
    forall|mi: int| 0 <= mi < v.missing.len() && #[trigger] v.missing[mi].0 == m ==> if v.missing[mi].1.need_to_send_request {
        v.missing[mi].1.peers.contains(source)
    } else {
        seen.contains(m) || queued.contains(m) || !is_pending(v, m)
    }
}

/// Every missing parent of every pending node in `seen` is taken care of.
pub open spec fn seen_closed(v: DriverView, seen: Seq<Digest>, queued: Seq<Digest>, source: PeerId) -> bool {
    forall|pi: int, q: int|
        0 <= pi < v.pending.len() && seen.contains(v.pending[pi].node.digest) && 0 <= q < v.pending[pi].missing_parents.len()
            ==> parent_covered(v, seen, queued, #[trigger] v.pending[pi].missing_parents[q], source)
}

/// `source` was added to the peers of every missing node that must be
/// fetched and that the pending node `d` waits on, directly or through
/// pending nodes in between: some set of pending nodes holds `d` and the
/// pending parents of each of its members, and every fetchable missing parent
/// of its members has `source` among its peers.
pub open spec fn peer_propagated(v: DriverView, d: Digest, source: PeerId) -> bool {
    exists|seen: Seq<Digest>| seen.contains(d) && #[trigger] seen_closed(v, seen, Seq::empty(), source)
}

/// A pending node's parents stay accounted for while the DAG grows.
pub(crate) proof fn lemma_parents_ok_grows(a: Seq<Seq<NodeView>>, b: Seq<Seq<NodeView>>, p: PendingView)
    requires
        pending_parents_ok(a, p),
        dag_grows(a, b),
    ensures
        pending_parents_ok(b, p),
{
    assert forall|k: int| 0 <= k < p.node.parents.len() implies p.missing_parents.contains(#[trigger] p.node.parents[k].digest)
        || in_dag(b, p.node.parents[k].digest) by {
        if !p.missing_parents.contains(p.node.parents[k].digest) {
            lemma_in_dag_grows(a, b, p.node.parents[k].digest);
        }
    }
}

/// Striking a digest of the DAG off a pending node's missing list keeps its
/// parents accounted for.
pub(crate) proof fn lemma_parents_ok_strike(d: Seq<Seq<NodeView>>, p: PendingView, x: Digest)
    requires
        pending_parents_ok(d, p),
        in_dag(d, x),
    ensures
        pending_parents_ok(d, PendingView { node: p.node, missing_parents: p.missing_parents.filter(|y: Digest| y != x) }),
{
    let f = p.missing_parents.filter(|y: Digest| y != x);
    assert forall|k: int| 0 <= k < p.node.parents.len() implies f.contains(#[trigger] p.node.parents[k].digest)
        || in_dag(d, p.node.parents[k].digest) by {
        let y = p.node.parents[k].digest;
        if y != x && p.missing_parents.contains(y) {
            let t = choose|t: int| 0 <= t < p.missing_parents.len() && p.missing_parents[t] == y;
            p.missing_parents.lemma_filter_contains(|z: Digest| z != x, t);
        }
    }
}

/// A covered parent stays covered when what was seen or queued stays seen, queued or not pending.
pub(crate) proof fn lemma_covered_mono(
    v: DriverView,
    s1: Seq<Digest>,
    w1: Seq<Digest>,
    s2: Seq<Digest>,
    w2: Seq<Digest>,
    m: Digest,
    source: PeerId,
)
    requires
        parent_covered(v, s1, w1, m, source),
        (s1.contains(m) || w1.contains(m)) ==> (s2.contains(m) || w2.contains(m) || !is_pending(v, m)),
    ensures
        parent_covered(v, s2, w2, m, source),
{
}

/// A covered parent stays covered while peers only grow.
pub(crate) proof fn lemma_covered_peers(v1: DriverView, v2: DriverView, s: Seq<Digest>, w: Seq<Digest>, m: Digest, source: PeerId)
    requires
        parent_covered(v1, s, w, m, source),
        peers_frame(v1, v2),
    ensures
        parent_covered(v2, s, w, m, source),
{
    assert forall|mi: int| 0 <= mi < v2.missing.len() && #[trigger] v2.missing[mi].0 == m implies if v2.missing[mi].1.need_to_send_request {
        v2.missing[mi].1.peers.contains(source)
    } else {
        s.contains(m) || w.contains(m) || !is_pending(v2, m)
    } by {
        assert(v1.missing[mi].0 == m);
        if v2.missing[mi].1.need_to_send_request {
            assert(v1.missing[mi].1.peers.contains(source));
        }
    }
}

/// Taking the last element off a sequence keeps every other element in it.
pub(crate) proof fn lemma_pop_contains(s: Seq<Digest>, y: Digest)
    requires
        s.len() > 0,
        s.contains(y),
        y != s.last(),
    ensures
        s.drop_last().contains(y),
{
    let k = choose|k: int| 0 <= k < s.len() && s[k] == y;
    assert(s.drop_last()[k] == y);
}

/// A listed dependency depends on the missing index alone.
pub(crate) proof fn lemma_listed_same_missing(v0: DriverView, v1: DriverView, m: Digest, p: Digest)
    requires
        listed_dependency(v0, m, p),
        v1.missing == v0.missing,
    ensures
        listed_dependency(v1, m, p),
{
    let mi = choose|mi: int| 0 <= mi < v0.missing.len() && #[trigger] v0.missing[mi].0 == m && v0.missing[mi].1.dependencies.contains(p);
    assert(v1.missing[mi] == v0.missing[mi]);
}

/// The links depend on the two indices alone.
pub(crate) proof fn lemma_linked_same_indices(v0: DriverView, v1: DriverView)
    requires
        linked(v0),
        v1.pending == v0.pending,
        v1.missing == v0.missing,
    ensures
        linked(v1),
{
    assert forall|pi: int, q: int| 0 <= pi < v1.pending.len() && 0 <= q < v1.pending[pi].missing_parents.len()
        implies listed_dependency(v1, #[trigger] v1.pending[pi].missing_parents[q], v1.pending[pi].node.digest) by {
        assert(listed_dependency(v0, v0.pending[pi].missing_parents[q], v0.pending[pi].node.digest));
        lemma_listed_same_missing(v0, v1, v0.pending[pi].missing_parents[q], v0.pending[pi].node.digest);
    }
}

/// Removing the missing entry for `d` leaves the nodes that miss `d` among its dependencies.
pub(crate) proof fn lemma_linked_but_start(prev: DriverView, cur: DriverView, mi: int, d: Digest)
    requires
        driver_wf(prev),
        0 <= mi < prev.missing.len(),
        prev.missing[mi].0 == d,
        cur == (DriverView { missing: prev.missing.remove(mi), ..prev }),
    ensures
        linked_but(cur, d, prev.missing[mi].1.dependencies),
{
    assert forall|pi: int, q: int| 0 <= pi < cur.pending.len() && 0 <= q < cur.pending[pi].missing_parents.len()
        implies if #[trigger] cur.pending[pi].missing_parents[q] == d {
            prev.missing[mi].1.dependencies.contains(cur.pending[pi].node.digest)
        } else {
            listed_dependency(cur, cur.pending[pi].missing_parents[q], cur.pending[pi].node.digest)
        } by {
        let m = cur.pending[pi].missing_parents[q];
        let p = cur.pending[pi].node.digest;
        assert(listed_dependency(prev, prev.pending[pi].missing_parents[q], p));
        let k = choose|k: int| 0 <= k < prev.missing.len() && #[trigger] prev.missing[k].0 == m && prev.missing[k].1.dependencies.contains(p);
        if m != d {
            assert(k != mi);
            if k < mi {
                assert(cur.missing[k] == prev.missing[k]);
            } else {
                assert(cur.missing[k - 1] == prev.missing[k]);
            }
        }
    }
}

/// An element of a suffix other than its head is in the shorter suffix.
pub(crate) proof fn lemma_rest_contains(deps: Seq<Digest>, j: int, x: Digest)
    requires
        0 <= j < deps.len(),
        deps.subrange(j, deps.len() as int).contains(x),
        x != deps[j],
    ensures
        deps.subrange(j + 1, deps.len() as int).contains(x),
{
    let t = choose|t: int| 0 <= t < deps.len() - j && deps.subrange(j, deps.len() as int)[t] == x;
    assert(t != 0);
    assert(deps.subrange(j + 1, deps.len() as int)[t - 1] == x);
}

/// Striking `d` off the missing parents of dependency `deps[j]` moves the suffix on.
pub(crate) proof fn lemma_linked_but_update(v0: DriverView, v1: DriverView, d: Digest, deps: Seq<Digest>, j: int, i: int)
    requires
        indices_wf(v0),
        0 <= j < deps.len(),
        0 <= i < v0.pending.len(),
        v0.pending[i].node.digest == deps[j],
        linked_but(v0, d, deps.subrange(j, deps.len() as int)),
        v1 == (DriverView {
            pending: v0.pending.update(
                i,
                PendingView { node: v0.pending[i].node, missing_parents: v0.pending[i].missing_parents.filter(|y: Digest| y != d) },
            ),
            ..v0
        }),
    ensures
        linked_but(v1, d, deps.subrange(j + 1, deps.len() as int)),
{
    let f = v0.pending[i].missing_parents.filter(|y: Digest| y != d);
    assert forall|pi: int, q: int| 0 <= pi < v1.pending.len() && 0 <= q < v1.pending[pi].missing_parents.len()
        implies if #[trigger] v1.pending[pi].missing_parents[q] == d {
            deps.subrange(j + 1, deps.len() as int).contains(v1.pending[pi].node.digest)
        } else {
            listed_dependency(v1, v1.pending[pi].missing_parents[q], v1.pending[pi].node.digest)
        } by {
        let p = v1.pending[pi].node.digest;
        if pi == i {
            v0.pending[i].missing_parents.lemma_filter_pred(|y: Digest| y != d, q);
            assert(f.contains(f[q]));
            v0.pending[i].missing_parents.lemma_filter_contains_rev(|y: Digest| y != d, f[q]);
            let t = choose|t: int| 0 <= t < v0.pending[i].missing_parents.len() && v0.pending[i].missing_parents[t] == f[q];
            assert(v0.pending[i].missing_parents[t] == f[q]);
            assert(listed_dependency(v0, v0.pending[i].missing_parents[t], p));
            lemma_listed_same_missing(v0, v1, f[q], p);
        } else {
            assert(v1.pending[pi] == v0.pending[pi]);
            assert(v0.pending[pi].missing_parents[q] == v1.pending[pi].missing_parents[q]);
            if v1.pending[pi].missing_parents[q] == d {
                assert(p != deps[j]);
                lemma_rest_contains(deps, j, p);
            } else {
                assert(listed_dependency(v0, v0.pending[pi].missing_parents[q], p));
                lemma_listed_same_missing(v0, v1, v0.pending[pi].missing_parents[q], p);
            }
        }
    }
}

/// Removing the pending dependency `deps[j]` moves the suffix on.
pub(crate) proof fn lemma_linked_but_remove(v0: DriverView, v1: DriverView, d: Digest, deps: Seq<Digest>, j: int, i: int)
    requires
        indices_wf(v0),
        0 <= j < deps.len(),
        0 <= i < v0.pending.len(),
        v0.pending[i].node.digest == deps[j],
        linked_but(v0, d, deps.subrange(j, deps.len() as int)),
        v1 == (DriverView { pending: v0.pending.remove(i), ..v0 }),
    ensures
        linked_but(v1, d, deps.subrange(j + 1, deps.len() as int)),
{
    assert forall|pi: int, q: int| 0 <= pi < v1.pending.len() && 0 <= q < v1.pending[pi].missing_parents.len()
        implies if #[trigger] v1.pending[pi].missing_parents[q] == d {
            deps.subrange(j + 1, deps.len() as int).contains(v1.pending[pi].node.digest)
        } else {
            listed_dependency(v1, v1.pending[pi].missing_parents[q], v1.pending[pi].node.digest)
        } by {
        let k = if pi < i { pi } else { pi + 1 };
        assert(v1.pending[pi] == v0.pending[k]);
        assert(v0.pending[k].missing_parents[q] == v1.pending[pi].missing_parents[q]);
        if v1.pending[pi].missing_parents[q] == d {
            assert(k != i);
            assert(v0.pending[k].node.digest != deps[j]);
            lemma_rest_contains(deps, j, v1.pending[pi].node.digest);
        } else {
            assert(listed_dependency(v0, v0.pending[k].missing_parents[q], v0.pending[k].node.digest));
            lemma_listed_same_missing(v0, v1, v0.pending[k].missing_parents[q], v0.pending[k].node.digest);
        }
    }
}

/// The links depend on the two indices alone, whatever the DAG.
pub(crate) proof fn lemma_linked_but_dag(v0: DriverView, v1: DriverView, d: Digest, rest: Seq<Digest>)
    requires
        linked_but(v0, d, rest),
        v1.pending == v0.pending,
        v1.missing == v0.missing,
    ensures
        linked_but(v1, d, rest),
{
    assert forall|pi: int, q: int| 0 <= pi < v1.pending.len() && 0 <= q < v1.pending[pi].missing_parents.len()
        implies if #[trigger] v1.pending[pi].missing_parents[q] == d {
            rest.contains(v1.pending[pi].node.digest)
        } else {
            listed_dependency(v1, v1.pending[pi].missing_parents[q], v1.pending[pi].node.digest)
        } by {
        assert(v0.pending[pi].missing_parents[q] == v1.pending[pi].missing_parents[q]);
    }
}

/// With no dependency left, no pending node misses `d` and all links hold.
pub(crate) proof fn lemma_linked_but_done(v: DriverView, d: Digest, rest: Seq<Digest>)
    requires
        linked_but(v, d, rest),
        rest.len() == 0,
    ensures
        linked(v),
{
    assert forall|pi: int, q: int| 0 <= pi < v.pending.len() && 0 <= q < v.pending[pi].missing_parents.len()
        implies listed_dependency(v, #[trigger] v.pending[pi].missing_parents[q], v.pending[pi].node.digest) by {
        if v.pending[pi].missing_parents[q] == d {
            assert(rest.contains(v.pending[pi].node.digest));
        }
    }
}

/// A sequence of distinct pending digests is no longer than the pending index.
pub(crate) proof fn lemma_pending_digests_bound(v: DriverView, s: Seq<Digest>)
    requires
        s.no_duplicates(),
        forall|k: int| 0 <= k < s.len() ==> is_pending(v, #[trigger] s[k]),
    ensures
        s.len() <= v.pending.len(),
{
    let ds = v.pending.map_values(|p: PendingView| p.node.digest);
    assert forall|x: Digest| s.to_set().contains(x) implies ds.to_set().contains(x) by {
        let k = choose|k: int| 0 <= k < s.len() && s[k] == x;
        assert(is_pending(v, s[k]));
        let j = choose|j: int| 0 <= j < v.pending.len() && #[trigger] v.pending[j].node.digest == x;
        assert(ds[j] == x);
    }
    s.unique_seq_to_set();
    ds.lemma_cardinality_of_set();
    vstd::set_lib::lemma_len_subset(s.to_set(), ds.to_set());
}

/// Every missing entry of `v0` is in `v1` at the same place, under the same
/// key, author, round and fetch flag, with at least the same dependencies and
/// peers; entries may be added after them.
pub open spec fn missing_grows(v0: DriverView, v1: DriverView) -> bool {
    &&& v1.missing.len() >= v0.missing.len()
    &&& forall|i: int| 0 <= i < v0.missing.len() ==> {
        &&& (#[trigger] v1.missing[i]).0 == v0.missing[i].0
        &&& v1.missing[i].1.node_source == v0.missing[i].1.node_source
        &&& v1.missing[i].1.node_round == v0.missing[i].1.node_round
        &&& v1.missing[i].1.need_to_send_request == v0.missing[i].1.need_to_send_request
        &&& forall|x: Digest| v0.missing[i].1.dependencies.contains(x) ==> #[trigger] v1.missing[i].1.dependencies.contains(x)
        &&& forall|x: PeerId| v0.missing[i].1.peers.contains(x) ==> #[trigger] v1.missing[i].1.peers.contains(x)
    }
}

/// The missing entry for `m` lists `d` among the nodes that wait on it and
/// `s` among its peers.
pub open spec fn waits_on(v: DriverView, m: Digest, d: Digest, s: PeerId) -> bool {
    exists|mi: int|
        0 <= mi < v.missing.len() && #[trigger] v.missing[mi].0 == m && v.missing[mi].1.dependencies.contains(d)
            && v.missing[mi].1.peers.contains(s)
}

/// The distinct digests of `ps`.
pub open spec fn parent_digests(ps: Seq<Parent>, ds: Seq<Digest>) -> bool {
    &&& ds.no_duplicates()
    &&& forall|x: Digest| ds.contains(x) <==> exists|k: int| 0 <= k < ps.len() && #[trigger] ps[k].digest == x
}

/// Links survive growth of the missing index.
pub(crate) proof fn lemma_linked_outside_grows(v0: DriverView, v1: DriverView, x: Digest)
    requires
        linked_outside(v0, x),
        missing_grows(v0, v1),
        v1.pending == v0.pending,
    ensures
        linked_outside(v1, x),
{
    assert forall|pi: int, q: int|
        0 <= pi < v1.pending.len() && 0 <= q < v1.pending[pi].missing_parents.len() && v1.pending[pi].node.digest != x
            implies listed_dependency(v1, #[trigger] v1.pending[pi].missing_parents[q], v1.pending[pi].node.digest) by {
        let m = v1.pending[pi].missing_parents[q];
        let p = v1.pending[pi].node.digest;
        assert(listed_dependency(v0, v0.pending[pi].missing_parents[q], p));
        let mi = choose|mi: int| 0 <= mi < v0.missing.len() && #[trigger] v0.missing[mi].0 == m && v0.missing[mi].1.dependencies.contains(p);
        assert(v1.missing[mi].0 == m);
    }
}

/// A registered wait survives growth of the missing index.
pub(crate) proof fn lemma_waits_on_grows(v0: DriverView, v1: DriverView, m: Digest, d: Digest, s: PeerId)
    requires
        waits_on(v0, m, d, s),
        missing_grows(v0, v1),
    ensures
        waits_on(v1, m, d, s),
{
    let mi = choose|mi: int|
        0 <= mi < v0.missing.len() && #[trigger] v0.missing[mi].0 == m && v0.missing[mi].1.dependencies.contains(d)
            && v0.missing[mi].1.peers.contains(s);
    assert(v1.missing[mi].0 == m);
}

/// A propagated peer stays propagated while peers only grow.
pub(crate) proof fn lemma_propagated_peers(v1: DriverView, v2: DriverView, d: Digest, s: PeerId)
    requires
        peer_propagated(v1, d, s),
        peers_frame(v1, v2),
    ensures
        peer_propagated(v2, d, s),
{
    let seen = choose|seen: Seq<Digest>| seen.contains(d) && #[trigger] seen_closed(v1, seen, Seq::empty(), s);
    assert forall|pi: int, q: int|
        0 <= pi < v2.pending.len() && seen.contains(v2.pending[pi].node.digest) && 0 <= q < v2.pending[pi].missing_parents.len()
            implies parent_covered(v2, seen, Seq::empty(), #[trigger] v2.pending[pi].missing_parents[q], s) by {
        lemma_covered_peers(v1, v2, seen, Seq::empty(), v2.pending[pi].missing_parents[q], s);
    }
    assert(seen_closed(v2, seen, Seq::empty(), s));
}

/// `v` with the fetch flag of the missing entry for `d` cleared: `d` is held
/// as a pending node from now on.
pub open spec fn with_requests_disabled(v: DriverView, d: Digest) -> DriverView {
    DriverView {
        missing: v.missing.map_values(
            |e: (Digest, MissingView)|
                if e.0 == d {
                    (e.0, MissingView { need_to_send_request: false, ..e.1 })
                } else {
                    e
                },
        ),
        ..v
    }
}

/// An entry that a new pending node `n` added to the missing index of `v0`:
/// one of its parents that had no entry, with the author that the first
/// parent of that digest names, to be fetched unless it is held as a
/// pending node (or is `n` itself).
pub open spec fn new_missing_entry(v0: DriverView, n: NodeView, e: (Digest, MissingView)) -> bool {
    &&& exists|k: int|
        0 <= k < n.parents.len() && #[trigger] n.parents[k].digest == e.0 && n.parents[k].peer == e.1.node_source
            && forall|k2: int| 0 <= k2 < k ==> n.parents[k2].digest != e.0
    &&& !is_missing(v0, e.0)
    &&& e.1.node_round == n.round - 1
    &&& e.1.need_to_send_request == !(is_pending(v0, e.0) || e.0 == n.digest)
}

/// After a push, the pending digests are the old ones and the new one.
pub(crate) proof fn lemma_pending_push(v0: DriverView, v1: DriverView, p: PendingView)
    requires
        v1.pending == v0.pending.push(p),
    ensures
        forall|x: Digest| is_pending(v1, x) <==> (is_pending(v0, x) || x == p.node.digest),
{
    assert forall|x: Digest| is_pending(v1, x) <==> (is_pending(v0, x) || x == p.node.digest) by {
        if is_pending(v0, x) {
            let j = choose|j: int| 0 <= j < v0.pending.len() && #[trigger] v0.pending[j].node.digest == x;
            assert(v1.pending[j].node.digest == x);
        }
        if x == p.node.digest {
            assert(v1.pending[v0.pending.len() as int].node.digest == x);
        }
        if is_pending(v1, x) {
            let j = choose|j: int| 0 <= j < v1.pending.len() && #[trigger] v1.pending[j].node.digest == x;
            if j < v0.pending.len() {
                assert(v0.pending[j].node.digest == x);
            }
        }
    }
}

/// Growing peers is a way of growing the missing index.
pub(crate) proof fn lemma_peers_frame_grows(v0: DriverView, v1: DriverView)
    requires
        peers_frame(v0, v1),
    ensures
        missing_grows(v0, v1),
{
    assert forall|i: int| 0 <= i < v0.missing.len() implies {
        &&& (#[trigger] v1.missing[i]).0 == v0.missing[i].0
        &&& v1.missing[i].1.node_source == v0.missing[i].1.node_source
        &&& v1.missing[i].1.node_round == v0.missing[i].1.node_round
        &&& v1.missing[i].1.need_to_send_request == v0.missing[i].1.need_to_send_request
        &&& forall|x: Digest| v0.missing[i].1.dependencies.contains(x) ==> #[trigger] v1.missing[i].1.dependencies.contains(x)
        &&& forall|x: PeerId| v0.missing[i].1.peers.contains(x) ==> #[trigger] v1.missing[i].1.peers.contains(x)
    } by {
        assert(v1.missing[i].1 == MissingView { peers: v1.missing[i].1.peers, ..v0.missing[i].1 });
    }
}

/// `n` is new to the driver: it is above the genesis round, its slot is free
/// and its digest is neither in the DAG nor pending.
pub open spec fn fresh(v: DriverView, n: NodeView) -> bool {
    &&& n.round >= 1
    &&& !slot_taken(v.dag, n.round as int, n.source)
    &&& !in_dag(v.dag, n.digest)
    &&& !is_pending(v, n.digest)
}

/// The parents of `n` that are not in the round below it, in their order.
pub open spec fn absent_parents(v: DriverView, n: NodeView) -> Seq<Parent> {
    n.parents.filter(|p: Parent| !in_round(v.dag, n.round - 1, p.digest))
}

/// Delivery of `n` changes nothing: the node is known already, claims the
/// genesis round, or has all its parents present and yet a round that the
/// DAG cannot reach.
pub open spec fn dropped(v: DriverView, n: NodeView) -> bool {
    !fresh(v, n) || (absent_parents(v, n).len() == 0 && n.round > v.dag.len())
}

/// The driver holds `n`: its slot is taken, or its digest is in the DAG or
/// pending.
pub open spec fn held(v: DriverView, n: NodeView) -> bool {
    slot_taken(v.dag, n.round as int, n.source) || in_dag(v.dag, n.digest) || is_pending(v, n.digest)
}

/// The acknowledgement owed for `n`: one to its author when asked for.
pub open spec fn ack_for(v: DriverView, n: NodeView, ack_required: bool) -> Option<AckMessage> {
    if ack_required {
        Some(AckMessage { ack: CertifiedNodeAck { digest: n.digest, acker: v.my_id }, recipient: n.source })
    } else {
        None
    }
}

/// `v1` is what delivering `n` to `v0` leaves.
///
/// A dropped node changes nothing. A node whose parents are all in the round
/// below it is written into the DAG, and the cascade that follows is as
/// [`cascade_done`] states: every pending node whose missing parents all
/// entered the DAG is released, and written into its slot unless blocked.
/// Any other node becomes the last pending node, waiting on exactly its absent parents, and
/// the missing entry for it, if any, is no longer fetched; each
/// of those has a missing entry that lists the node and its author, entries
/// created for them are fetched unless the parent is itself pending, and the
/// author is handed on as a peer to the fetchable ancestors behind pending
/// parents.
pub open spec fn delivered(v0: DriverView, n: NodeView, v1: DriverView) -> bool {
    &&& driver_wf(v1)
    &&& v1.my_id == v0.my_id
    &&& dropped(v0, n) ==> v1 == v0
    &&& !dropped(v0, n) ==> held(v1, n)
    &&& !dropped(v0, n) && absent_parents(v0, n).len() == 0 ==> {
        &&& in_slot(v1.dag, n)
        &&& cascade_done(v0, n, v1)
        &&& cascade_frame(v0, v1)
        &&& !is_missing(v1, n.digest)
    }
    &&& !dropped(v0, n) && absent_parents(v0, n).len() > 0 ==> {
        let ap = absent_parents(v0, n);
        &&& v1.dag == v0.dag
        &&& v1.pending.len() == v0.pending.len() + 1
        &&& v1.pending.drop_last() == v0.pending
        &&& v1.pending.last().node == n
        &&& parent_digests(ap, v1.pending.last().missing_parents)
        &&& missing_grows(with_requests_disabled(v0, n.digest), v1)
        &&& forall|k: int| 0 <= k < ap.len() ==> waits_on(v1, #[trigger] ap[k].digest, n.digest, n.source)
        &&& forall|i: int| v0.missing.len() <= i < v1.missing.len()
            ==> new_missing_entry(v0, NodeView { parents: ap, ..n }, #[trigger] v1.missing[i])
        &&& forall|k: int| 0 <= k < ap.len() && is_pending(v1, #[trigger] ap[k].digest)
            ==> peer_propagated(v1, ap[k].digest, n.source)
    }
}


/// `x` entered the DAG between `v0` and `v1`.
pub open spec fn inserted(v0: DriverView, v1: DriverView, x: Digest) -> bool {
    in_dag(v1.dag, x) && !in_dag(v0.dag, x)
}

/// `m` was pending in `v0` and is no longer pending in `v1`.
pub open spec fn released(v0: DriverView, v1: DriverView, m: NodeView) -> bool {
    pending_node(v0, m) && !pending_node(v1, m)
}

/// `m` cannot be written into `d`: its slot holds a node, or one of its
/// parents is not in the round below it.
pub open spec fn blocked(d: Seq<Seq<NodeView>>, m: NodeView) -> bool {
    slot_taken(d, m.round as int, m.source) || !parents_present(d, m)
}

/// Every parent of `m` is somewhere in `d`.
pub open spec fn parents_in_dag(d: Seq<Seq<NodeView>>, m: NodeView) -> bool {
    forall|k: int| 0 <= k < m.parents.len() ==> in_dag(d, #[trigger] m.parents[k].digest)
}

/// A node released from pending is in its slot, or is blocked for good: its
/// parents are all in the DAG, and its slot is taken or a parent stands in
/// another round than the one below it.
pub open spec fn settled(d: Seq<Seq<NodeView>>, m: NodeView) -> bool {
    in_slot(d, m) || (blocked(d, m) && parents_in_dag(d, m))
}

/// `p` was pending in `v0` as the same node, and its missing parents are the
/// ones it had there less those that entered the DAG since.
pub open spec fn list_kept(v0: DriverView, v1: DriverView, p: PendingView) -> bool {
    exists|j: int|
        0 <= j < v0.pending.len() && #[trigger] v0.pending[j].node == p.node
            && (forall|x: Digest| p.missing_parents.contains(x) ==> v0.pending[j].missing_parents.contains(x))
            && (forall|x: Digest| v0.pending[j].missing_parents.contains(x) && !inserted(v0, v1, x) ==> p.missing_parents.contains(x))
}

/// `e` is an entry of the missing index of `v`.
pub open spec fn entry_of(v: DriverView, e: (Digest, MissingView)) -> bool {
    exists|j: int| 0 <= j < v.missing.len() && v.missing[j] == e
}

/// What the promotion cascade that follows the insertion of `n` leaves of
/// `v0` in `v1`:
/// - the DAG grew, holds `n`, and every node in it was there before, is `n`,
///   or was released from pending;
/// - every released node is settled: in its slot, or blocked for good;
/// - a pending node whose missing parents all entered the DAG was released;
/// - every remaining pending node misses the parents it missed before, less
///   exactly those that entered the DAG;
/// - the missing index lost exactly the entries for digests that entered the
///   DAG, and the others are unchanged.
pub open spec fn cascade_done(v0: DriverView, n: NodeView, v1: DriverView) -> bool {
    &&& v1.my_id == v0.my_id
    &&& dag_grows(v0.dag, v1.dag)
    &&& in_slot(v1.dag, n)
    &&& forall|m: NodeView| #[trigger] in_slot(v1.dag, m) ==> in_slot(v0.dag, m) || m == n || released(v0, v1, m)
    &&& forall|j: int| 0 <= j < v0.pending.len() && released(v0, v1, #[trigger] v0.pending[j].node)
        ==> settled(v1.dag, v0.pending[j].node)
    &&& forall|j: int| 0 <= j < v0.pending.len()
        && (forall|x: Digest| v0.pending[j].missing_parents.contains(x) ==> inserted(v0, v1, x))
        ==> released(v0, v1, #[trigger] v0.pending[j].node)
    &&& forall|i: int| 0 <= i < v1.pending.len() ==> list_kept(v0, v1, #[trigger] v1.pending[i])
    &&& forall|i: int, x: Digest| 0 <= i < v1.pending.len() && #[trigger] v1.pending[i].missing_parents.contains(x)
        ==> !inserted(v0, v1, x)
    &&& forall|i: int| 0 <= i < v1.missing.len() ==> entry_of(v0, #[trigger] v1.missing[i])
    &&& forall|x: Digest| #[trigger] is_missing(v1, x) <==> (is_missing(v0, x) && !inserted(v0, v1, x))
}

/// The cascade's state before it takes the next digest off the worklist `w`:
/// as [`cascade_done`] says of the end, but inserted digests may still wait
/// in `w`, and releases are yet to come.
pub open spec fn cascade_inv(v0: DriverView, n: NodeView, v: DriverView, w: Seq<Digest>) -> bool {
    &&& v.my_id == v0.my_id
    &&& dag_grows(v0.dag, v.dag)
    &&& in_slot(v.dag, n)
    &&& forall|x: Digest| w.contains(x) ==> inserted(v0, v, x)
    &&& forall|m: NodeView| #[trigger] in_slot(v.dag, m) ==> in_slot(v0.dag, m) || m == n || released(v0, v, m)
    &&& forall|j: int| 0 <= j < v0.pending.len() && released(v0, v, #[trigger] v0.pending[j].node)
        ==> settled(v.dag, v0.pending[j].node)
    &&& forall|i: int| 0 <= i < v.pending.len() ==> list_kept(v0, v, #[trigger] v.pending[i])
    &&& forall|i: int| 0 <= i < v.missing.len() ==> entry_of(v0, #[trigger] v.missing[i])
    &&& forall|x: Digest| #[trigger] is_missing(v0, x) && !inserted(v0, v, x) ==> is_missing(v, x)
    &&& forall|x: Digest| #[trigger] is_missing(v, x) && inserted(v0, v, x) ==> w.contains(x)
}

/// Inserted digests that a pending node still misses are queued in `w`.
pub open spec fn awaited_queued(v0: DriverView, v: DriverView, w: Seq<Digest>) -> bool {
    forall|i: int, x: Digest|
        0 <= i < v.pending.len() && #[trigger] v.pending[i].missing_parents.contains(x) && inserted(v0, v, x) ==> w.contains(x)
}

/// Inserted digests that a pending node still misses are queued in `w`, but
/// for `d`, which is being taken off the pending nodes.
pub open spec fn awaited_queued_but(v0: DriverView, v: DriverView, w: Seq<Digest>, d: Digest) -> bool {
    forall|i: int, x: Digest|
        0 <= i < v.pending.len() && #[trigger] v.pending[i].missing_parents.contains(x) && inserted(v0, v, x) && x != d
            ==> w.contains(x)
}

/// A settled node stays settled while the DAG grows.
pub(crate) proof fn lemma_settled_grows(a: Seq<Seq<NodeView>>, b: Seq<Seq<NodeView>>, m: NodeView)
    requires
        dag_wf(b),
        dag_grows(a, b),
        settled(a, m),
    ensures
        settled(b, m),
{
    if !in_slot(a, m) {
        assert forall|k: int| 0 <= k < m.parents.len() implies in_dag(b, #[trigger] m.parents[k].digest) by {
            lemma_in_dag_grows(a, b, m.parents[k].digest);
        }
        if !slot_taken(a, m.round as int, m.source) {
            let k = choose|k: int| 0 <= k < m.parents.len() && !in_round(a, m.round - 1, #[trigger] m.parents[k].digest);
            let x = m.parents[k].digest;
            assert(in_dag(a, x));
            let r = choose|r: int| #[trigger] in_round(a, r, x);
            assert(in_round(b, r, x));
            if in_round(b, m.round - 1, x) {
                lemma_digest_one_round(b, r, m.round - 1, x);
            }
        }
    }
}

/// A node above genesis with parents, all of them in the DAG, that cannot be
/// placed is blocked.
pub(crate) proof fn lemma_unplaceable_blocked(d: Seq<Seq<NodeView>>, m: NodeView)
    requires
        m.round >= 1,
        m.parents.len() > 0,
        !placeable(d, m),
    ensures
        blocked(d, m),
{
    if m.round > d.len() && !slot_taken(d, m.round as int, m.source) {
        assert(!in_round(d, m.round - 1, m.parents[0].digest));
    }
}


/// With the worklist empty, the cascade is done.
pub(crate) proof fn lemma_cascade_end(v0: DriverView, n: NodeView, v: DriverView, w: Seq<Digest>)
    requires
        driver_wf(v0),
        driver_wf(v),
        !in_dag(v0.dag, n.digest),
        cascade_inv(v0, n, v, w),
        awaited_queued(v0, v, w),
        w.len() == 0,
    ensures
        cascade_done(v0, n, v),
        cascade_frame(v0, v),
        !is_missing(v, n.digest),
{
    assert(in_round(v.dag, n.round as int, n.digest));
    assert forall|x: Digest| #[trigger] is_missing(v, x) implies is_missing(v0, x) && !inserted(v0, v, x) by {
        let t = choose|t: int| 0 <= t < v.missing.len() && #[trigger] v.missing[t].0 == x;
        assert(entry_of(v0, v.missing[t]));
        let j = choose|j: int| 0 <= j < v0.missing.len() && v0.missing[j] == v.missing[t];
        assert(v0.missing[j].0 == x);
        if inserted(v0, v, x) {
            assert(w.contains(x));
        }
    }
    assert forall|i: int, x: Digest| 0 <= i < v.pending.len() && #[trigger] v.pending[i].missing_parents.contains(x)
        implies !inserted(v0, v, x) by {
        if inserted(v0, v, x) {
            assert(w.contains(x));
        }
    }
    assert forall|j: int| 0 <= j < v0.pending.len()
        && (forall|x: Digest| v0.pending[j].missing_parents.contains(x) ==> inserted(v0, v, x))
        implies released(v0, v, #[trigger] v0.pending[j].node) by {
        assert(pending_node(v0, v0.pending[j].node));
        if pending_node(v, v0.pending[j].node) {
            let i = choose|i: int| 0 <= i < v.pending.len() && #[trigger] v.pending[i].node == v0.pending[j].node;
            assert(list_kept(v0, v, v.pending[i]));
            let j1 = choose|j1: int|
                0 <= j1 < v0.pending.len() && #[trigger] v0.pending[j1].node == v.pending[i].node
                    && (forall|x: Digest| v.pending[i].missing_parents.contains(x) ==> v0.pending[j1].missing_parents.contains(x))
                    && (forall|x: Digest| v0.pending[j1].missing_parents.contains(x) && !inserted(v0, v, x) ==> v.pending[i].missing_parents.contains(x));
            assert(v0.pending[j1].node.digest == v0.pending[j].node.digest);
            assert(j1 == j);
            let x = v.pending[i].missing_parents[0];
            assert(v.pending[i].missing_parents.contains(x));
        }
    }
    assert forall|i: int| 0 <= i < v.pending.len() implies was_pending(v0, #[trigger] v.pending[i]) by {
        assert(list_kept(v0, v, v.pending[i]));
    }
    assert forall|i: int| 0 <= i < v.missing.len() implies is_missing(v0, #[trigger] v.missing[i].0) by {
        assert(is_missing(v, v.missing[i].0));
    }
}


/// What entered the DAG stays entered while the DAG grows.
pub(crate) proof fn lemma_inserted_grows(v0: DriverView, va: DriverView, vb: DriverView)
    requires
        dag_grows(va.dag, vb.dag),
    ensures
        forall|x: Digest| inserted(v0, va, x) ==> #[trigger] inserted(v0, vb, x),
{
    assert forall|x: Digest| inserted(v0, va, x) implies #[trigger] inserted(v0, vb, x) by {
        lemma_in_dag_grows(va.dag, vb.dag, x);
    }
}

/// A kept list stays kept while more digests enter the DAG.
pub(crate) proof fn lemma_list_kept_grows(v0: DriverView, va: DriverView, vb: DriverView, p: PendingView)
    requires
        list_kept(v0, va, p),
        forall|x: Digest| inserted(v0, va, x) ==> #[trigger] inserted(v0, vb, x),
    ensures
        list_kept(v0, vb, p),
{
    let j = choose|j: int|
        0 <= j < v0.pending.len() && #[trigger] v0.pending[j].node == p.node
            && (forall|x: Digest| p.missing_parents.contains(x) ==> v0.pending[j].missing_parents.contains(x))
            && (forall|x: Digest| v0.pending[j].missing_parents.contains(x) && !inserted(v0, va, x) ==> p.missing_parents.contains(x));
    assert forall|x: Digest| v0.pending[j].missing_parents.contains(x) && !inserted(v0, vb, x) implies p.missing_parents.contains(x) by {
        if inserted(v0, va, x) {
            assert(inserted(v0, vb, x));
        }
    }
}


/// What entered the DAG depends on the DAG alone.
pub(crate) proof fn lemma_same_dag(v0: DriverView, va: DriverView, vb: DriverView)
    requires
        va.dag == vb.dag,
    ensures
        forall|x: Digest| #[trigger] inserted(v0, vb, x) == inserted(v0, va, x),
{
}

/// Membership in the missing index depends on the index alone.
pub(crate) proof fn lemma_same_missing(va: DriverView, vb: DriverView)
    requires
        va.missing == vb.missing,
    ensures
        forall|x: Digest| #[trigger] is_missing(vb, x) == is_missing(va, x),
{
    assert forall|x: Digest| #[trigger] is_missing(vb, x) == is_missing(va, x) by {
        if is_missing(va, x) {
            let t = choose|t: int| 0 <= t < va.missing.len() && #[trigger] va.missing[t].0 == x;
            assert(vb.missing[t].0 == x);
        }
        if is_missing(vb, x) {
            let t = choose|t: int| 0 <= t < vb.missing.len() && #[trigger] vb.missing[t].0 == x;
            assert(va.missing[t].0 == x);
        }
    }
}

/// Being pending depends on the nodes of the pending index alone.
pub(crate) proof fn lemma_same_pending(va: DriverView, vb: DriverView)
    requires
        va.pending.len() == vb.pending.len(),
        forall|i: int| 0 <= i < va.pending.len() ==> #[trigger] va.pending[i].node == vb.pending[i].node,
    ensures
        forall|m: NodeView| #[trigger] pending_node(vb, m) == pending_node(va, m),
{
    assert forall|m: NodeView| #[trigger] pending_node(vb, m) == pending_node(va, m) by {
        if pending_node(va, m) {
            let t = choose|t: int| 0 <= t < va.pending.len() && #[trigger] va.pending[t].node == m;
            assert(vb.pending[t].node == m);
        }
        if pending_node(vb, m) {
            let t = choose|t: int| 0 <= t < vb.pending.len() && #[trigger] vb.pending[t].node == m;
            assert(va.pending[t].node == m);
        }
    }
}

/// Removing a pending node keeps the cascade's state, but for that node,
/// which is released.
pub(crate) proof fn lemma_cascade_inv_release(v0: DriverView, n: NodeView, va: DriverView, vb: DriverView, w: Seq<Digest>, i: int)
    requires
        indices_wf(va),
        cascade_inv(v0, n, va, w),
        0 <= i < va.pending.len(),
        vb == (DriverView { pending: va.pending.remove(i), ..va }),
    ensures
        released(v0, vb, va.pending[i].node),
        forall|x: Digest| #[trigger] is_missing(vb, x) == is_missing(va, x),
        forall|x: Digest| #[trigger] inserted(v0, vb, x) == inserted(v0, va, x),
        forall|m: NodeView| pending_node(vb, m) ==> #[trigger] pending_node(va, m),
{
    let p = va.pending[i];
    assert(list_kept(v0, va, p));
    assert forall|m: NodeView| pending_node(vb, m) implies #[trigger] pending_node(va, m) by {
        let t = choose|t: int| 0 <= t < vb.pending.len() && #[trigger] vb.pending[t].node == m;
        let t0 = if t < i { t } else { t + 1 };
        assert(vb.pending[t] == va.pending[t0]);
    }
    if pending_node(vb, p.node) {
        let t = choose|t: int| 0 <= t < vb.pending.len() && #[trigger] vb.pending[t].node == p.node;
        let t0 = if t < i { t } else { t + 1 };
        assert(vb.pending[t] == va.pending[t0]);
        assert(va.pending[t0].node.digest == va.pending[i].node.digest);
    }
    assert forall|x: Digest| #[trigger] is_missing(vb, x) == is_missing(va, x) by {
        if is_missing(va, x) {
            let t = choose|t: int| 0 <= t < va.missing.len() && #[trigger] va.missing[t].0 == x;
            assert(vb.missing[t].0 == x);
        }
        if is_missing(vb, x) {
            let t = choose|t: int| 0 <= t < vb.missing.len() && #[trigger] vb.missing[t].0 == x;
            assert(va.missing[t].0 == x);
        }
    }
}


/// Adding an element that is not there keeps a sequence free of duplicates.
pub(crate) proof fn lemma_push_unique(s: Seq<u64>, x: u64)
    requires
        s.no_duplicates(),
    ensures
        (if s.contains(x) { s } else { s.push(x) }).no_duplicates(),
{
    if !s.contains(x) {
        let t = s.push(x);
        assert forall|a: int, b: int| 0 <= a < t.len() && 0 <= b < t.len() && a != b implies t[a] != t[b] by {
            if a == s.len() {
                assert(s[b] == t[b]);
            }
            if b == s.len() {
                assert(s[a] == t[a]);
            }
        }
    }
}


/// `e1` is `e0`, or `e0` with `source` added to its peers, where `e0` is
/// fetched and did not have it.
pub open spec fn peer_added(e0: MissingView, e1: MissingView, source: PeerId) -> bool {
    e1 == e0 || (e0.need_to_send_request && !e0.peers.contains(source) && e1 == MissingView {
        peers: e0.peers.push(source),
        ..e0
    })
}

/// From `v0` to `v1` the missing entries only gained `source`, and only
/// where they are fetched.
pub open spec fn only_source_added(v0: DriverView, v1: DriverView, source: PeerId) -> bool {
    &&& v1.missing.len() == v0.missing.len()
    &&& forall|i: int| 0 <= i < v0.missing.len() ==> peer_added(v0.missing[i].1, (#[trigger] v1.missing[i]).1, source)
}


/// The reverse links depend on the pending index and on the keys and
/// dependencies of the missing index alone.
pub(crate) proof fn lemma_back_linked_same(va: DriverView, vb: DriverView)
    requires
        back_linked(va),
        vb.pending == va.pending,
        vb.missing.len() == va.missing.len(),
        forall|i: int| 0 <= i < va.missing.len() ==> (#[trigger] vb.missing[i]).0 == va.missing[i].0
            && vb.missing[i].1.dependencies == va.missing[i].1.dependencies,
    ensures
        back_linked(vb),
{
    assert forall|mi: int, t: int| 0 <= mi < vb.missing.len() && 0 <= t < vb.missing[mi].1.dependencies.len()
        implies dependent_pending(vb, #[trigger] vb.missing[mi].1.dependencies[t], vb.missing[mi].0) by {
        assert(vb.missing[mi].0 == va.missing[mi].0);
        assert(dependent_pending(va, va.missing[mi].1.dependencies[t], va.missing[mi].0));
        let pi = choose|pi: int| 0 <= pi < va.pending.len() && #[trigger] va.pending[pi].node.digest == va.missing[mi].1.dependencies[t]
            && va.pending[pi].missing_parents.contains(va.missing[mi].0);
        assert(vb.pending[pi] == va.pending[pi]);
    }
}


/// Removing a missing entry keeps the reverse links of the others.
pub(crate) proof fn lemma_back_linked_remove_entry(va: DriverView, vb: DriverView, mi: int)
    requires
        back_linked(va),
        0 <= mi < va.missing.len(),
        vb == (DriverView { missing: va.missing.remove(mi), ..va }),
    ensures
        back_linked(vb),
{
    assert forall|i: int, t: int| 0 <= i < vb.missing.len() && 0 <= t < vb.missing[i].1.dependencies.len()
        implies dependent_pending(vb, #[trigger] vb.missing[i].1.dependencies[t], vb.missing[i].0) by {
        let k = if i < mi { i } else { i + 1 };
        assert(vb.missing[i] == va.missing[k]);
        assert(dependent_pending(va, va.missing[k].1.dependencies[t], va.missing[k].0));
        let pi = choose|pi: int| 0 <= pi < va.pending.len() && #[trigger] va.pending[pi].node.digest == va.missing[k].1.dependencies[t]
            && va.pending[pi].missing_parents.contains(va.missing[k].0);
        assert(vb.pending[pi] == va.pending[pi]);
    }
}

/// A new pending node at the end keeps the reverse links.
pub(crate) proof fn lemma_back_linked_push(va: DriverView, vb: DriverView, p: PendingView)
    requires
        back_linked(va),
        vb == (DriverView { pending: va.pending.push(p), ..va }),
    ensures
        back_linked(vb),
{
    assert forall|i: int, t: int| 0 <= i < vb.missing.len() && 0 <= t < vb.missing[i].1.dependencies.len()
        implies dependent_pending(vb, #[trigger] vb.missing[i].1.dependencies[t], vb.missing[i].0) by {
        assert(dependent_pending(va, va.missing[i].1.dependencies[t], va.missing[i].0));
        let pi = choose|pi: int| 0 <= pi < va.pending.len() && #[trigger] va.pending[pi].node.digest == va.missing[i].1.dependencies[t]
            && va.pending[pi].missing_parents.contains(va.missing[i].0);
        assert(vb.pending[pi] == va.pending[pi]);
    }
}

/// Striking `d`, which has no entry, off the pending node at `pi` keeps the
/// reverse links.
pub(crate) proof fn lemma_back_linked_strike(va: DriverView, vb: DriverView, pi: int, d: Digest)
    requires
        back_linked(va),
        indices_wf(va),
        !is_missing(va, d),
        0 <= pi < va.pending.len(),
        vb == (DriverView {
            pending: va.pending.update(
                pi,
                PendingView { node: va.pending[pi].node, missing_parents: va.pending[pi].missing_parents.filter(|y: Digest| y != d) },
            ),
            ..va
        }),
    ensures
        back_linked(vb),
{
    assert forall|i: int, t: int| 0 <= i < vb.missing.len() && 0 <= t < vb.missing[i].1.dependencies.len()
        implies dependent_pending(vb, #[trigger] vb.missing[i].1.dependencies[t], vb.missing[i].0) by {
        let m = va.missing[i].0;
        let p = va.missing[i].1.dependencies[t];
        assert(dependent_pending(va, p, m));
        let k = choose|k: int| 0 <= k < va.pending.len() && #[trigger] va.pending[k].node.digest == p && va.pending[k].missing_parents.contains(m);
        assert(va.missing[i].0 == m);
        assert(is_missing(va, m));
        if k == pi {
            assert(m != d);
            let q = choose|q: int| 0 <= q < va.pending[pi].missing_parents.len() && va.pending[pi].missing_parents[q] == m;
            va.pending[pi].missing_parents.lemma_filter_contains(|y: Digest| y != d, q);
            assert(vb.pending[pi].missing_parents.contains(m));
            assert(vb.pending[pi].node.digest == p);
        } else {
            assert(vb.pending[k] == va.pending[k]);
        }
    }
}

/// Removing the pending node at `pi`, which misses nothing but `d`, which
/// has no entry, keeps the reverse links.
pub(crate) proof fn lemma_back_linked_release(va: DriverView, vb: DriverView, pi: int, d: Digest)
    requires
        back_linked(va),
        indices_wf(va),
        !is_missing(va, d),
        0 <= pi < va.pending.len(),
        forall|x: Digest| va.pending[pi].missing_parents.contains(x) ==> x == d,
        vb == (DriverView { pending: va.pending.remove(pi), ..va }),
    ensures
        back_linked(vb),
{
    assert forall|i: int, t: int| 0 <= i < vb.missing.len() && 0 <= t < vb.missing[i].1.dependencies.len()
        implies dependent_pending(vb, #[trigger] vb.missing[i].1.dependencies[t], vb.missing[i].0) by {
        let m = va.missing[i].0;
        let p = va.missing[i].1.dependencies[t];
        assert(dependent_pending(va, p, m));
        let k = choose|k: int| 0 <= k < va.pending.len() && #[trigger] va.pending[k].node.digest == p && va.pending[k].missing_parents.contains(m);
        if k == pi {
            assert(m == d);
            assert(is_missing(va, d));
        }
        let k1 = if k < pi { k } else { k - 1 };
        assert(vb.pending[k1] == va.pending[k]);
    }
}


/// Listing the pending node `p`, which misses `m`, as a dependent of the
/// entry for `m` keeps the reverse links.
pub(crate) proof fn lemma_back_linked_extend(va: DriverView, vb: DriverView, p: Digest, m: Digest)
    requires
        back_linked(va),
        dependent_pending(va, p, m),
        vb.pending == va.pending,
        forall|i: int, x: Digest| 0 <= i < vb.missing.len() && #[trigger] vb.missing[i].1.dependencies.contains(x)
            ==> (i < va.missing.len() && vb.missing[i].0 == va.missing[i].0 && va.missing[i].1.dependencies.contains(x))
                || (x == p && vb.missing[i].0 == m),
    ensures
        back_linked(vb),
{
    assert forall|i: int, t: int| 0 <= i < vb.missing.len() && 0 <= t < vb.missing[i].1.dependencies.len()
        implies dependent_pending(vb, #[trigger] vb.missing[i].1.dependencies[t], vb.missing[i].0) by {
        let x = vb.missing[i].1.dependencies[t];
        assert(vb.missing[i].1.dependencies.contains(x));
        if i < va.missing.len() && vb.missing[i].0 == va.missing[i].0 && va.missing[i].1.dependencies.contains(x) {
            let t0 = choose|t0: int| 0 <= t0 < va.missing[i].1.dependencies.len() && va.missing[i].1.dependencies[t0] == x;
            assert(dependent_pending(va, va.missing[i].1.dependencies[t0], va.missing[i].0));
        }
        let k = choose|k: int| 0 <= k < va.pending.len() && #[trigger] va.pending[k].node.digest == x
            && va.pending[k].missing_parents.contains(vb.missing[i].0);
        assert(vb.pending[k] == va.pending[k]);
    }
}


/// `b` is a missing parent of the pending node `a`, held as a pending node
/// and not fetched: the walk of peer propagation goes on from `a` to `b`.
pub open spec fn pending_step(v: DriverView, a: Digest, b: Digest) -> bool {
    &&& exists|pi: int| 0 <= pi < v.pending.len() && #[trigger] v.pending[pi].node.digest == a && v.pending[pi].missing_parents.contains(b)
    &&& exists|mi: int| 0 <= mi < v.missing.len() && #[trigger] v.missing[mi].0 == b && !v.missing[mi].1.need_to_send_request
}

/// `seen` starts at `d`, and each later member is one step on from an
/// earlier one.
pub open spec fn walk(v: DriverView, d: Digest, seen: Seq<Digest>) -> bool {
    &&& seen.len() > 0 ==> seen[0] == d
    &&& forall|k: int| 0 < k < seen.len() ==> exists|k2: int| 0 <= k2 < k && pending_step(v, seen[k2], #[trigger] seen[k])
}

/// `m` is a missing parent of a pending node in `seen`.
pub open spec fn parent_of_seen(v: DriverView, seen: Seq<Digest>, m: Digest) -> bool {
    exists|pi: int|
        0 <= pi < v.pending.len() && seen.contains(v.pending[pi].node.digest) && #[trigger] v.pending[pi].missing_parents.contains(m)
}

/// The entries that changed from `v0` to `v1` are those of missing parents of
/// pending nodes that a walk from `d` reaches.
pub open spec fn changed_on_walk(v0: DriverView, v1: DriverView, d: Digest) -> bool {
    exists|seen: Seq<Digest>| #[trigger] walk(v0, d, seen) && forall|i: int|
        0 <= i < v1.missing.len() && v1.missing[i] != v0.missing[i] ==> parent_of_seen(v0, seen, (#[trigger] v1.missing[i]).0)
}

} // verus!
