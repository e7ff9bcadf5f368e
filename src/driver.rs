//! The driver: the DAG, the pending and missing indices, and the handlers
//! for certified nodes, node requests and retry ticks.

use vstd::prelude::*;

use crate::dag::{dag_grows, dag_wf, in_dag, in_round, in_slot, lemma_in_dag_grows, placeable, DagStore};
use crate::digest_set::{insert_unique, vec_contains, without};
use crate::missing::{MissingDagNodeData, MissingView};
use crate::model::{
    DriverView, PendingView, changed_on_walk, pending_step, parent_of_seen, walk, absent_parents, ack_for, awaited_queued, awaited_queued_but, back_linked,
    cascade_done, cascade_frame, cascade_inv, delivered, dependent_pending, driver_wf, entry_of,
    fetch_requests, indices_wf, inserted, is_missing, is_pending, lemma_back_linked_extend,
    lemma_back_linked_push, lemma_back_linked_release, lemma_back_linked_remove_entry,
    lemma_back_linked_same, lemma_back_linked_strike, lemma_cascade_end, lemma_cascade_inv_release,
    lemma_covered_mono, lemma_covered_peers, lemma_inserted_grows, lemma_linked_but_dag,
    lemma_linked_but_done, lemma_linked_but_remove, lemma_linked_but_start, lemma_linked_but_update,
    lemma_linked_outside_grows, lemma_linked_same_indices, lemma_list_kept_grows, lemma_parents_ok_grows,
    lemma_parents_ok_strike, lemma_peers_frame_grows, lemma_pending_digests_bound, lemma_pending_push,
    lemma_pop_contains, lemma_propagated_peers, lemma_push_unique, lemma_same_dag, lemma_same_missing,
    lemma_same_pending, lemma_settled_grows, lemma_unplaceable_blocked, lemma_waits_on_grows, linked_but,
    linked_outside, list_kept, listed_dependency, missing_grows, new_missing_entry, only_source_added,
    parent_covered, parent_digests, peer_added, peer_propagated, peers_frame, pending_node,
    pending_parents_ok, released, request_for, response_for, seen_closed, settled, waits_on,
    with_requests_disabled,
};
use crate::types::{CertifiedNode, CertifiedNodeAck, CertifiedNodeRequest, Digest, NodeView, Parent, PeerId, Round};

verus! {

/// A node received whose parents are not all in the DAG yet.
pub struct PendingNode {
    node: CertifiedNode,
    missing_parents: Vec<Digest>,
}

impl View for PendingNode {
    type V = PendingView;

    closed spec fn view(&self) -> PendingView {
        PendingView { node: self.node@, missing_parents: self.missing_parents@ }
    }
}

/// An acknowledgement and the peer it goes to.
#[derive(Clone, Copy, Debug, PartialEq, Eq, Structural)]
pub struct AckMessage {
    pub ack: CertifiedNodeAck,
    pub recipient: PeerId,
}

/// A node sent to a peer that asked for it.
#[derive(Debug)]
pub struct NodeMessage {
    pub node: CertifiedNode,
    pub recipient: PeerId,
    pub ack_required: bool,
}

impl View for NodeMessage {
    type V = (NodeView, PeerId, bool);

    open spec fn view(&self) -> (NodeView, PeerId, bool) {
        (self.node@, self.recipient, self.ack_required)
    }
}

/// A fetch request and the peers it goes to.
#[derive(Debug)]
pub struct RequestMessage {
    pub request: CertifiedNodeRequest,
    pub peers: Vec<PeerId>,
}

impl View for RequestMessage {
    type V = (CertifiedNodeRequest, Seq<PeerId>);

    open spec fn view(&self) -> (CertifiedNodeRequest, Seq<PeerId>) {
        (self.request, self.peers@)
    }
}

/// The driver of one validator: the DAG and the indices of pending and
/// missing nodes.
pub struct DagDriver {
    my_id: PeerId,
    dag: DagStore,
    pending: Vec<PendingNode>,
    missing: Vec<(Digest, MissingDagNodeData)>,
}

impl View for DagDriver {
    type V = DriverView;

    closed spec fn view(&self) -> DriverView {
        DriverView {
            my_id: self.my_id,
            dag: self.dag@,
            pending: self.pending@.map_values(|p: PendingNode| p@),
            missing: self.missing@.map_values(|e: (Digest, MissingDagNodeData)| (e.0, e.1@)),
        }
    }
}

impl DagDriver {
    /// A driver for validator `my_id` with an empty DAG and empty indices.
    pub fn new(my_id: PeerId) -> (r: Self)
        ensures
            r@.my_id == my_id,
            r@.dag == seq![Seq::<NodeView>::empty()],
            r@.pending.len() == 0,
            r@.missing.len() == 0,
            driver_wf(r@),
    {
        let r = DagDriver { my_id, dag: DagStore::new(), pending: Vec::new(), missing: Vec::new() };
        assert(r@.pending =~= Seq::empty());
        assert(r@.missing =~= Seq::empty());
        r
    }

    /// The DAG.
    pub fn dag(&self) -> (r: &DagStore)
        ensures
            r@ == self@.dag,
    {
        &self.dag
    }

    /// The number of pending nodes.
    pub fn pending_len(&self) -> (r: usize)
        ensures
            r == self@.pending.len(),
    {
        self.pending.len()
    }

    /// The number of entries in the missing index.
    pub fn missing_len(&self) -> (r: usize)
        ensures
            r == self@.missing.len(),
    {
        self.missing.len()
    }

    /// The position of the pending node with digest `d`.
    fn find_pending(&self, d: Digest) -> (r: Option<usize>)
        ensures
            r.is_none() == !is_pending(self@, d),
            r.is_some() ==> r.unwrap() < self@.pending.len() && self@.pending[r.unwrap() as int].node.digest == d,
    {
        let mut i: usize = 0;
        while i < self.pending.len()
            invariant
                i <= self@.pending.len(),
                self@.pending.len() == self.pending@.len(),
                forall|j: int| 0 <= j < i ==> self@.pending[j].node.digest != d,
            decreases self.pending@.len() - i,
        {
            if self.pending[i].node.digest == d {
                assert(self@.pending[i as int].node.digest == d);
                return Some(i);
            }
            i = i + 1;
        }
        None
    }

    /// The position of the missing entry for `d`.
    fn find_missing(&self, d: Digest) -> (r: Option<usize>)
        ensures
            r.is_none() == !is_missing(self@, d),
            r.is_some() ==> r.unwrap() < self@.missing.len() && self@.missing[r.unwrap() as int].0 == d,
    {
        let mut i: usize = 0;
        while i < self.missing.len()
            invariant
                i <= self@.missing.len(),
                self@.missing.len() == self.missing@.len(),
                forall|j: int| 0 <= j < i ==> self@.missing[j].0 != d,
            decreases self.missing@.len() - i,
        {
            if self.missing[i].0 == d {
                assert(self@.missing[i as int].0 == d);
                return Some(i);
            }
            i = i + 1;
        }
        None
    }

    /// The parents that the pending node `digest` still misses.
    pub fn pending_missing_parents(&self, digest: Digest) -> (r: Option<Vec<Digest>>)
        ensures
            r.is_none() == !is_pending(self@, digest),
            r.is_some() ==> exists|i: int| 0 <= i < self@.pending.len()
                && self@.pending[i].node.digest == digest
                && self@.pending[i].missing_parents == r.unwrap()@,
    {
        match self.find_pending(digest) {
            None => None,
            Some(i) => {
                let v = self.pending[i].missing_parents.clone();
                assert(self@.pending[i as int].missing_parents == v@);
                Some(v)
            },
        }
    }

    /// The missing entry for `digest`.
    pub fn missing_entry(&self, digest: Digest) -> (r: Option<&MissingDagNodeData>)
        ensures
            r.is_none() == !is_missing(self@, digest),
            r.is_some() ==> exists|i: int| 0 <= i < self@.missing.len()
                && self@.missing[i] == (digest, r.unwrap()@),
    {
        match self.find_missing(digest) {
            None => None,
            Some(i) => {
                let e = &self.missing[i].1;
                assert(self@.missing[i as int] == (digest, e@));
                Some(e)
            },
        }
    }
}

impl DagDriver {
    /// The fetch requests of one retry tick.
    pub fn remote_fetch_missing_nodes(&self) -> (r: Vec<RequestMessage>)
        ensures
            r@.map_values(|m: RequestMessage| m@) == fetch_requests(self@),
    {
        let mut r: Vec<RequestMessage> = Vec::new();
        let mut i: usize = 0;
        while i < self.missing.len()
            invariant
                i <= self@.missing.len(),
                self@.missing.len() == self.missing@.len(),
                r@.map_values(|m: RequestMessage| m@) == self@.missing.subrange(0, i as int).filter(|e: (Digest, MissingView)| e.1.need_to_send_request).map_values(|e: (Digest, MissingView)| request_for(self@.my_id, e)),
            decreases self.missing@.len() - i,
        {
            let ghost e = self@.missing[i as int];
            proof {
                self@.missing.subrange(0, i as int).lemma_filter_push(e, |e: (Digest, MissingView)| e.1.need_to_send_request);
                assert(self@.missing.subrange(0, i + 1) =~= self@.missing.subrange(0, i as int).push(e));
            }
            let entry = &self.missing[i].1;
            assert(e == (self.missing@[i as int].0, entry@));
            if entry.need_to_send_request() {
                let request = CertifiedNodeRequest::new(entry.node_source(), entry.node_round(), self.missing[i].0, self.my_id);
                let peers = entry.peers_to_request();
                let ghost before = r@;
                let m = RequestMessage { request, peers };
                assert(m@ == request_for(self@.my_id, e));
                r.push(m);
                assert(r@.map_values(|m: RequestMessage| m@) =~= before.map_values(|m: RequestMessage| m@).push(request_for(self@.my_id, e)));
            }
            assert(r@.map_values(|m: RequestMessage| m@) == self@.missing.subrange(0, i + 1).filter(|e: (Digest, MissingView)| e.1.need_to_send_request).map_values(|e: (Digest, MissingView)| request_for(self@.my_id, e)));
            i = i + 1;
        }
        assert(self@.missing.subrange(0, self@.missing.len() as int) =~= self@.missing);
        r
    }

    /// The answer to a request for a node: the node when the DAG holds it
    /// under the requested round, author and digest.
    pub fn handle_node_request(&self, node_request: CertifiedNodeRequest) -> (r: Option<NodeMessage>)
        requires
            driver_wf(self@),
        ensures
            r.is_none() == response_for(self@, node_request).is_none(),
            r.is_some() ==> r.unwrap()@ == response_for(self@, node_request).unwrap(),
    {
        let d = &self.dag;
        match d.get(node_request.node_round, node_request.node_source) {
            None => None,
            Some(certified_node) => {
                proof {
                    let dd = self@.dag;
                    let rr = node_request.node_round as int;
                    let i = choose|i: int| 0 <= i < dd[rr].len() && dd[rr][i] == certified_node@;
                    let j = choose|j: int| 0 <= j < dd[rr].len() && #[trigger] dd[rr][j].source == node_request.node_source;
                    assert(dd[rr][i].source == dd[rr][j].source);
                    assert(i == j);
                }
                if certified_node.digest == node_request.digest {
                    Some(NodeMessage { node: certified_node.duplicate(), recipient: node_request.requester, ack_required: false })
                } else {
                    None
                }
            },
        }
    }
}

impl DagDriver {
    fn remove_missing(&mut self, i: usize) -> (r: MissingDagNodeData)
        requires
            i < old(self)@.missing.len(),
        ensures
            r@ == old(self)@.missing[i as int].1,
            final(self)@ == (DriverView { missing: old(self)@.missing.remove(i as int), ..old(self)@ }),
    {
        let (_, e) = self.missing.remove(i);
        assert(self@.missing =~= old(self)@.missing.remove(i as int));
        e
    }

    fn remove_pending(&mut self, i: usize) -> (r: PendingNode)
        requires
            i < old(self)@.pending.len(),
        ensures
            r@ == old(self)@.pending[i as int],
            final(self)@ == (DriverView { pending: old(self)@.pending.remove(i as int), ..old(self)@ }),
    {
        let p = self.pending.remove(i);
        assert(self@.pending =~= old(self)@.pending.remove(i as int));
        p
    }

    fn set_missing_parents(&mut self, i: usize, v: Vec<Digest>)
        requires
            i < old(self)@.pending.len(),
        ensures
            final(self)@ == (DriverView {
                pending: old(self)@.pending.update(
                    i as int,
                    PendingView { node: old(self)@.pending[i as int].node, missing_parents: v@ },
                ),
                ..old(self)@
            }),
    {
        self.pending[i].missing_parents = v;
        assert(self@.pending =~= old(self)@.pending.update(
            i as int,
            PendingView { node: old(self)@.pending[i as int].node, missing_parents: v@ },
        ));
    }

    fn insert_into_dag(&mut self, node: CertifiedNode)
        requires
            dag_wf(old(self)@.dag),
            placeable(old(self)@.dag, node@),
            !in_dag(old(self)@.dag, node@.digest),
        ensures
            final(self)@ == (DriverView { dag: final(self)@.dag, ..old(self)@ }),
            forall|m: NodeView| #[trigger] in_slot(final(self)@.dag, m) ==> in_slot(old(self)@.dag, m) || m == node@,
            dag_wf(final(self)@.dag),
            dag_grows(old(self)@.dag, final(self)@.dag),
            forall|x: Digest| #[trigger] in_dag(final(self)@.dag, x) ==> in_dag(old(self)@.dag, x) || x == node@.digest,
            in_slot(final(self)@.dag, node@),
    {
        self.dag.insert(node);
        assert(self@.pending =~= old(self)@.pending);
        assert(self@.missing =~= old(self)@.missing);
    }

    /// Writes `node` into the DAG, then promotes every pending node whose last
    /// missing parent has just arrived, and so on down the chain.
    fn add_to_dag(&mut self, node: CertifiedNode)
        requires
            driver_wf(old(self)@),
            placeable(old(self)@.dag, node@),
            !is_pending(old(self)@, node.digest),
            !in_dag(old(self)@.dag, node.digest),
        ensures
            driver_wf(final(self)@),
            cascade_done(old(self)@, node@, final(self)@),
            cascade_frame(old(self)@, final(self)@),
            !is_missing(final(self)@, node@.digest),
    {
        let ghost v0 = self@;
        let ghost n = node@;
        let digest = node.digest;
        self.insert_into_dag(node);
        proof {
            lemma_linked_same_indices(v0, self@);
            assert forall|i: int| 0 <= i < v0.pending.len() implies #[trigger] v0.pending[i].node == self@.pending[i].node by {}
            lemma_same_pending(v0, self@);
            lemma_same_missing(v0, self@);
            lemma_back_linked_same(v0, self@);
            assert forall|i: int| 0 <= i < self@.pending.len() implies !in_dag(self@.dag, #[trigger] self@.pending[i].node.digest) by {
                assert(v0.pending[i].node.digest != n.digest);
            }
            assert forall|i: int| 0 <= i < self@.pending.len() implies pending_parents_ok(self@.dag, #[trigger] self@.pending[i]) by {
                lemma_parents_ok_grows(v0.dag, self@.dag, self@.pending[i]);
            }
            assert forall|i: int| 0 <= i < self@.pending.len() implies list_kept(v0, self@, #[trigger] self@.pending[i]) by {
                assert(v0.pending[i] == self@.pending[i]);
                assert(v0.pending[i].node == self@.pending[i].node);
            }
            assert forall|i: int| 0 <= i < self@.missing.len() implies entry_of(v0, #[trigger] self@.missing[i]) by {
                assert(v0.missing[i] == self@.missing[i]);
            }
            assert forall|x: Digest| #[trigger] is_missing(v0, x) && !inserted(v0, self@, x) implies is_missing(self@, x) by {
                let t = choose|t: int| 0 <= t < v0.missing.len() && #[trigger] v0.missing[t].0 == x;
                assert(self@.missing[t].0 == x);
            }
            assert forall|m: NodeView| #[trigger] in_slot(self@.dag, m) implies in_slot(v0.dag, m) || m == n || released(v0, self@, m) by {}
        }
        let mut work: Vec<Digest> = Vec::new();
        work.push(digest);
        proof {
            assert(work@[0] == digest);
            assert forall|x: Digest| work@.contains(x) implies inserted(v0, self@, x) by {
                assert(in_round(self@.dag, n.round as int, n.digest));
            }
            assert forall|x: Digest| #[trigger] is_missing(self@, x) && inserted(v0, self@, x) implies work@.contains(x) by {
                assert(x == n.digest);
            }
            assert forall|i: int, x: Digest|
                0 <= i < self@.pending.len() && #[trigger] self@.pending[i].missing_parents.contains(x) && inserted(v0, self@, x)
                    implies work@.contains(x) by {
                assert(x == n.digest);
            }
        }
        while work.len() > 0
            invariant
                driver_wf(self@),
                driver_wf(v0),
                !in_dag(v0.dag, n.digest),
                cascade_inv(v0, n, self@, work@),
                awaited_queued(v0, self@, work@),
            decreases self@.pending.len() + work@.len(),
        {
            let ghost measure = self@.pending.len() + work@.len();
            let ghost w0 = work@;
            let ghost s0 = self@;
            let d = work.pop().unwrap();
            proof {
                assert forall|x: Digest| work@.contains(x) implies inserted(v0, s0, x) by {
                    let t = choose|t: int| 0 <= t < work@.len() && work@[t] == x;
                    assert(w0[t] == x);
                    assert(w0.contains(x));
                }
                assert forall|y: Digest| w0.contains(y) && y != d implies work@.contains(y) by {
                    lemma_pop_contains(w0, y);
                }
                assert(w0.contains(d));
            }
            match self.find_missing(d) {
                None => {
                    proof {
                        lemma_same_dag(v0, s0, self@);
                        assert forall|i: int, x: Digest|
                            0 <= i < self@.pending.len() && #[trigger] self@.pending[i].missing_parents.contains(x)
                                && inserted(v0, self@, x) implies work@.contains(x) by {
                            if x == d {
                                let q = choose|q: int| 0 <= q < self@.pending[i].missing_parents.len() && self@.pending[i].missing_parents[q] == x;
                                assert(listed_dependency(self@, self@.pending[i].missing_parents[q], self@.pending[i].node.digest));
                            }
                        }
                    }
                },
                Some(mi) => {
                    let ghost prev = self@;
                    let entry = self.remove_missing(mi);
                    let deps = entry.take_dependencies();
                    proof {
                        lemma_linked_but_start(prev, self@, mi as int, d);
                        lemma_same_pending(prev, self@);
                        lemma_back_linked_remove_entry(prev, self@, mi as int);
                        assert(prev.missing[mi as int].1.dependencies.no_duplicates());
                        assert forall|t: int| 0 <= t < deps@.len() implies dependent_pending(self@, #[trigger] deps@[t], d) by {
                            assert(dependent_pending(prev, prev.missing[mi as int].1.dependencies[t], prev.missing[mi as int].0));
                            let k = choose|k: int| 0 <= k < prev.pending.len() && #[trigger] prev.pending[k].node.digest == deps@[t]
                                && prev.pending[k].missing_parents.contains(d);
                            assert(self@.pending[k] == prev.pending[k]);
                        }
                        lemma_same_dag(v0, s0, self@);
                        assert(deps@.subrange(0, deps@.len() as int) =~= deps@);
                        assert forall|i: int| 0 <= i < self@.missing.len() implies entry_of(v0, #[trigger] self@.missing[i]) by {
                            if i < mi {
                                assert(self@.missing[i] == prev.missing[i]);
                            } else {
                                assert(self@.missing[i] == prev.missing[i + 1]);
                            }
                            assert(entry_of(v0, prev.missing[if i < mi { i } else { i + 1 }]));
                        }
                        assert forall|x: Digest| #[trigger] is_missing(v0, x) && !inserted(v0, self@, x) implies is_missing(self@, x) by {
                            assert(is_missing(prev, x));
                            let t = choose|t: int| 0 <= t < prev.missing.len() && #[trigger] prev.missing[t].0 == x;
                            assert(t != mi);
                            if t < mi {
                                assert(self@.missing[t] == prev.missing[t]);
                            } else {
                                assert(self@.missing[t - 1] == prev.missing[t]);
                            }
                        }
                        assert forall|x: Digest| #[trigger] is_missing(self@, x) && inserted(v0, self@, x) implies work@.contains(x) by {
                            let t = choose|t: int| 0 <= t < self@.missing.len() && #[trigger] self@.missing[t].0 == x;
                            let t0 = if t < mi { t } else { t + 1 };
                            assert(self@.missing[t] == prev.missing[t0]);
                            assert(is_missing(prev, x));
                            assert(t0 != mi);
                        }
                    }
                    let mut j: usize = 0;
                    while j < deps.len()
                        invariant
                            indices_wf(self@),
                            linked_but(self@, d, deps@.subrange(j as int, deps@.len() as int)),
                            j <= deps@.len(),
                            inserted(v0, self@, d),
                            !is_missing(self@, d),
                            driver_wf(v0),
                            back_linked(self@),
                            deps@.no_duplicates(),
                            forall|t: int| j <= t < deps@.len() ==> dependent_pending(self@, #[trigger] deps@[t], d),
                            cascade_inv(v0, n, self@, work@),
                            awaited_queued_but(v0, self@, work@, d),
                            self@.pending.len() + work@.len() < measure,
                        decreases deps@.len() - j,
                    {
                        let p = deps[j];
                        match self.find_pending(p) {
                            None => {
                                // every listed dependent is a pending node
                                proof {
                                    assert(dependent_pending(self@, deps@[j as int], d));
                                    let k = choose|k: int| 0 <= k < self@.pending.len() && #[trigger] self@.pending[k].node.digest == deps@[j as int]
                                        && self@.pending[k].missing_parents.contains(d);
                                    assert(is_pending(self@, p));
                                }
                            },
                            Some(pi) => {
                                let rest = without(&self.pending[pi].missing_parents, d);
                                let ghost pre = self@;
                                let ghost pv = pre.pending[pi as int];
                                proof {
                                    lemma_parents_ok_strike(pre.dag, pv, d);
                                }
                                if rest.len() == 0 {
                                    let pn = self.remove_pending(pi);
                                    let ghost vr = self@;
                                    proof {
                                        lemma_linked_but_remove(pre, self@, d, deps@, j as int, pi as int);
                                        lemma_cascade_inv_release(v0, n, pre, vr, work@, pi as int);
                                        assert forall|x: Digest| pre.pending[pi as int].missing_parents.contains(x) implies x == d by {
                                            if x != d {
                                                let t = choose|t: int| 0 <= t < pv.missing_parents.len() && pv.missing_parents[t] == x;
                                                pv.missing_parents.lemma_filter_contains(|z: Digest| z != d, t);
                                            }
                                        }
                                        lemma_back_linked_release(pre, vr, pi as int, d);
                                        assert forall|t: int| j + 1 <= t < deps@.len() implies dependent_pending(vr, #[trigger] deps@[t], d) by {
                                            assert(dependent_pending(pre, deps@[t], d));
                                            let k = choose|k: int| 0 <= k < pre.pending.len() && #[trigger] pre.pending[k].node.digest == deps@[t]
                                                && pre.pending[k].missing_parents.contains(d);
                                            assert(deps@[t] != deps@[j as int]);
                                            let k1 = if k < pi { k } else { k - 1 };
                                            assert(vr.pending[k1] == pre.pending[k]);
                                        }
                                        assert forall|i: int| 0 <= i < vr.pending.len() implies #[trigger] vr.pending[i].node.digest != pv.node.digest by {
                                            if i < pi {
                                                assert(vr.pending[i] == pre.pending[i]);
                                            } else {
                                                assert(vr.pending[i] == pre.pending[i + 1]);
                                            }
                                        }
                                        assert(!pending_node(vr, pv.node));
                                        assert(list_kept(v0, pre, pv));
                                        assert(pending_node(v0, pv.node));
                                        assert forall|k: int| 0 <= k < pv.node.parents.len() implies in_dag(pre.dag, #[trigger] pv.node.parents[k].digest) by {
                                            let y = pv.node.parents[k].digest;
                                            if pv.missing_parents.contains(y) && y != d {
                                                let t = choose|t: int| 0 <= t < pv.missing_parents.len() && pv.missing_parents[t] == y;
                                                pv.missing_parents.lemma_filter_contains(|z: Digest| z != d, t);
                                            }
                                        }
                                        assert forall|i: int| 0 <= i < vr.pending.len() implies list_kept(v0, vr, #[trigger] vr.pending[i]) by {
                                            let t = if i < pi { i } else { i + 1 };
                                            assert(vr.pending[i] == pre.pending[t]);
                                            assert(list_kept(v0, pre, pre.pending[t]));
                                        }
                                        assert forall|j0: int| 0 <= j0 < v0.pending.len() && released(v0, vr, #[trigger] v0.pending[j0].node)
                                            implies settled(vr.dag, v0.pending[j0].node) || v0.pending[j0].node == pv.node by {
                                            if v0.pending[j0].node != pv.node && pending_node(pre, v0.pending[j0].node) {
                                                let t = choose|t: int| 0 <= t < pre.pending.len() && #[trigger] pre.pending[t].node == v0.pending[j0].node;
                                                assert(t != pi);
                                                let t1 = if t < pi { t } else { t - 1 };
                                                assert(vr.pending[t1] == pre.pending[t]);
                                            }
                                        }
                                    }
                                    let pnode = pn.node;
                                    let ghost wr = work@;
                                    let ghost mut placed: bool = false;
                                    if self.dag.can_insert(&pnode) {
                                        let nd = pnode.digest;
                                        self.insert_into_dag(pnode);
                                        proof {
                                            placed = true;
                                        }
                                        proof {
                                            lemma_linked_but_dag(vr, self@, d, deps@.subrange(j + 1, deps@.len() as int));
                                        }
                                        work.push(nd);
                                        assert(work@ == wr.push(nd));
                                    } else {
                                        proof {
                                            lemma_unplaceable_blocked(vr.dag, pv.node);
                                        }
                                    }
                                    proof {
                                        broadcast use vstd::seq_lib::lemma_seq_contains_after_push;
                                        let vf = self@;
                                        lemma_inserted_grows(v0, vr, vf);
                                        lemma_same_missing(vr, vf);
                                        lemma_same_pending(vr, vf);
                                        lemma_back_linked_same(vr, vf);
                                        assert forall|t: int| j + 1 <= t < deps@.len() implies dependent_pending(vf, #[trigger] deps@[t], d) by {
                                            assert(dependent_pending(vr, deps@[t], d));
                                            let k = choose|k: int| 0 <= k < vr.pending.len() && #[trigger] vr.pending[k].node.digest == deps@[t]
                                                && vr.pending[k].missing_parents.contains(d);
                                            assert(vf.pending[k] == vr.pending[k]);
                                        }
                                        assert forall|i: int| 0 <= i < vf.missing.len() implies entry_of(v0, #[trigger] vf.missing[i]) by {
                                            assert(vf.missing[i] == pre.missing[i]);
                                        }
                                        assert forall|x: Digest| inserted(v0, vf, x) && x != pv.node.digest implies #[trigger] inserted(v0, vr, x) by {}
                                        assert(inserted(v0, vf, d));
                                        assert forall|j0: int| 0 <= j0 < v0.pending.len() && released(v0, vf, #[trigger] v0.pending[j0].node)
                                            implies settled(vf.dag, v0.pending[j0].node) by {
                                            if v0.pending[j0].node != pv.node {
                                                assert(released(v0, vr, v0.pending[j0].node));
                                                lemma_settled_grows(vr.dag, vf.dag, v0.pending[j0].node);
                                            }
                                        }
                                        assert forall|i: int| 0 <= i < vf.pending.len() implies pending_parents_ok(vf.dag, #[trigger] vf.pending[i]) by {
                                            lemma_parents_ok_grows(vr.dag, vf.dag, vf.pending[i]);
                                        }
                                        assert forall|i: int| 0 <= i < vf.pending.len() implies list_kept(v0, vf, #[trigger] vf.pending[i]) by {
                                            assert(list_kept(v0, vr, vr.pending[i]));
                                            lemma_list_kept_grows(v0, vr, vf, vf.pending[i]);
                                        }
                                        assert forall|m: NodeView| #[trigger] in_slot(vf.dag, m) implies in_slot(v0.dag, m) || m == n || released(v0, vf, m) by {
                                            if m != pv.node {
                                                assert(in_slot(vr.dag, m));
                                            }
                                        }
                                        assert forall|x: Digest| #[trigger] is_missing(v0, x) && !inserted(v0, vf, x) implies is_missing(vf, x) by {
                                            assert(!inserted(v0, vr, x));
                                            assert(!inserted(v0, pre, x));
                                            assert(is_missing(pre, x));
                                        }
                                        assert forall|x: Digest| #[trigger] is_missing(vf, x) && inserted(v0, vf, x) implies work@.contains(x) by {
                                            if x != pv.node.digest {
                                                assert(inserted(v0, vr, x));
                                                assert(inserted(v0, pre, x));
                                                assert(is_missing(pre, x));
                                                assert(wr.contains(x));
                                            } else {
                                                assert(!in_dag(pre.dag, x));
                                                assert(in_dag(vf.dag, x) ==> vf.dag != vr.dag);
                                            }
                                        }
                                        assert forall|x: Digest| work@.contains(x) implies inserted(v0, vf, x) by {
                                            if wr.contains(x) {
                                                assert(inserted(v0, pre, x));
                                                assert(inserted(v0, vr, x));
                                            } else {
                                                assert(placed);
                                                assert(x == pv.node.digest);
                                                assert(in_slot(vf.dag, pv.node));
                                                assert(in_round(vf.dag, pv.node.round as int, x));
                                                let jv = choose|jv: int| 0 <= jv < v0.pending.len() && #[trigger] v0.pending[jv].node == pv.node;
                                                assert(!in_dag(v0.dag, v0.pending[jv].node.digest));
                                            }
                                        }
                                        assert forall|i: int, x: Digest|
                                            0 <= i < vf.pending.len() && #[trigger] vf.pending[i].missing_parents.contains(x)
                                                && inserted(v0, vf, x) && x != d implies work@.contains(x) by {
                                            if x != pv.node.digest {
                                                assert(inserted(v0, vr, x));
                                                assert(vr.pending[i] == vf.pending[i]);
                                                let t = if i < pi { i } else { i + 1 };
                                                assert(vr.pending[i] == pre.pending[t]);
                                            }
                                        }
                                    }
                                } else {
                                    self.set_missing_parents(pi, rest);
                                    proof {
                                        let vf = self@;
                                        lemma_linked_but_update(pre, vf, d, deps@, j as int, pi as int);
                                        lemma_back_linked_strike(pre, vf, pi as int, d);
                                        assert forall|t: int| j + 1 <= t < deps@.len() implies dependent_pending(vf, #[trigger] deps@[t], d) by {
                                            assert(dependent_pending(pre, deps@[t], d));
                                            let k = choose|k: int| 0 <= k < pre.pending.len() && #[trigger] pre.pending[k].node.digest == deps@[t]
                                                && pre.pending[k].missing_parents.contains(d);
                                            assert(deps@[t] != deps@[j as int]);
                                            assert(k != pi);
                                            assert(vf.pending[k] == pre.pending[k]);
                                        }
                                        assert forall|i: int| 0 <= i < pre.pending.len() implies #[trigger] pre.pending[i].node == vf.pending[i].node by {}
                                        lemma_same_pending(pre, vf);
                                        lemma_same_dag(v0, pre, vf);
                                        lemma_same_missing(pre, vf);
                                        assert forall|i: int| 0 <= i < vf.missing.len() implies entry_of(v0, #[trigger] vf.missing[i]) by {
                                            assert(vf.missing[i] == pre.missing[i]);
                                        }
                                        assert forall|x: Digest| #[trigger] is_missing(v0, x) && !inserted(v0, vf, x) implies is_missing(vf, x) by {
                                            assert(!inserted(v0, pre, x));
                                        }
                                        assert forall|x: Digest| #[trigger] is_missing(vf, x) && inserted(v0, vf, x) implies work@.contains(x) by {
                                            assert(is_missing(pre, x));
                                        }
                                        assert forall|i: int| 0 <= i < vf.pending.len() implies list_kept(v0, vf, #[trigger] vf.pending[i]) by {
                                            assert(list_kept(v0, pre, pre.pending[i]));
                                            if i == pi {
                                                let l = pv.missing_parents;
                                                let j0 = choose|j0: int|
                                                    0 <= j0 < v0.pending.len() && #[trigger] v0.pending[j0].node == pv.node
                                                        && (forall|x: Digest| l.contains(x) ==> v0.pending[j0].missing_parents.contains(x))
                                                        && (forall|x: Digest| v0.pending[j0].missing_parents.contains(x) && !inserted(v0, pre, x) ==> l.contains(x));
                                                assert forall|x: Digest| vf.pending[i].missing_parents.contains(x) implies v0.pending[j0].missing_parents.contains(x) by {
                                                    l.lemma_filter_contains_rev(|y: Digest| y != d, x);
                                                }
                                                assert forall|x: Digest| v0.pending[j0].missing_parents.contains(x) && !inserted(v0, vf, x)
                                                    implies vf.pending[i].missing_parents.contains(x) by {
                                                    assert(!inserted(v0, pre, x));
                                                    assert(l.contains(x));
                                                    assert(x != d);
                                                    let t = choose|t: int| 0 <= t < l.len() && l[t] == x;
                                                    l.lemma_filter_contains(|y: Digest| y != d, t);
                                                }
                                            }
                                        }
                                        assert forall|i: int, x: Digest|
                                            0 <= i < vf.pending.len() && #[trigger] vf.pending[i].missing_parents.contains(x)
                                                && inserted(v0, vf, x) && x != d implies work@.contains(x) by {
                                            if i == pi {
                                                pv.missing_parents.lemma_filter_contains_rev(|y: Digest| y != d, x);
                                                assert(pre.pending[i].missing_parents.contains(x));
                                            } else {
                                                assert(pre.pending[i] == vf.pending[i]);
                                            }
                                        }
                                        assert forall|j0: int| 0 <= j0 < v0.pending.len() && released(v0, vf, #[trigger] v0.pending[j0].node)
                                            implies settled(vf.dag, v0.pending[j0].node) by {
                                            if pending_node(pre, v0.pending[j0].node) {
                                                let t = choose|t: int| 0 <= t < pre.pending.len() && #[trigger] pre.pending[t].node == v0.pending[j0].node;
                                                assert(vf.pending[t].node == pre.pending[t].node);
                                            }
                                        }
                                    }
                                }
                            },
                        }
                        j = j + 1;
                    }
                    proof {
                        lemma_linked_but_done(self@, d, deps@.subrange(j as int, deps@.len() as int));
                        assert forall|i: int, x: Digest|
                            0 <= i < self@.pending.len() && #[trigger] self@.pending[i].missing_parents.contains(x)
                                && inserted(v0, self@, x) implies work@.contains(x) by {
                            if x == d {
                                let q = choose|q: int| 0 <= q < self@.pending[i].missing_parents.len() && self@.pending[i].missing_parents[q] == x;
                                assert(deps@.subrange(j as int, deps@.len() as int).contains(self@.pending[i].node.digest));
                            }
                        }
                    }
                },
            }
        }
        proof {
            lemma_cascade_end(v0, n, self@, work@);
        }
    }

    fn add_peer_at(&mut self, i: usize, peer: PeerId)
        requires
            i < old(self)@.missing.len(),
        ensures
            peers_frame(old(self)@, final(self)@),
            final(self)@.missing[i as int].1.peers.contains(peer),
            final(self)@.missing[i as int].1 == (MissingView {
                peers: if old(self)@.missing[i as int].1.peers.contains(peer) {
                    old(self)@.missing[i as int].1.peers
                } else {
                    old(self)@.missing[i as int].1.peers.push(peer)
                },
                ..old(self)@.missing[i as int].1
            }),
            old(self)@.missing[i as int].1.peers.no_duplicates() ==> final(self)@.missing[i as int].1.peers.no_duplicates(),
            forall|j: int| 0 <= j < old(self)@.missing.len() && j != i ==> final(self)@.missing[j] == old(self)@.missing[j],
    {
        let ghost v0 = self@;
        let (k, mut e) = self.missing.remove(i);
        let ghost before = e@;
        e.add_peer(peer);
        proof {
            if before.peers.no_duplicates() {
                lemma_push_unique(before.peers, peer);
            }
            assert(before == v0.missing[i as int].1);
            if !before.peers.contains(peer) {
                assert(e@.peers[before.peers.len() as int] == peer);
                assert forall|x: PeerId| before.peers.contains(x) implies e@.peers.contains(x) by {
                    let t = choose|t: int| 0 <= t < before.peers.len() && before.peers[t] == x;
                    assert(e@.peers[t] == x);
                }
            }
            assert(e@.peers.contains(peer));
        }
        self.missing.insert(i, (k, e));
        assert(self@.missing[i as int] == (k, e@));
        assert forall|j: int| 0 <= j < v0.missing.len() && j != i implies self@.missing[j] == v0.missing[j] by {
            if j < i {
                assert(self.missing@[j] == old(self).missing@[j]);
            } else {
                assert(self.missing@[j] == old(self).missing@[j]);
            }
        }
    }

    /// Adds `source` to the peers of every missing node that must be fetched
    /// and that the pending node `digest` waits on, directly or through
    /// pending nodes in between.
    fn add_peers_recursively(&mut self, digest: Digest, source: PeerId)
        requires
            driver_wf(old(self)@),
        ensures
            driver_wf(final(self)@),
            peers_frame(old(self)@, final(self)@),
            only_source_added(old(self)@, final(self)@, source),
            changed_on_walk(old(self)@, final(self)@, digest),
            is_pending(old(self)@, digest) ==> peer_propagated(final(self)@, digest, source),
    {
        let ghost v0 = self@;
        let mut work: Vec<Digest> = Vec::new();
        work.push(digest);
        let mut visited: Vec<Digest> = Vec::new();
        assert(work@[0] == digest);
        while work.len() > 0
            invariant
                driver_wf(self@),
                peers_frame(v0, self@),
                only_source_added(v0, self@, source),
                walk(v0, digest, visited@),
                visited@.len() == 0 ==> work@.len() <= 1 && forall|x: Digest| work@.contains(x) ==> x == digest,
                visited@.len() > 0 ==> forall|x: Digest| #[trigger] work@.contains(x)
                    ==> exists|k: int| 0 <= k < visited@.len() && pending_step(v0, visited@[k], x),
                forall|i: int| 0 <= i < self@.missing.len() && self@.missing[i] != v0.missing[i]
                    ==> parent_of_seen(v0, visited@, (#[trigger] self@.missing[i]).0),
                visited@.no_duplicates(),
                forall|k: int| 0 <= k < visited@.len() ==> is_pending(self@, #[trigger] visited@[k]),
                seen_closed(self@, visited@, work@, source),
                work@.contains(digest) || visited@.contains(digest) || !is_pending(self@, digest),
            decreases self@.pending.len() - visited@.len(), work@.len(),
        {
            proof {
                lemma_pending_digests_bound(self@, visited@);
            }
            let ghost first = self@.pending.len() - visited@.len();
            let ghost second = work@.len();
            let ghost vis0 = visited@;
            let ghost work0 = work@;
            let d = work.pop().unwrap();
            proof {
                assert(work@ == work0.drop_last());
                assert forall|y: Digest| work@.contains(y) implies work0.contains(y) by {
                    let t = choose|t: int| 0 <= t < work@.len() && work@[t] == y;
                    assert(work0[t] == y);
                }
                assert(work0[work0.len() - 1] == d);
                assert(work0.contains(d));
                assert(vis0.len() == 0 ==> work@.len() == 0);
                assert forall|y: Digest| work0.contains(y) && y != d implies work@.contains(y) by {
                    lemma_pop_contains(work0, y);
                }
            }
            if !vec_contains(&visited, d) {
                match self.find_pending(d) {
                    None => {
                        assert forall|pj: int, q2: int|
                            0 <= pj < self@.pending.len() && visited@.contains(self@.pending[pj].node.digest)
                                && 0 <= q2 < self@.pending[pj].missing_parents.len()
                                implies parent_covered(self@, visited@, work@, #[trigger] self@.pending[pj].missing_parents[q2], source) by {
                            lemma_covered_mono(self@, vis0, work0, visited@, work@, self@.pending[pj].missing_parents[q2], source);
                        }
                    },
                    Some(pi) => {
                        visited.push(d);
                        proof {
                            broadcast use vstd::seq_lib::lemma_seq_contains_after_push;
                            if vis0.len() == 0 {
                                assert(d == digest);
                                assert(visited@[0] == digest);
                            } else {
                                let k0 = choose|k: int| 0 <= k < vis0.len() && pending_step(v0, vis0[k], d);
                                assert(visited@[k0] == vis0[k0]);
                                assert forall|k: int| 0 < k < visited@.len()
                                    implies exists|k2: int| 0 <= k2 < k && pending_step(v0, visited@[k2], #[trigger] visited@[k]) by {
                                    if k < vis0.len() {
                                        let k2 = choose|k2: int| 0 <= k2 < k && pending_step(v0, vis0[k2], #[trigger] vis0[k]);
                                        assert(visited@[k2] == vis0[k2]);
                                        assert(visited@[k] == vis0[k]);
                                    } else {
                                        assert(visited@[k] == d);
                                        assert(pending_step(v0, visited@[k0], d));
                                    }
                                }
                                assert(visited@[0] == vis0[0]);
                                assert forall|x: Digest| #[trigger] work@.contains(x)
                                    implies exists|k: int| 0 <= k < visited@.len() && pending_step(v0, visited@[k], x) by {
                                    assert(work0.contains(x));
                                    let k = choose|k: int| 0 <= k < vis0.len() && pending_step(v0, vis0[k], x);
                                    assert(visited@[k] == vis0[k]);
                                }
                            }
                            assert(walk(v0, digest, visited@));
                            assert forall|i: int| 0 <= i < self@.missing.len() && self@.missing[i] != v0.missing[i]
                                implies parent_of_seen(v0, visited@, (#[trigger] self@.missing[i]).0) by {
                                assert(parent_of_seen(v0, vis0, self@.missing[i].0));
                                let pi = choose|pi: int| 0 <= pi < v0.pending.len() && vis0.contains(v0.pending[pi].node.digest)
                                    && #[trigger] v0.pending[pi].missing_parents.contains(self@.missing[i].0);
                                assert(visited@.contains(v0.pending[pi].node.digest));
                            }
                            assert forall|pj: int, q2: int|
                                0 <= pj < self@.pending.len() && visited@.contains(self@.pending[pj].node.digest)
                                    && 0 <= q2 < self@.pending[pj].missing_parents.len() && (pj != pi || q2 < 0)
                                    implies parent_covered(self@, visited@, work@, #[trigger] self@.pending[pj].missing_parents[q2], source) by {
                                let dd = self@.pending[pj].missing_parents[q2];
                                if !vis0.contains(self@.pending[pj].node.digest) {
                                    assert(self@.pending[pj].node.digest == d);
                                }
                                lemma_covered_mono(self@, vis0, work0, visited@, work@, dd, source);
                            }
                            assert(visited@.no_duplicates()) by {
                                assert forall|a: int, b: int| 0 <= a < b < visited@.len() implies visited@[a] != visited@[b] by {
                                    if b == visited@.len() - 1 {
                                        assert(vis0[a] == visited@[a]);
                                    }
                                }
                            }
                            assert forall|k: int| 0 <= k < visited@.len() implies is_pending(self@, #[trigger] visited@[k]) by {
                                if k < vis0.len() {
                                    assert(vis0[k] == visited@[k]);
                                } else {
                                    assert(self@.pending[pi as int].node.digest == visited@[k]);
                                }
                            }
                        }
                        let parents = self.pending[pi].missing_parents.clone();
                        let mut q: usize = 0;
                        while q < parents.len()
                            invariant
                                driver_wf(self@),
                                peers_frame(v0, self@),
                                only_source_added(v0, self@, source),
                                walk(v0, digest, visited@),
                                visited@.len() > 0,
                                visited@.last() == d,
                                forall|x: Digest| #[trigger] work@.contains(x)
                                    ==> exists|k: int| 0 <= k < visited@.len() && pending_step(v0, visited@[k], x),
                                forall|i: int| 0 <= i < self@.missing.len() && self@.missing[i] != v0.missing[i]
                                    ==> parent_of_seen(v0, visited@, (#[trigger] self@.missing[i]).0),
                                visited@.no_duplicates(),
                                forall|k: int| 0 <= k < visited@.len() ==> is_pending(self@, #[trigger] visited@[k]),
                                pi < self@.pending.len(),
                                self@.pending[pi as int].node.digest == d,
                                parents@ == self@.pending[pi as int].missing_parents,
                                forall|pj: int, q2: int|
                                    0 <= pj < self@.pending.len() && visited@.contains(self@.pending[pj].node.digest)
                                        && 0 <= q2 < self@.pending[pj].missing_parents.len() && (pj != pi || q2 < q)
                                        ==> parent_covered(self@, visited@, work@, #[trigger] self@.pending[pj].missing_parents[q2], source),
                                work@.contains(digest) || visited@.contains(digest) || !is_pending(self@, digest),
                            decreases parents@.len() - q,
                        {
                            let m = parents[q];
                            let ghost v1 = self@;
                            let ghost work1 = work@;
                            match self.find_missing(m) {
                                None => {},
                                Some(mi) => {
                                    if self.missing[mi].1.need_to_send_request() {
                                        let ghost va = self@;
                                        self.add_peer_at(mi, source);
                                        proof {
                                            assert forall|i: int| 0 <= i < v0.missing.len()
                                                implies peer_added(v0.missing[i].1, (#[trigger] self@.missing[i]).1, source) by {
                                                assert(peer_added(v0.missing[i].1, va.missing[i].1, source));
                                                if i == mi {
                                                    if va.missing[i].1 != v0.missing[i].1 {
                                                        assert(va.missing[i].1.peers[v0.missing[i].1.peers.len() as int] == source);
                                                        assert(va.missing[i].1.peers.contains(source));
                                                    }
                                                }
                                            }
                                        }
                                        proof {
                                            assert forall|pj: int, q2: int|
                                                0 <= pj < self@.pending.len() && visited@.contains(self@.pending[pj].node.digest)
                                                    && 0 <= q2 < self@.pending[pj].missing_parents.len() && (pj != pi || q2 < q + 1)
                                                    implies parent_covered(self@, visited@, work@, #[trigger] self@.pending[pj].missing_parents[q2], source) by {
                                                let dd = self@.pending[pj].missing_parents[q2];
                                                if pj != pi || q2 < q {
                                                    lemma_covered_peers(v1, self@, visited@, work@, dd, source);
                                                } else {
                                                    assert(dd == m);
                                                    assert forall|mj: int| 0 <= mj < self@.missing.len() && #[trigger] self@.missing[mj].0 == m
                                                        implies mj == mi by {
                                                        assert(v1.missing[mj].0 == m);
                                                    }
                                                }
                                            }
                                        }
                                    } else {
                                        work.push(m);
                                        proof {
                                            broadcast use vstd::seq_lib::lemma_seq_contains_after_push;
                                            assert forall|pj: int, q2: int|
                                                0 <= pj < self@.pending.len() && visited@.contains(self@.pending[pj].node.digest)
                                                    && 0 <= q2 < self@.pending[pj].missing_parents.len() && (pj != pi || q2 < q + 1)
                                                    implies parent_covered(self@, visited@, work@, #[trigger] self@.pending[pj].missing_parents[q2], source) by {
                                                let dd = self@.pending[pj].missing_parents[q2];
                                                if pj != pi || q2 < q {
                                                    lemma_covered_mono(self@, visited@, work1, visited@, work@, dd, source);
                                                } else {
                                                    assert(dd == m);
                                                    assert(work@.contains(m));
                                                }
                                            }
                                        }
                                    }
                                },
                            }
                            proof {
                                broadcast use vstd::seq_lib::lemma_seq_contains_after_push;
                            }
                            q = q + 1;
                        }
                    },
                }
            }
            proof {
                if visited@.len() > 0 && visited@ == vis0 {
                    assert forall|x: Digest| #[trigger] work@.contains(x)
                        implies exists|k: int| 0 <= k < visited@.len() && pending_step(v0, visited@[k], x) by {
                        assert(work0.contains(x));
                    }
                }
                lemma_pending_digests_bound(self@, visited@);
                assert(self@.pending.len() - visited@.len() < first || (self@.pending.len() - visited@.len() == first && work@.len() < second));
            }
        }
        proof {
            assert(work@ =~= Seq::<Digest>::empty());
            if is_pending(v0, digest) {
                assert(self@.pending == v0.pending);
                assert(visited@.contains(digest));
                assert(seen_closed(self@, visited@, Seq::empty(), source));
            }
        }
    }
}

impl DagDriver {
    fn add_dependency_at(&mut self, i: usize, d: Digest)
        requires
            i < old(self)@.missing.len(),
        ensures
            final(self)@ == (DriverView { missing: final(self)@.missing, ..old(self)@ }),
            final(self)@.missing.len() == old(self)@.missing.len(),
            missing_grows(old(self)@, final(self)@),
            final(self)@.missing[i as int].1.dependencies.contains(d),
            final(self)@.missing[i as int].1 == (MissingView {
                dependencies: if old(self)@.missing[i as int].1.dependencies.contains(d) {
                    old(self)@.missing[i as int].1.dependencies
                } else {
                    old(self)@.missing[i as int].1.dependencies.push(d)
                },
                ..old(self)@.missing[i as int].1
            }),
            old(self)@.missing[i as int].1.dependencies.no_duplicates() ==> final(self)@.missing[i as int].1.dependencies.no_duplicates(),
            final(self)@.missing[i as int].1.peers == old(self)@.missing[i as int].1.peers,
            forall|j: int| 0 <= j < old(self)@.missing.len() && j != i ==> final(self)@.missing[j] == old(self)@.missing[j],
    {
        let ghost v0 = self@;
        let (k, mut e) = self.missing.remove(i);
        let ghost before = e@;
        e.add_dependency(d);
        proof {
            if before.dependencies.no_duplicates() {
                lemma_push_unique(before.dependencies, d);
            }
            assert(before == v0.missing[i as int].1);
            if !before.dependencies.contains(d) {
                assert(e@.dependencies[before.dependencies.len() as int] == d);
                assert forall|x: Digest| before.dependencies.contains(x) implies e@.dependencies.contains(x) by {
                    let t = choose|t: int| 0 <= t < before.dependencies.len() && before.dependencies[t] == x;
                    assert(e@.dependencies[t] == x);
                }
            }
        }
        self.missing.insert(i, (k, e));
        assert(self@.missing[i as int] == (k, e@));
        assert forall|j: int| 0 <= j < v0.missing.len() && j != i implies self@.missing[j] == v0.missing[j] by {
            assert(self.missing@[j] == old(self).missing@[j]);
        }
        assert(self@.pending =~= v0.pending);
    }

    fn push_missing(&mut self, d: Digest, e: MissingDagNodeData)
        ensures
            final(self)@ == (DriverView { missing: old(self)@.missing.push((d, e@)), ..old(self)@ }),
    {
        self.missing.push((d, e));
        assert(self@.missing =~= old(self)@.missing.push((d, e@)));
        assert(self@.pending =~= old(self)@.pending);
    }

    fn push_pending(&mut self, p: PendingNode)
        ensures
            final(self)@ == (DriverView { pending: old(self)@.pending.push(p@), ..old(self)@ }),
    {
        self.pending.push(p);
        assert(self@.pending =~= old(self)@.pending.push(p@));
        assert(self@.missing =~= old(self)@.missing);
    }

    /// Registers in the missing index that the pending node `pending_digest`
    /// of `pending_source` waits on `parent`.
    fn note_missing_parent(&mut self, parent: Parent, pending_digest: Digest, pending_source: PeerId, pending_round: Round)
        requires
            indices_wf(old(self)@),
            linked_outside(old(self)@, pending_digest),
            back_linked(old(self)@),
            dependent_pending(old(self)@, pending_digest, parent.digest),
            pending_round >= 1,
        ensures
            indices_wf(final(self)@),
            linked_outside(final(self)@, pending_digest),
            back_linked(final(self)@),
            final(self)@ == (DriverView { missing: final(self)@.missing, ..old(self)@ }),
            missing_grows(old(self)@, final(self)@),
            waits_on(final(self)@, parent.digest, pending_digest, pending_source),
            is_missing(old(self)@, parent.digest) ==> final(self)@.missing.len() == old(self)@.missing.len(),
            !is_missing(old(self)@, parent.digest) ==> final(self)@.missing.len() == old(self)@.missing.len() + 1 && {
                let e = final(self)@.missing[old(self)@.missing.len() as int];
                &&& e.0 == parent.digest
                &&& e.1.node_source == parent.peer
                &&& e.1.node_round == pending_round - 1
                &&& e.1.need_to_send_request == !is_pending(old(self)@, parent.digest)
            },
    {
        let ghost v0 = self@;
        match self.find_missing(parent.digest) {
            Some(mi) => {
                self.add_dependency_at(mi, pending_digest);
                let ghost v1 = self@;
                self.add_peer_at(mi, pending_source);
                proof {
                    assert(self@.missing[mi as int].1.dependencies == v1.missing[mi as int].1.dependencies);
                    broadcast use vstd::seq_lib::lemma_seq_contains_after_push;
                    assert forall|i: int, x: Digest| 0 <= i < self@.missing.len() && #[trigger] self@.missing[i].1.dependencies.contains(x)
                        implies (i < v0.missing.len() && self@.missing[i].0 == v0.missing[i].0 && v0.missing[i].1.dependencies.contains(x))
                            || (x == pending_digest && self@.missing[i].0 == parent.digest) by {
                        if i != mi {
                            assert(self@.missing[i] == v0.missing[i]);
                        } else {
                            assert(self@.missing[i].0 == v0.missing[i].0);
                        }
                    }
                    lemma_back_linked_extend(v0, self@, pending_digest, parent.digest);
                    assert forall|i: int| 0 <= i < v0.missing.len() implies {
                        &&& (#[trigger] self@.missing[i]).0 == v0.missing[i].0
                        &&& self@.missing[i].1.node_source == v0.missing[i].1.node_source
                        &&& self@.missing[i].1.node_round == v0.missing[i].1.node_round
                        &&& self@.missing[i].1.need_to_send_request == v0.missing[i].1.need_to_send_request
                        &&& forall|x: Digest| v0.missing[i].1.dependencies.contains(x) ==> #[trigger] self@.missing[i].1.dependencies.contains(x)
                        &&& forall|x: PeerId| v0.missing[i].1.peers.contains(x) ==> #[trigger] self@.missing[i].1.peers.contains(x)
                    } by {
                        assert(v1.missing[i].0 == v0.missing[i].0);
                        assert(self@.missing[i].0 == v1.missing[i].0);
                    }
                    assert(self@.missing[mi as int].0 == parent.digest);
                    lemma_linked_outside_grows(v0, self@, pending_digest);
                }
            },
            None => {
                let need = self.find_pending(parent.digest).is_none();
                let mut e = MissingDagNodeData::new(parent.peer, pending_round - 1, need);
                e.add_dependency(pending_digest);
                e.add_peer(pending_source);
                proof {
                    assert(e@.dependencies[0] == pending_digest);
                    assert(e@.peers[0] == pending_source);
                    assert(e@.dependencies.no_duplicates());
                    assert(e@.peers.no_duplicates());
                }
                self.push_missing(parent.digest, e);
                proof {
                    let last = v0.missing.len() as int;
                    assert(self@.missing[last].0 == parent.digest);
                    assert forall|i: int| 0 <= i < v0.missing.len() implies #[trigger] self@.missing[i] == v0.missing[i] by {}
                    lemma_linked_outside_grows(v0, self@, pending_digest);
                    assert forall|i: int, x: Digest| 0 <= i < self@.missing.len() && #[trigger] self@.missing[i].1.dependencies.contains(x)
                        implies (i < v0.missing.len() && self@.missing[i].0 == v0.missing[i].0 && v0.missing[i].1.dependencies.contains(x))
                            || (x == pending_digest && self@.missing[i].0 == parent.digest) by {
                        if i == v0.missing.len() {
                            assert(self@.missing[i].1.dependencies == seq![pending_digest]);
                        }
                    }
                    lemma_back_linked_extend(v0, self@, pending_digest, parent.digest);
                }
            },
        }
    }
}

impl DagDriver {
    fn disable_at(&mut self, i: usize)
        requires
            i < old(self)@.missing.len(),
        ensures
            final(self)@ == (DriverView {
                missing: old(self)@.missing.update(
                    i as int,
                    (old(self)@.missing[i as int].0, MissingView { need_to_send_request: false, ..old(self)@.missing[i as int].1 }),
                ),
                ..old(self)@
            }),
    {
        let ghost v0 = self@;
        let (k, mut e) = self.missing.remove(i);
        e.disable_requests();
        self.missing.insert(i, (k, e));
        assert(self@.missing =~= v0.missing.update(
            i as int,
            (v0.missing[i as int].0, MissingView { need_to_send_request: false, ..v0.missing[i as int].1 }),
        ));
        assert(self@.pending =~= v0.pending);
    }

    /// Parks `node` as pending on `missing_parents`, clears the fetch flag of
    /// its own missing entry, registers each of its missing parents in
    /// the missing index, then hands the node's author on as a peer to every
    /// fetchable ancestor reached through them.
    fn add_to_pending(&mut self, node: CertifiedNode, missing_parents: Vec<Parent>)
        requires
            driver_wf(old(self)@),
            missing_parents@.len() > 0,
            !is_pending(old(self)@, node.digest),
            !in_dag(old(self)@.dag, node.digest),
            node.round >= 1,
            node.parents@.len() > 0,
            forall|k: int| 0 <= k < node.parents@.len()
                ==> missing_parents@.contains(#[trigger] node.parents@[k]) || in_dag(old(self)@.dag, node.parents@[k].digest),
        ensures
            driver_wf(final(self)@),
            final(self)@.my_id == old(self)@.my_id,
            final(self)@.dag == old(self)@.dag,
            final(self)@.pending.len() == old(self)@.pending.len() + 1,
            final(self)@.pending.drop_last() == old(self)@.pending,
            final(self)@.pending.last().node == node@,
            parent_digests(missing_parents@, final(self)@.pending.last().missing_parents),
            missing_grows(with_requests_disabled(old(self)@, node.digest), final(self)@),
            forall|k: int| 0 <= k < missing_parents@.len()
                ==> waits_on(final(self)@, #[trigger] missing_parents@[k].digest, node.digest, node.source),
            forall|i: int| old(self)@.missing.len() <= i < final(self)@.missing.len()
                ==> new_missing_entry(old(self)@, NodeView { parents: missing_parents@, ..node@ }, #[trigger] final(self)@.missing[i]),
            forall|k: int| 0 <= k < missing_parents@.len() && is_pending(final(self)@, #[trigger] missing_parents@[k].digest)
                ==> peer_propagated(final(self)@, missing_parents@[k].digest, node.source),
    {
        let ghost v0 = self@;
        let ghost nm = NodeView { parents: missing_parents@, ..node@ };
        let pending_source = node.source;
        let pending_digest = node.digest;
        let pending_round = node.round;
        let mut ds: Vec<Digest> = Vec::new();
        let mut k: usize = 0;
        while k < missing_parents.len()
            invariant
                k <= missing_parents@.len(),
                parent_digests(missing_parents@.subrange(0, k as int), ds@),
            decreases missing_parents@.len() - k,
        {
            let ghost before = ds@;
            insert_unique(&mut ds, missing_parents[k].digest);
            proof {
                let x0 = missing_parents@[k as int].digest;
                let sub = missing_parents@.subrange(0, k + 1);
                assert(sub[k as int].digest == x0);
                assert forall|x: Digest| ds@.contains(x) <==> exists|j: int| 0 <= j < sub.len() && #[trigger] sub[j].digest == x by {
                    if ds@.contains(x) && x != x0 {
                        let t = choose|t: int| 0 <= t < ds@.len() && ds@[t] == x;
                        assert(before[t] == x);
                        assert(before.contains(x));
                        let j = choose|j: int| 0 <= j < k && #[trigger] missing_parents@.subrange(0, k as int)[j].digest == x;
                        assert(sub[j].digest == x);
                    }
                    if x == x0 && !before.contains(x0) {
                        assert(ds@[before.len() as int] == x0);
                    }
                    if exists|j: int| 0 <= j < sub.len() && #[trigger] sub[j].digest == x {
                        let j = choose|j: int| 0 <= j < sub.len() && #[trigger] sub[j].digest == x;
                        if j < k {
                            assert(missing_parents@.subrange(0, k as int)[j].digest == x);
                            assert(before.contains(x));
                            let t = choose|t: int| 0 <= t < before.len() && before[t] == x;
                            assert(ds@[t] == x);
                        }
                    }
                }
            }
            k = k + 1;
        }
        assert(missing_parents@.subrange(0, missing_parents@.len() as int) =~= missing_parents@);
        assert(ds@.contains(missing_parents@[0].digest));
        let ghost dsv = ds@;
        let ghost node_view = node@;
        self.push_pending(PendingNode { node, missing_parents: ds });
        proof {
            lemma_pending_push(v0, self@, self@.pending.last());
            assert(self@.pending.drop_last() =~= v0.pending);
            assert(dsv.len() > 0);
        }
        proof {
            let np = self@.pending.last();
            assert forall|k: int| 0 <= k < np.node.parents.len() implies np.missing_parents.contains(#[trigger] np.node.parents[k].digest)
                || in_dag(self@.dag, np.node.parents[k].digest) by {
                if missing_parents@.contains(np.node.parents[k]) {
                    let t = choose|t: int| 0 <= t < missing_parents@.len() && missing_parents@[t] == np.node.parents[k];
                    assert(missing_parents@[t].digest == np.node.parents[k].digest);
                }
            }
            assert(pending_parents_ok(self@.dag, np));
        }
        let ghost vp = self@;
        let ghost v0d = with_requests_disabled(v0, pending_digest);
        match self.find_missing(pending_digest) {
            Some(mi) => {
                self.disable_at(mi);
                proof {
                    assert forall|i: int| 0 <= i < vp.missing.len() && i != mi implies vp.missing[i].0 != pending_digest by {}
                    assert(self@.missing =~= v0d.missing);
                }
            },
            None => {
                proof {
                    assert forall|i: int| 0 <= i < vp.missing.len() implies vp.missing[i].0 != pending_digest by {
                        if vp.missing[i].0 == pending_digest {
                            assert(is_missing(vp, pending_digest));
                        }
                    }
                    assert(self@.missing =~= v0d.missing);
                }
            },
        }
        let ghost v1 = self@;
        proof {
            lemma_back_linked_push(v0, vp, vp.pending.last());
            assert(vp == (DriverView { pending: v0.pending.push(vp.pending.last()), ..v0 }));
            assert forall|i: int| 0 <= i < vp.missing.len() implies (#[trigger] v1.missing[i]).0 == vp.missing[i].0
                && v1.missing[i].1.dependencies == vp.missing[i].1.dependencies by {}
            lemma_back_linked_same(vp, v1);
        }
        assert(v0d.missing.len() == v0.missing.len());
        assert forall|t: int| 0 <= t < v0.missing.len() implies #[trigger] v0d.missing[t].0 == v0.missing[t].0 by {}
        assert forall|pi: int, q: int|
            0 <= pi < v1.pending.len() && 0 <= q < v1.pending[pi].missing_parents.len() && v1.pending[pi].node.digest != pending_digest
                implies listed_dependency(v1, #[trigger] v1.pending[pi].missing_parents[q], v1.pending[pi].node.digest) by {
            let m = v1.pending[pi].missing_parents[q];
            let p = v1.pending[pi].node.digest;
            assert(pi < v0.pending.len());
            assert(v0.pending[pi] == v1.pending[pi]);
            assert(listed_dependency(v0, v0.pending[pi].missing_parents[q], p));
            let mi = choose|mi: int| 0 <= mi < v0.missing.len() && #[trigger] v0.missing[mi].0 == m && v0.missing[mi].1.dependencies.contains(p);
            assert(v1.missing[mi].0 == m);
            assert(v1.missing[mi].1.dependencies == v0.missing[mi].1.dependencies);
        }
        let mut k: usize = 0;
        while k < missing_parents.len()
            invariant
                k <= missing_parents@.len(),
                pending_round >= 1,
                nm.parents == missing_parents@,
                nm.digest == pending_digest,
                nm.round == pending_round,
                indices_wf(self@),
                linked_outside(self@, pending_digest),
                back_linked(self@),
                node_view.digest == pending_digest,
                self@.pending.len() > 0,
                self@.pending.last() == (PendingView { node: node_view, missing_parents: dsv }),
                parent_digests(missing_parents@, dsv),
                self@ == (DriverView { missing: self@.missing, ..v1 }),
                missing_grows(v1, self@),
                v1.missing == v0d.missing,
                v1.missing.len() == v0.missing.len(),
                forall|t: int| 0 <= t < v0.missing.len() ==> #[trigger] v0d.missing[t].0 == v0.missing[t].0,
                forall|x: Digest| is_pending(v1, x) <==> (is_pending(v0, x) || x == pending_digest),
                forall|j: int| 0 <= j < k ==> waits_on(self@, #[trigger] missing_parents@[j].digest, pending_digest, pending_source),
                forall|i: int| v0.missing.len() <= i < self@.missing.len() ==> new_missing_entry(v0, nm, #[trigger] self@.missing[i]),
            decreases missing_parents@.len() - k,
        {
            let ghost prev = self@;
            proof {
                let x = missing_parents@[k as int].digest;
                assert(dsv.contains(x));
                let last = self@.pending.len() - 1;
                assert(self@.pending[last].node.digest == pending_digest);
                assert(self@.pending[last].missing_parents.contains(x));
            }
            self.note_missing_parent(missing_parents[k], pending_digest, pending_source, pending_round);
            proof {
                let x = missing_parents@[k as int].digest;
                assert(nm.parents[k as int].digest == x);
                assert forall|j: int| 0 <= j < k + 1 implies waits_on(self@, #[trigger] missing_parents@[j].digest, pending_digest, pending_source) by {
                    if j < k {
                        lemma_waits_on_grows(prev, self@, missing_parents@[j].digest, pending_digest, pending_source);
                    }
                }
                assert forall|i: int| v0.missing.len() <= i < self@.missing.len() implies new_missing_entry(v0, nm, #[trigger] self@.missing[i]) by {
                    if i < prev.missing.len() {
                        assert(prev.missing[i].0 == self@.missing[i].0);
                        assert(new_missing_entry(v0, nm, prev.missing[i]));
                    } else {
                        assert(!is_missing(prev, x));
                        assert(i == prev.missing.len());
                        assert(prev.pending == v1.pending);
                        assert(is_pending(prev, x) == is_pending(v1, x));
                        assert(self@.missing[i].0 == x);
                        assert(self@.missing[i].1.need_to_send_request == !(is_pending(v0, x) || x == nm.digest));
                        assert(self@.missing[i].1.node_round == nm.round - 1);
                        assert(nm.parents[k as int].peer == self@.missing[i].1.node_source);
                        assert forall|k2: int| 0 <= k2 < k implies nm.parents[k2].digest != x by {
                            assert(waits_on(prev, missing_parents@[k2].digest, pending_digest, pending_source));
                            if nm.parents[k2].digest == x {
                                let mi = choose|mi: int| 0 <= mi < prev.missing.len() && #[trigger] prev.missing[mi].0 == x
                                    && prev.missing[mi].1.dependencies.contains(pending_digest) && prev.missing[mi].1.peers.contains(pending_source);
                                assert(is_missing(prev, x));
                            }
                        }
                        if is_missing(v0, x) {
                            let t = choose|t: int| 0 <= t < v0.missing.len() && #[trigger] v0.missing[t].0 == x;
                            assert(v0d.missing[t].0 == v0.missing[t].0);
                            assert(v1.missing[t].0 == x);
                            assert(v1.missing.len() == v0.missing.len());
                            assert(missing_grows(v1, prev));
                            assert(prev.missing[t].0 == v1.missing[t].0);
                        }
                    }
                }
                assert forall|i: int| 0 <= i < v1.missing.len() implies {
                    &&& (#[trigger] self@.missing[i]).0 == v1.missing[i].0
                    &&& self@.missing[i].1.node_source == v1.missing[i].1.node_source
                    &&& self@.missing[i].1.node_round == v1.missing[i].1.node_round
                    &&& self@.missing[i].1.need_to_send_request == v1.missing[i].1.need_to_send_request
                    &&& forall|y: Digest| v1.missing[i].1.dependencies.contains(y) ==> #[trigger] self@.missing[i].1.dependencies.contains(y)
                    &&& forall|y: PeerId| v1.missing[i].1.peers.contains(y) ==> #[trigger] self@.missing[i].1.peers.contains(y)
                } by {
                    assert(prev.missing[i].0 == v1.missing[i].0);
                }
            }
            k = k + 1;
        }
        proof {
            assert forall|pi: int, q: int| 0 <= pi < self@.pending.len() && 0 <= q < self@.pending[pi].missing_parents.len()
                implies listed_dependency(self@, #[trigger] self@.pending[pi].missing_parents[q], self@.pending[pi].node.digest) by {
                if self@.pending[pi].node.digest == pending_digest {
                    let last = self@.pending.len() - 1;
                    assert(pi == last);
                    let x = dsv[q];
                    assert(dsv.contains(x));
                    let kk = choose|kk: int| 0 <= kk < missing_parents@.len() && #[trigger] missing_parents@[kk].digest == x;
                    assert(waits_on(self@, missing_parents@[kk].digest, pending_digest, pending_source));
                    let mi = choose|mi: int|
                        0 <= mi < self@.missing.len() && #[trigger] self@.missing[mi].0 == x && self@.missing[mi].1.dependencies.contains(pending_digest)
                            && self@.missing[mi].1.peers.contains(pending_source);
                }
            }
        }
        let ghost v2 = self@;
        let mut k: usize = 0;
        while k < missing_parents.len()
            invariant
                k <= missing_parents@.len(),
                driver_wf(self@),
                peers_frame(v2, self@),
                forall|j: int| 0 <= j < k && is_pending(self@, #[trigger] missing_parents@[j].digest)
                    ==> peer_propagated(self@, missing_parents@[j].digest, pending_source),
            decreases missing_parents@.len() - k,
        {
            let ghost prev = self@;
            self.add_peers_recursively(missing_parents[k].digest, pending_source);
            proof {
                assert forall|j: int| 0 <= j < k + 1 && is_pending(self@, #[trigger] missing_parents@[j].digest)
                    implies peer_propagated(self@, missing_parents@[j].digest, pending_source) by {
                    if j < k {
                        lemma_propagated_peers(prev, self@, missing_parents@[j].digest, pending_source);
                    }
                }
                assert forall|i: int| 0 <= i < v2.missing.len() implies {
                    &&& (#[trigger] self@.missing[i]).0 == v2.missing[i].0
                    &&& self@.missing[i].1 == MissingView { peers: self@.missing[i].1.peers, ..v2.missing[i].1 }
                    &&& forall|x: PeerId| v2.missing[i].1.peers.contains(x) ==> #[trigger] self@.missing[i].1.peers.contains(x)
                } by {
                    assert(prev.missing[i].0 == v2.missing[i].0);
                    assert(prev.missing[i].1 == MissingView { peers: prev.missing[i].1.peers, ..v2.missing[i].1 });
                }
            }
            k = k + 1;
        }
        proof {
            lemma_peers_frame_grows(v2, self@);
            assert forall|j: int| 0 <= j < missing_parents@.len()
                implies waits_on(self@, #[trigger] missing_parents@[j].digest, pending_digest, pending_source) by {
                lemma_waits_on_grows(v2, self@, missing_parents@[j].digest, pending_digest, pending_source);
            }
            assert forall|i: int| v0.missing.len() <= i < self@.missing.len()
                implies new_missing_entry(v0, nm, #[trigger] self@.missing[i]) by {
                assert(v2.missing[i].0 == self@.missing[i].0);
                assert(new_missing_entry(v0, nm, v2.missing[i]));
            }
            assert forall|i: int| 0 <= i < v0d.missing.len() implies {
                &&& (#[trigger] self@.missing[i]).0 == v0d.missing[i].0
                &&& self@.missing[i].1.node_source == v0d.missing[i].1.node_source
                &&& self@.missing[i].1.node_round == v0d.missing[i].1.node_round
                &&& self@.missing[i].1.need_to_send_request == v0d.missing[i].1.need_to_send_request
                &&& forall|y: Digest| v0d.missing[i].1.dependencies.contains(y) ==> #[trigger] self@.missing[i].1.dependencies.contains(y)
                &&& forall|y: PeerId| v0d.missing[i].1.peers.contains(y) ==> #[trigger] self@.missing[i].1.peers.contains(y)
            } by {
                assert(v2.missing[i].0 == v0d.missing[i].0);
            }
            assert(missing_grows(v0d, self@));
        }
    }
}

impl DagDriver {
    /// The parents of `node` that are not in the round below it.
    fn absent_parents(&self, node: &CertifiedNode) -> (r: Vec<Parent>)
        requires
            node.round >= 1,
        ensures
            r@ == absent_parents(self@, node@),
    {
        let ghost pred = |p: Parent| !in_round(self@.dag, node.round - 1, p.digest);
        let mut r: Vec<Parent> = Vec::new();
        let mut k: usize = 0;
        while k < node.parents.len()
            invariant
                node.round >= 1,
                k <= node.parents@.len(),
                r@ == node.parents@.subrange(0, k as int).filter(|p: Parent| !in_round(self@.dag, node.round - 1, p.digest)),
            decreases node.parents@.len() - k,
        {
            proof {
                node.parents@.subrange(0, k as int).lemma_filter_push(
                    node.parents@[k as int],
                    |p: Parent| !in_round(self@.dag, node.round - 1, p.digest),
                );
                assert(node.parents@.subrange(0, k + 1) =~= node.parents@.subrange(0, k as int).push(node.parents@[k as int]));
            }
            let p = node.parents[k];
            if !self.dag.contains_digest_in_round(node.round - 1, p.digest) {
                r.push(p);
            }
            k = k + 1;
        }
        assert(node.parents@.subrange(0, node.parents@.len() as int) =~= node.parents@);
        r
    }

    /// Takes in a certified node: drops it when it is known already, writes it
    /// into the DAG when its parents are there (promoting what waited on it),
    /// parks it as pending otherwise; then returns the ack owed to its author.
    pub fn handle_certified_node(&mut self, certified_node: CertifiedNode, ack_required: bool) -> (r: Option<AckMessage>)
        requires
            driver_wf(old(self)@),
        ensures
            delivered(old(self)@, certified_node@, final(self)@),
            r == ack_for(old(self)@, certified_node@, ack_required),
    {
        let ghost v0 = self@;
        let ghost n = certified_node@;
        let digest = certified_node.digest;
        let source = certified_node.source;
        let ack = if ack_required {
            Some(AckMessage { ack: CertifiedNodeAck::new(digest, self.my_id), recipient: source })
        } else {
            None
        };
        if certified_node.round == 0 || self.dag.contains(certified_node.round, source) || self.dag.contains_digest(digest)
            || self.find_pending(digest).is_some() {
            return ack;
        }
        let missing_parents = self.absent_parents(&certified_node);
        if missing_parents.len() == 0 {
            if certified_node.round > self.dag.len() as u64 {
                return ack;
            }
            proof {
                assert forall|k: int| 0 <= k < n.parents.len() implies in_round(v0.dag, n.round - 1, #[trigger] n.parents[k].digest) by {
                    if !in_round(v0.dag, n.round - 1, n.parents[k].digest) {
                        n.parents.lemma_filter_contains(|p: Parent| !in_round(v0.dag, n.round - 1, p.digest), k);
                        assert(absent_parents(v0, n).contains(n.parents[k]));
                    }
                }
            }
            self.add_to_dag(certified_node);
            proof {
                let i = choose|i: int| 0 <= i < self@.dag[n.round as int].len() && #[trigger] self@.dag[n.round as int][i] == n;
                assert(self@.dag[n.round as int][i].source == n.source);
            }
        } else {
            proof {
                let pred = |p: Parent| !in_round(v0.dag, n.round - 1, p.digest);
                n.parents.lemma_filter_len(pred);
                assert forall|k: int| 0 <= k < n.parents.len()
                    implies missing_parents@.contains(#[trigger] n.parents[k]) || in_dag(v0.dag, n.parents[k].digest) by {
                    if !in_round(v0.dag, n.round - 1, n.parents[k].digest) {
                        n.parents.lemma_filter_contains(pred, k);
                    } else {
                        assert(in_round(v0.dag, n.round - 1, n.parents[k].digest));
                    }
                }
            }
            self.add_to_pending(certified_node, missing_parents);
            proof {
                assert(self@.pending[self@.pending.len() - 1].node.digest == digest);
            }
        }
        ack
    }
}

} // verus!
