use vstd::prelude::*;

use crate::dag::{in_dag, in_round, in_slot, slot_taken};
use crate::model::{
    absent_parents, ack_for, cascade_frame, delivered, driver_wf, dropped, fresh, is_missing, listed_dependency, pending_node,
    was_pending, fetch_requests, blocked, inserted, released,
    DriverView,
};
use crate::missing::MissingView;
use crate::types::{Digest, NodeView};

verus! {

/// Every pending node still waits on at least one parent.
pub proof fn lemma_pending_waits(v: DriverView)
    requires
        driver_wf(v),
    ensures
        forall|i: int| 0 <= i < v.pending.len() ==> #[trigger] v.pending[i].missing_parents.len() >= 1,
{
}

/// Every missing entry has at least one pending node that waits on it.
pub proof fn lemma_missing_has_dependents(v: DriverView)
    requires
        driver_wf(v),
    ensures
        forall|i: int| 0 <= i < v.missing.len() ==> #[trigger] v.missing[i].1.dependencies.len() >= 1,
{
}

/// The DAG is no taller than its highest round plus one: every round above
/// genesis holds a node of that round, so the last round is the highest one
/// observed, and no round below it is skipped.
pub proof fn lemma_dag_height(v: DriverView)
    requires
        driver_wf(v),
    ensures
        v.dag.len() >= 1,
        forall|r: int| 1 <= r < v.dag.len() ==> #[trigger] v.dag[r].len() > 0 && v.dag[r][0].round == r,
        v.dag.len() > 1 ==> v.dag[v.dag.len() - 1][0].round + 1 == v.dag.len(),
{
}

/// No two nodes of the DAG share a round and an author.
pub proof fn lemma_one_node_per_slot(v: DriverView, r: int, i: int, j: int)
    requires
        driver_wf(v),
        0 <= r < v.dag.len(),
        0 <= i < v.dag[r].len(),
        0 <= j < v.dag[r].len(),
        v.dag[r][i].source == v.dag[r][j].source,
    ensures
        i == j,
{
}

/// Every parent of a node of the DAG is in the round below it.
pub proof fn lemma_parents_in_round_below(v: DriverView, r: int, i: int, k: int)
    requires
        driver_wf(v),
        0 <= r < v.dag.len(),
        0 <= i < v.dag[r].len(),
        0 <= k < v.dag[r][i].parents.len(),
    ensures
        r >= 1,
        in_round(v.dag, r - 1, v.dag[r][i].parents[k].digest),
{
    assert(v.dag[r][i].round == r);
}

/// Delivering the same node a second time leaves the state as the first
/// delivery left it, and owes the same acknowledgement.
pub proof fn lemma_redelivery_changes_nothing(v0: DriverView, n: NodeView, v1: DriverView, v2: DriverView, ack_required: bool)
    requires
        driver_wf(v0),
        delivered(v0, n, v1),
        delivered(v1, n, v2),
    ensures
        v2 == v1,
        ack_for(v1, n, ack_required) == ack_for(v0, n, ack_required),
{
}

/// A new node of round 1 with no parents goes straight into the DAG, and no
/// missing entry is created for it.
pub proof fn lemma_genesis_adjacent(v0: DriverView, n: NodeView, v1: DriverView)
    requires
        driver_wf(v0),
        fresh(v0, n),
        n.round == 1,
        n.parents.len() == 0,
        delivered(v0, n, v1),
    ensures
        in_slot(v1.dag, n),
        slot_taken(v1.dag, 1, n.source),
        forall|i: int| 0 <= i < v1.missing.len() ==> is_missing(v0, #[trigger] v1.missing[i].0),
        forall|i: int| 0 <= i < v1.pending.len() ==> pending_node(v0, #[trigger] v1.pending[i].node),
{
    assert(absent_parents(v0, n) =~= Seq::empty());
    assert(cascade_frame(v0, v1));
    let i = choose|i: int| 0 <= i < v1.dag[1].len() && #[trigger] v1.dag[1][i] == n;
    assert(v1.dag[1][i].source == n.source);
}

/// A pending node is not in the DAG, and its digest has no missing entry that
/// is still fetched.
pub proof fn lemma_pending_not_in_dag_nor_fetched(v: DriverView, i: int, j: int)
    requires
        driver_wf(v),
        0 <= i < v.pending.len(),
        0 <= j < v.missing.len(),
        v.missing[j].0 == v.pending[i].node.digest,
    ensures
        !in_dag(v.dag, v.pending[i].node.digest),
        !v.missing[j].1.need_to_send_request,
{
}


/// Once a delivered node is written into the DAG, no pending node waits on it
/// any more: the cascade has promoted, or dropped, every node whose last
/// missing parent it was.
pub proof fn lemma_inserted_node_awaited_by_none(v0: DriverView, n: NodeView, v1: DriverView)
    requires
        driver_wf(v0),
        delivered(v0, n, v1),
        !dropped(v0, n),
        absent_parents(v0, n).len() == 0,
    ensures
        forall|pi: int, q: int| 0 <= pi < v1.pending.len() && 0 <= q < v1.pending[pi].missing_parents.len()
            ==> #[trigger] v1.pending[pi].missing_parents[q] != n.digest,
{
    assert forall|pi: int, q: int| 0 <= pi < v1.pending.len() && 0 <= q < v1.pending[pi].missing_parents.len()
        implies #[trigger] v1.pending[pi].missing_parents[q] != n.digest by {
        if v1.pending[pi].missing_parents[q] == n.digest {
            assert(listed_dependency(v1, v1.pending[pi].missing_parents[q], v1.pending[pi].node.digest));
            let mi = choose|mi: int| 0 <= mi < v1.missing.len() && #[trigger] v1.missing[mi].0 == n.digest
                && v1.missing[mi].1.dependencies.contains(v1.pending[pi].node.digest);
            assert(is_missing(v1, n.digest));
        }
    }
}


/// A pending node that misses no parent but a delivered node leaves the
/// pending index once that node is written into the DAG.
pub proof fn lemma_last_missing_parent_releases(v0: DriverView, n: NodeView, v1: DriverView, i: int)
    requires
        driver_wf(v0),
        delivered(v0, n, v1),
        !dropped(v0, n),
        absent_parents(v0, n).len() == 0,
        0 <= i < v0.pending.len(),
        forall|q: int| 0 <= q < v0.pending[i].missing_parents.len() ==> #[trigger] v0.pending[i].missing_parents[q] == n.digest,
    ensures
        !pending_node(v1, v0.pending[i].node),
{
    let m = v0.pending[i].node;
    if pending_node(v1, m) {
        let k = choose|k: int| 0 <= k < v1.pending.len() && #[trigger] v1.pending[k].node == m;
        assert(was_pending(v0, v1.pending[k]));
        let j = choose|j: int|
            0 <= j < v0.pending.len() && #[trigger] v0.pending[j].node == v1.pending[k].node
                && forall|x: Digest| v1.pending[k].missing_parents.contains(x) ==> v0.pending[j].missing_parents.contains(x);
        assert(v0.pending[j].node.digest == v0.pending[i].node.digest);
        assert(j == i);
        let x = v1.pending[k].missing_parents[0];
        assert(v1.pending[k].missing_parents.contains(x));
        assert(v0.pending[i].missing_parents.contains(x));
        lemma_inserted_node_awaited_by_none(v0, n, v1);
        assert(v1.pending[k].missing_parents[0] != n.digest);
    }
}


/// Each fetch request of a retry tick goes to each of its peers once.
pub proof fn lemma_fetch_peers_unique(v: DriverView, k: int)
    requires
        driver_wf(v),
        0 <= k < fetch_requests(v).len(),
    ensures
        fetch_requests(v)[k].1.no_duplicates(),
{
    let f = v.missing.filter(|e: (Digest, MissingView)| e.1.need_to_send_request);
    assert(f.contains(f[k]));
    v.missing.lemma_filter_contains_rev(|e: (Digest, MissingView)| e.1.need_to_send_request, f[k]);
    let t = choose|t: int| 0 <= t < v.missing.len() && v.missing[t] == f[k];
    assert(v.missing[t].1.peers.no_duplicates());
}


/// Once a delivered node is written into the DAG, every pending node whose
/// missing parents have all entered the DAG leaves the pending index, and
/// stands in its slot unless the slot holds another node or a parent of it
/// stands in another round than the one below it.
pub proof fn lemma_ready_nodes_promoted(v0: DriverView, n: NodeView, v1: DriverView, j: int)
    requires
        driver_wf(v0),
        delivered(v0, n, v1),
        !dropped(v0, n),
        absent_parents(v0, n).len() == 0,
        0 <= j < v0.pending.len(),
        forall|x: Digest| v0.pending[j].missing_parents.contains(x) ==> inserted(v0, v1, x),
    ensures
        released(v0, v1, v0.pending[j].node),
        !blocked(v1.dag, v0.pending[j].node) ==> in_slot(v1.dag, v0.pending[j].node),
{
    assert(released(v0, v1, v0.pending[j].node));
}

} // verus!
