use vstd::prelude::*;

use crate::digest_set::insert_unique;
use crate::types::{Digest, PeerId, Round};

verus! {

/// What the driver knows of a node that some pending node names as a parent
/// but that is not in the DAG yet.
pub struct MissingDagNodeData {
    node_source: PeerId,
    node_round: Round,
    immediate_dependencies: Vec<Digest>,
    peers_to_request: Vec<PeerId>,
    need_to_send_request: bool,
}

/// The contents of a [`MissingDagNodeData`] as plain values.
pub ghost struct MissingView {
    pub node_source: PeerId,
    pub node_round: Round,
    /// Digests of the pending nodes that wait on this one.
    pub dependencies: Seq<Digest>,
    /// Peers believed to hold this node.
    pub peers: Seq<PeerId>,
    /// True when the node has not been received at all and must be fetched;
    /// false when it is held as a pending node itself.
    pub need_to_send_request: bool,
}

impl View for MissingDagNodeData {
    type V = MissingView;

    closed spec fn view(&self) -> MissingView {
        MissingView {
            node_source: self.node_source,
            node_round: self.node_round,
            dependencies: self.immediate_dependencies@,
            peers: self.peers_to_request@,
            need_to_send_request: self.need_to_send_request,
        }
    }
}

impl MissingDagNodeData {
    pub fn new(node_source: PeerId, node_round: Round, need_to_send_request: bool) -> (r: Self)
        ensures
            r@ == (MissingView {
                node_source,
                node_round,
                dependencies: Seq::empty(),
                peers: Seq::empty(),
                need_to_send_request,
            }),
    {
        MissingDagNodeData {
            node_source,
            node_round,
            immediate_dependencies: Vec::new(),
            peers_to_request: Vec::new(),
            need_to_send_request,
        }
    }

    pub fn node_source(&self) -> (r: PeerId)
        ensures
            r == self@.node_source,
    {
        self.node_source
    }

    pub fn node_round(&self) -> (r: Round)
        ensures
            r == self@.node_round,
    {
        self.node_round
    }

    pub fn need_to_send_request(&self) -> (r: bool)
        ensures
            r == self@.need_to_send_request,
    {
        self.need_to_send_request
    }

    /// Records `peer_id` as a holder of the node, once.
    pub fn add_peer(&mut self, peer_id: PeerId)
        ensures
            final(self)@ == (MissingView {
                peers: if old(self)@.peers.contains(peer_id) {
                    old(self)@.peers
                } else {
                    old(self)@.peers.push(peer_id)
                },
                ..old(self)@
            }),
    {
        insert_unique(&mut self.peers_to_request, peer_id);
    }

    /// Records that the pending node `dependency` waits on this one, once.
    pub fn add_dependency(&mut self, dependency: Digest)
        ensures
            final(self)@ == (MissingView {
                dependencies: if old(self)@.dependencies.contains(dependency) {
                    old(self)@.dependencies
                } else {
                    old(self)@.dependencies.push(dependency)
                },
                ..old(self)@
            }),
    {
        insert_unique(&mut self.immediate_dependencies, dependency);
    }

    /// The peers to ask for the node.
    pub fn peers_to_request(&self) -> (r: Vec<PeerId>)
        ensures
            r@ == self@.peers,
    {
        self.peers_to_request.clone()
    }

    /// The digests of the pending nodes that wait on this one.
    pub fn dependencies(&self) -> (r: Vec<Digest>)
        ensures
            r@ == self@.dependencies,
    {
        self.immediate_dependencies.clone()
    }

    /// Marks the node as held locally, so that no fetch is sent for it.
    pub fn disable_requests(&mut self)
        ensures
            final(self)@ == (MissingView { need_to_send_request: false, ..old(self)@ }),
    {
        self.need_to_send_request = false;
    }

    /// The digests of the pending nodes that wait on this one.
    pub fn take_dependencies(self) -> (r: Vec<Digest>)
        ensures
            r@ == self@.dependencies,
    {
        self.immediate_dependencies
    }
}

} // verus!
