use vstd::prelude::*;

verus! {

/// Identifier of a validator.
pub type PeerId = u64;

/// Depth of a node in the DAG.
pub type Round = u64;

/// Hash that identifies a certified node.
pub type Digest = u64;

/// A reference from a node to one of its immediate ancestors.
#[derive(Clone, Copy, Debug, PartialEq, Eq, Structural)]
pub struct Parent {
    pub peer: PeerId,
    pub digest: Digest,
}

/// A node that carries a quorum of signatures; the driver takes it as given.
#[derive(Debug)]
pub struct CertifiedNode {
    pub source: PeerId,
    pub round: Round,
    pub digest: Digest,
    pub parents: Vec<Parent>,
}

/// What a certified node holds, as plain values.
pub ghost struct NodeView {
    pub source: PeerId,
    pub round: Round,
    pub digest: Digest,
    pub parents: Seq<Parent>,
}

impl View for CertifiedNode {
    type V = NodeView;

    open spec fn view(&self) -> NodeView {
        NodeView { source: self.source, round: self.round, digest: self.digest, parents: self.parents@ }
    }
}

/// Acknowledgement that `acker` holds the node with `digest`.
#[derive(Clone, Copy, Debug, PartialEq, Eq, Structural)]
pub struct CertifiedNodeAck {
    pub digest: Digest,
    pub acker: PeerId,
}

impl CertifiedNodeAck {
    pub fn new(digest: Digest, acker: PeerId) -> (r: Self)
        ensures
            r.digest == digest,
            r.acker == acker,
    {
        CertifiedNodeAck { digest, acker }
    }
}

/// Request for the node that `node_source` authored at `node_round` with `digest`.
#[derive(Clone, Copy, Debug, PartialEq, Eq, Structural)]
pub struct CertifiedNodeRequest {
    pub node_source: PeerId,
    pub node_round: Round,
    pub digest: Digest,
    pub requester: PeerId,
}

impl CertifiedNodeRequest {
    pub fn new(node_source: PeerId, node_round: Round, digest: Digest, requester: PeerId) -> (r: Self)
        ensures
            r.node_source == node_source,
            r.node_round == node_round,
            r.digest == digest,
            r.requester == requester,
    {
        CertifiedNodeRequest { node_source, node_round, digest, requester }
    }
}

impl CertifiedNode {
    pub fn new(source: PeerId, round: Round, digest: Digest, parents: Vec<Parent>) -> (r: Self)
        ensures
            r.source == source,
            r.round == round,
            r.digest == digest,
            r.parents@ == parents@,
            r@ == (NodeView { source, round, digest, parents: parents@ }),
    {
        CertifiedNode { source, round, digest, parents }
    }

    /// A field-by-field copy of the node.
    pub fn duplicate(&self) -> (r: Self)
        ensures
            r@ == self@,
    {
        let mut parents: Vec<Parent> = Vec::new();
        let mut i: usize = 0;
        while i < self.parents.len()
            invariant
                i <= self.parents@.len(),
                parents@ == self.parents@.subrange(0, i as int),
            decreases self.parents@.len() - i,
        {
            parents.push(self.parents[i]);
            i = i + 1;
        }
        proof {
            assert(parents@ =~= self.parents@);
        }
        CertifiedNode { source: self.source, round: self.round, digest: self.digest, parents }
    }
}

} // verus!
