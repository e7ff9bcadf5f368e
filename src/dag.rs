use vstd::prelude::*;

use crate::types::{CertifiedNode, Digest, NodeView, PeerId, Round};

verus! {

/// Whether some node of round `r` has author `s`.
pub open spec fn slot_taken(d: Seq<Seq<NodeView>>, r: int, s: PeerId) -> bool {
    0 <= r < d.len() && exists|i: int| 0 <= i < d[r].len() && #[trigger] d[r][i].source == s
}

/// Whether some node of round `r` has digest `x`.
pub open spec fn in_round(d: Seq<Seq<NodeView>>, r: int, x: Digest) -> bool {
    0 <= r < d.len() && exists|i: int| 0 <= i < d[r].len() && #[trigger] d[r][i].digest == x
}

/// Whether some node of the DAG has digest `x`.
pub open spec fn in_dag(d: Seq<Seq<NodeView>>, x: Digest) -> bool {
    exists|r: int| #[trigger] in_round(d, r, x)
}

/// The digests of round `r`, in the order in which the nodes came.
pub open spec fn digests_of_round(d: Seq<Seq<NodeView>>, r: int) -> Seq<Digest> {
    d[r].map_values(|n: NodeView| n.digest)
}

/// `n` itself stands in the entry of its round.
pub open spec fn in_slot(d: Seq<Seq<NodeView>>, n: NodeView) -> bool {
    0 <= n.round < d.len() && exists|i: int| 0 <= i < d[n.round as int].len() && #[trigger] d[n.round as int][i] == n
}

/// Every slot, digest and node of `a` is in `b` too.
pub open spec fn dag_grows(a: Seq<Seq<NodeView>>, b: Seq<Seq<NodeView>>) -> bool {
    &&& forall|r: int, x: Digest| in_round(a, r, x) ==> #[trigger] in_round(b, r, x)
    &&& forall|r: int, s: PeerId| slot_taken(a, r, s) ==> #[trigger] slot_taken(b, r, s)
    &&& forall|m: NodeView| in_slot(a, m) ==> #[trigger] in_slot(b, m)
}

/// Every parent of `n` is in the round below `n`.
pub open spec fn parents_present(d: Seq<Seq<NodeView>>, n: NodeView) -> bool {
    forall|k: int| 0 <= k < n.parents.len() ==> in_round(d, n.round - 1, #[trigger] n.parents[k].digest)
}

/// `n` may be written into the DAG: its round is not the genesis round, the
/// round below it exists, its slot is free and its parents are all present.
pub open spec fn placeable(d: Seq<Seq<NodeView>>, n: NodeView) -> bool {
    &&& 1 <= n.round <= d.len()
    &&& !slot_taken(d, n.round as int, n.source)
    &&& parents_present(d, n)
}

/// The DAG after `n` is written into its slot; a round above the last one is
/// opened for it.
pub open spec fn with_node(d: Seq<Seq<NodeView>>, n: NodeView) -> Seq<Seq<NodeView>> {
    if n.round < d.len() {
        d.update(n.round as int, d[n.round as int].push(n))
    } else {
        d.push(seq![n])
    }
}

/// The structure of a DAG: a genesis round 0 that stays empty, every node in
/// the entry of its own round, one node per author and round, no empty round
/// above genesis, every parent of a node present in the round below it, and
/// no digest twice.
pub open spec fn dag_wf(d: Seq<Seq<NodeView>>) -> bool {
    &&& d.len() >= 1
    &&& d[0].len() == 0
    &&& forall|r: int, i: int| 0 <= r < d.len() && 0 <= i < d[r].len() ==> #[trigger] d[r][i].round == r
    &&& forall|r: int, i: int, j: int|
        0 <= r < d.len() && 0 <= i < d[r].len() && 0 <= j < d[r].len() && i != j
            ==> #[trigger] d[r][i].source != #[trigger] d[r][j].source
    &&& forall|r: int| 1 <= r < d.len() ==> #[trigger] d[r].len() > 0
    &&& forall|r: int, i: int| 0 <= r < d.len() && 0 <= i < d[r].len() ==> parents_present(d, #[trigger] d[r][i])
    &&& forall|r1: int, i1: int, r2: int, i2: int|
        0 <= r1 < d.len() && 0 <= i1 < d[r1].len() && 0 <= r2 < d.len() && 0 <= i2 < d[r2].len()
            && #[trigger] d[r1][i1].digest == #[trigger] d[r2][i2].digest ==> r1 == r2 && i1 == i2
}

/// The DAG: for each round from genesis up, the nodes of that round.
pub struct DagStore {
    rounds: Vec<Vec<CertifiedNode>>,
}

impl View for DagStore {
    type V = Seq<Seq<NodeView>>;

    closed spec fn view(&self) -> Seq<Seq<NodeView>> {
        Seq::new(self.rounds@.len(), |r: int| Seq::new(self.rounds@[r]@.len(), |i: int| self.rounds@[r]@[i]@))
    }
}

impl DagStore {
    /// A DAG that holds only the empty genesis round.
    pub fn new() -> (r: Self)
        ensures
            r@ == seq![Seq::<NodeView>::empty()],
            dag_wf(r@),
    {
        let mut rounds: Vec<Vec<CertifiedNode>> = Vec::new();
        rounds.push(Vec::new());
        let r = DagStore { rounds };
        assert(r@[0] =~= Seq::<NodeView>::empty());
        assert(r@ =~= seq![Seq::<NodeView>::empty()]);
        r
    }

    /// The number of rounds, genesis included.
    pub fn len(&self) -> (r: usize)
        ensures
            r == self@.len(),
    {
        self.rounds.len()
    }

    /// Whether the slot of author `source` in `round` is taken.
    pub fn contains(&self, round: Round, source: PeerId) -> (r: bool)
        ensures
            r == slot_taken(self@, round as int, source),
    {
        if round >= self.rounds.len() as u64 {
            return false;
        }
        let row = &self.rounds[round as usize];
        let mut i: usize = 0;
        while i < row.len()
            invariant
                round < self@.len(),
                row@ == self.rounds@[round as int]@,
                i <= row@.len(),
                forall|j: int| 0 <= j < i ==> self@[round as int][j].source != source,
            decreases row@.len() - i,
        {
            if row[i].source == source {
                assert(self@[round as int][i as int].source == source);
                return true;
            }
            i = i + 1;
        }
        false
    }

    /// The index, within its round, of the node of `source` in `round`.
    pub fn find(&self, round: Round, source: PeerId) -> (r: Option<usize>)
        ensures
            r.is_none() == !slot_taken(self@, round as int, source),
            r.is_some() ==> round < self@.len() && r.unwrap() < self@[round as int].len()
                && self@[round as int][r.unwrap() as int].source == source,
    {
        if round >= self.rounds.len() as u64 {
            return None;
        }
        let row = &self.rounds[round as usize];
        let mut i: usize = 0;
        while i < row.len()
            invariant
                round < self@.len(),
                row@ == self.rounds@[round as int]@,
                i <= row@.len(),
                forall|j: int| 0 <= j < i ==> self@[round as int][j].source != source,
            decreases row@.len() - i,
        {
            if row[i].source == source {
                assert(self@[round as int][i as int].source == source);
                return Some(i);
            }
            i = i + 1;
        }
        None
    }

    /// The node at index `i` of `round`.
    pub fn node(&self, round: usize, i: usize) -> (r: &CertifiedNode)
        requires
            round < self@.len(),
            i < self@[round as int].len(),
        ensures
            r@ == self@[round as int][i as int],
    {
        &self.rounds[round][i]
    }

    /// The node of author `source` in `round`, if there is one.
    pub fn get(&self, round: Round, source: PeerId) -> (r: Option<&CertifiedNode>)
        ensures
            r.is_none() == !slot_taken(self@, round as int, source),
            r.is_some() ==> r.unwrap().source == source
                && exists|i: int| 0 <= i < self@[round as int].len() && self@[round as int][i] == r.unwrap()@,
    {
        if round >= self.rounds.len() as u64 {
            return None;
        }
        match self.find(round, source) {
            None => None,
            Some(i) => {
                let n = self.node(round as usize, i);
                assert(self@[round as int][i as int] == n@);
                Some(n)
            },
        }
    }
}


impl DagStore {
    /// The digests of `round`, or `None` when the DAG does not reach it.
    pub fn round_digests(&self, round: Round) -> (r: Option<Vec<Digest>>)
        ensures
            r.is_none() == (round >= self@.len()),
            r matches Some(v) ==> v@ == digests_of_round(self@, round as int),
    {
        if round >= self.rounds.len() as u64 {
            return None;
        }
        let row = &self.rounds[round as usize];
        let mut v: Vec<Digest> = Vec::new();
        let mut i: usize = 0;
        while i < row.len()
            invariant
                round < self@.len(),
                row@ == self.rounds@[round as int]@,
                i <= row@.len(),
                v@ == digests_of_round(self@, round as int).subrange(0, i as int),
            decreases row@.len() - i,
        {
            v.push(row[i].digest);
            i = i + 1;
            assert(v@ =~= digests_of_round(self@, round as int).subrange(0, i as int));
        }
        assert(v@ =~= digests_of_round(self@, round as int));
        Some(v)
    }

    /// Whether a node of `round` has digest `digest`.
    pub fn contains_digest_in_round(&self, round: Round, digest: Digest) -> (r: bool)
        ensures
            r == in_round(self@, round as int, digest),
    {
        if round >= self.rounds.len() as u64 {
            return false;
        }
        let row = &self.rounds[round as usize];
        let mut i: usize = 0;
        while i < row.len()
            invariant
                round < self@.len(),
                row@ == self.rounds@[round as int]@,
                i <= row@.len(),
                forall|j: int| 0 <= j < i ==> self@[round as int][j].digest != digest,
            decreases row@.len() - i,
        {
            if row[i].digest == digest {
                assert(self@[round as int][i as int].digest == digest);
                return true;
            }
            i = i + 1;
        }
        false
    }

    /// Whether a node of any round has digest `digest`.
    pub fn contains_digest(&self, digest: Digest) -> (r: bool)
        ensures
            r == in_dag(self@, digest),
    {
        let mut round: usize = 0;
        while round < self.rounds.len()
            invariant
                round <= self@.len(),
                forall|k: int| 0 <= k < round ==> !in_round(self@, k, digest),
            decreases self@.len() - round,
        {
            if self.contains_digest_in_round(round as u64, digest) {
                return true;
            }
            round = round + 1;
        }
        assert forall|k: int| !in_round(self@, k, digest) by {
            if 0 <= k < self@.len() {
                assert(k < round);
            }
        }
        false
    }

    /// Whether `node` may be written into the DAG now.
    pub fn can_insert(&self, node: &CertifiedNode) -> (r: bool)
        ensures
            r == placeable(self@, node@),
    {
        if node.round == 0 || node.round > self.rounds.len() as u64 {
            return false;
        }
        if self.contains(node.round, node.source) {
            return false;
        }
        let mut k: usize = 0;
        while k < node.parents.len()
            invariant
                1 <= node.round <= self@.len(),
                k <= node.parents@.len(),
                forall|j: int| 0 <= j < k ==> in_round(self@, node.round - 1, #[trigger] node.parents@[j].digest),
            decreases node.parents@.len() - k,
        {
            if !self.contains_digest_in_round(node.round - 1, node.parents[k].digest) {
                assert(!in_round(self@, node@.round - 1, node@.parents[k as int].digest));
                return false;
            }
            k = k + 1;
        }
        true
    }

    /// Writes `node` into its slot, opening its round when it is the next one.
    pub fn insert(&mut self, node: CertifiedNode)
        requires
            dag_wf(old(self)@),
            placeable(old(self)@, node@),
            !in_dag(old(self)@, node@.digest),
        ensures
            final(self)@ == with_node(old(self)@, node@),
            forall|m: NodeView| #[trigger] in_slot(final(self)@, m) ==> in_slot(old(self)@, m) || m == node@,
            dag_wf(final(self)@),
            dag_grows(old(self)@, final(self)@),
            forall|x: Digest| #[trigger] in_dag(final(self)@, x) ==> in_dag(old(self)@, x) || x == node@.digest,
            in_slot(final(self)@, node@),
    {
        let ghost d = self@;
        let ghost n = node@;
        let round = node.round as usize;
        if round == self.rounds.len() {
            let mut row: Vec<CertifiedNode> = Vec::new();
            row.push(node);
            self.rounds.push(row);
            assert(self@[round as int] =~= seq![n]);
        } else {
            self.rounds[round].push(node);
            assert(self@[round as int] =~= d[round as int].push(n));
        }
        assert forall|r: int| 0 <= r < self@.len() && r != round implies self@[r] =~= d[r] by {}
        assert(self@ =~= with_node(d, n));
        assert(self@[round as int][self@[round as int].len() - 1] == n);
        proof {
            lemma_with_node_wf(d, n);
        }
    }
}

/// Writing a placeable node keeps the structure of the DAG.
pub proof fn lemma_with_node_wf(d: Seq<Seq<NodeView>>, n: NodeView)
    requires
        dag_wf(d),
        placeable(d, n),
        !in_dag(d, n.digest),
    ensures
        forall|m: NodeView| #[trigger] in_slot(with_node(d, n), m) ==> in_slot(d, m) || m == n,
        dag_wf(with_node(d, n)),
        dag_grows(d, with_node(d, n)),
        forall|x: Digest| #[trigger] in_dag(with_node(d, n), x) ==> in_dag(d, x) || x == n.digest,
{
    let e0 = with_node(d, n);
    assert forall|m: NodeView| #[trigger] in_slot(e0, m) implies in_slot(d, m) || m == n by {
        let i = choose|i: int| 0 <= i < e0[m.round as int].len() && #[trigger] e0[m.round as int][i] == m;
        if m != n && m.round < d.len() && i < d[m.round as int].len() {
            assert(d[m.round as int][i] == m);
        }
    }
    assert forall|r1: int, i1: int, r2: int, i2: int|
        0 <= r1 < e0.len() && 0 <= i1 < e0[r1].len() && 0 <= r2 < e0.len() && 0 <= i2 < e0[r2].len()
            && #[trigger] e0[r1][i1].digest == #[trigger] e0[r2][i2].digest implies r1 == r2 && i1 == i2 by {
        let rn = n.round as int;
        let new1 = r1 == rn && i1 == e0[r1].len() - 1;
        let new2 = r2 == rn && i2 == e0[r2].len() - 1;
        if !new1 {
            assert(e0[r1][i1] == d[r1][i1]);
        }
        if !new2 {
            assert(e0[r2][i2] == d[r2][i2]);
        }
        if new1 && !new2 {
            assert(in_round(d, r2, n.digest));
        }
        if new2 && !new1 {
            assert(in_round(d, r1, n.digest));
        }
    }
    let e = with_node(d, n);
    let rn = n.round as int;
    assert forall|r: int, x: Digest| in_round(d, r, x) implies in_round(e, r, x) by {
        let i = choose|i: int| 0 <= i < d[r].len() && #[trigger] d[r][i].digest == x;
        assert(e[r][i] == d[r][i]);
    }
    assert forall|r: int, s: PeerId| slot_taken(d, r, s) implies slot_taken(e, r, s) by {
        let i = choose|i: int| 0 <= i < d[r].len() && #[trigger] d[r][i].source == s;
        assert(e[r][i] == d[r][i]);
    }
    assert forall|x: Digest| #[trigger] in_dag(e, x) implies in_dag(d, x) || x == n.digest by {
        let r = choose|r: int| #[trigger] in_round(e, r, x);
        let i = choose|i: int| 0 <= i < e[r].len() && #[trigger] e[r][i].digest == x;
        if r < d.len() && i < d[r].len() {
            assert(e[r][i] == d[r][i]);
            assert(in_round(d, r, x));
        }
    }
    assert forall|m: NodeView| in_slot(d, m) implies in_slot(e, m) by {
        let i = choose|i: int| 0 <= i < d[m.round as int].len() && #[trigger] d[m.round as int][i] == m;
        assert(e[m.round as int][i] == d[m.round as int][i]);
    }
    assert forall|r: int, i: int, j: int|
        0 <= r < e.len() && 0 <= i < e[r].len() && 0 <= j < e[r].len() && i != j
            implies #[trigger] e[r][i].source != #[trigger] e[r][j].source by {
        if r == rn {
            if i == e[r].len() - 1 {
                if j < d[r].len() {
                    assert(d[r][j].source == e[r][j].source);
                }
            } else if j == e[r].len() - 1 {
                assert(d[r][i].source == e[r][i].source);
            }
        }
    }
    assert forall|r: int, i: int| 0 <= r < e.len() && 0 <= i < e[r].len()
        implies parents_present(e, #[trigger] e[r][i]) by {
        let m = e[r][i];
        if r == rn && i == e[r].len() - 1 {
            assert(m == n);
        } else {
            assert(m == d[r][i]);
            assert(parents_present(d, m));
        }
        assert forall|k: int| 0 <= k < m.parents.len() implies in_round(e, m.round - 1, #[trigger] m.parents[k].digest) by {
            assert(in_round(d, m.round - 1, m.parents[k].digest));
        }
    }
}


/// A digest stands in one round at most.
pub proof fn lemma_digest_one_round(d: Seq<Seq<NodeView>>, r1: int, r2: int, x: Digest)
    requires
        dag_wf(d),
        in_round(d, r1, x),
        in_round(d, r2, x),
    ensures
        r1 == r2,
{
    let i1 = choose|i: int| 0 <= i < d[r1].len() && #[trigger] d[r1][i].digest == x;
    let i2 = choose|i: int| 0 <= i < d[r2].len() && #[trigger] d[r2][i].digest == x;
    assert(d[r1][i1].digest == d[r2][i2].digest);
}

/// Digests in a DAG stay in a DAG that grew from it.
pub proof fn lemma_in_dag_grows(a: Seq<Seq<NodeView>>, b: Seq<Seq<NodeView>>, x: Digest)
    requires
        dag_grows(a, b),
        in_dag(a, x),
    ensures
        in_dag(b, x),
{
    let r = choose|r: int| #[trigger] in_round(a, r, x);
    assert(in_round(b, r, x));
}

} // verus!
