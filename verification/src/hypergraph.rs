//! A hypergraph: a network whose edges join any number of nodes, with the
//! staged-write discipline of the other shared structures.

use vstd::prelude::*;
use std::collections::HashMap;
use crate::agent::AgentId;
use crate::hyper::{
    dedup, lemma_commit_is_valid, lemma_staging_is_invisible, HyperGraph, HyperLink, HyperWrite,
};
use crate::lists::{
    lemma_push_fresh, lemma_without, list_contains, list_copy, without, Lists,
};

verus! {

broadcast use vstd::std_specs::hash::group_hash_axioms;

/// An edge that joins a set of nodes.
pub struct HyperEdge<W, L> {
    /// The handle of the edge.
    pub id: u64,
    /// The nodes the edge joins.
    pub nodes: Vec<AgentId>,
    pub weight: W,
    pub label: L,
}

impl<W, L> View for HyperEdge<W, L> {
    type V = HyperLink<W, L>;

    open spec fn view(&self) -> HyperLink<W, L> {
        HyperLink { id: self.id, nodes: self.nodes@, weight: self.weight, label: self.label }
    }
}

/// One staged change.
enum HyperChange<W, L> {
    Link { edge: HyperEdge<W, L> },
    Unlink { id: u64 },
}

impl<W, L> View for HyperChange<W, L> {
    type V = HyperWrite<W, L>;

    closed spec fn view(&self) -> HyperWrite<W, L> {
        match self {
            HyperChange::Link { edge } => HyperWrite::Link { edge: edge@ },
            HyperChange::Unlink { id } => HyperWrite::Unlink { id: *id },
        }
    }
}

/// The changes that a log stands for.
spec fn writes<W, L>(log: Seq<HyperChange<W, L>>) -> Seq<HyperWrite<W, L>> {
    log.map_values(|c: HyperChange<W, L>| c@)
}

/// A copy of `nodes` with every node only where it occurs first.
fn unique(nodes: &Vec<AgentId>) -> (out: Vec<AgentId>)
    ensures
        out@ == dedup(nodes@),
{
    let mut out: Vec<AgentId> = Vec::new();
    let mut i: usize = 0;
    proof {
        assert(nodes@.take(0) =~= Seq::<AgentId>::empty());
    }
    while i < nodes.len()
        invariant
            i <= nodes.len(),
            out@ == dedup(nodes@.take(i as int)),
        decreases nodes.len() - i,
    {
        proof {
            assert(nodes@.take(i + 1).drop_last() =~= nodes@.take(i as int));
            assert(nodes@.take(i + 1).last() == nodes@[i as int]);
        }
        if !list_contains(&out, nodes[i]) {
            out.push(nodes[i]);
        }
        i += 1;
    }
    proof {
        assert(nodes@.take(nodes.len() as int) =~= nodes@);
    }
    out
}

/// A hypergraph with weighted, labelled edges.
///
/// Reads take `&self` and may run side by side; changes and the commit take
/// `&mut self`, so the borrow rules keep them apart from every read.
pub struct Hypergraph<W, L> {
    next_id: u64,
    edges: HashMap<u64, HyperEdge<W, L>>,
    incidence: Lists,
    log: Vec<HyperChange<W, L>>,
}

impl<W, L> View for Hypergraph<W, L> {
    type V = HyperGraph<W, L>;

    closed spec fn view(&self) -> HyperGraph<W, L> {
        HyperGraph {
            next_id: self.next_id,
            edges: Map::new(|id: u64| self.edges@.contains_key(id), |id: u64| self.edges@[id]@),
            staged: writes(self.log@),
        }
    }
}

impl<W, L> Hypergraph<W, L> {
    /// The index from nodes to the edges that join them says what the edges
    /// say.
    pub closed spec fn indexed(&self) -> bool {
        &&& forall|node: AgentId| (#[trigger] self.incidence.at(node)).no_duplicates()
        &&& forall|node: AgentId, id: u64|
            (#[trigger] self.incidence.at(node).contains(id)) <==> self@.joins(id, node)
    }

    /// The invariant of a hypergraph.
    pub open spec fn wf(&self) -> bool {
        self@.valid() && self.indexed()
    }

    /// A hypergraph without edges.
    pub fn new() -> (g: Self)
        ensures
            g.wf(),
            g@ == HyperGraph::<W, L>::empty(),
    {
        let g = Hypergraph {
            next_id: 0,
            edges: HashMap::new(),
            incidence: Lists::new(),
            log: Vec::new(),
        };
        proof {
            assert(g@.edges =~= HyperGraph::<W, L>::empty().edges);
            assert(g@.staged =~= HyperGraph::<W, L>::empty().staged);
        }
        g
    }

    /// The handle that the next staged edge gets.
    pub fn next_id(&self) -> (id: u64)
        ensures
            id == self@.next_id,
    {
        self.next_id
    }

    /// Number of changes staged since the last commit.
    pub fn staged_len(&self) -> (n: usize)
        ensures
            n == self@.staged.len(),
    {
        self.log.len()
    }

    /// The edge with the handle `id` as of the last commit, if there is one.
    pub fn edge(&self, id: u64) -> (r: Option<&HyperEdge<W, L>>)
        ensures
            match r {
                Some(edge) => self@.edges.contains_key(id) && self@.edges[id] == edge@,
                None => !self@.edges.contains_key(id),
            },
    {
        self.edges.get(&id)
    }

    /// The handles of the edges that join `node` as of the last commit, each
    /// once.
    pub fn edges_of(&self, node: AgentId) -> (r: Vec<u64>)
        requires
            self.wf(),
        ensures
            r@.no_duplicates(),
            forall|id: u64| r@.contains(id) <==> self@.joins(id, node),
    {
        let r = self.incidence.get(node);
        proof {
            assert(self.incidence.at(node).no_duplicates());
            assert forall|id: u64| r@.contains(id) <==> self@.joins(id, node) by {
                assert(self.incidence.at(node).contains(id) <==> self@.joins(id, node));
            }
        }
        r
    }

    /// The neighbours of `node` as of the last commit: every other node that
    /// an edge joins with it, once.
    pub fn neighbors(&self, node: AgentId) -> (r: Vec<AgentId>)
        requires
            self.wf(),
        ensures
            r@.no_duplicates(),
            forall|other: AgentId| r@.contains(other) <==> self@.adjacent(node, other),
    {
        let ids = self.edges_of(node);
        let mut out: Vec<AgentId> = Vec::new();
        let mut i: usize = 0;
        while i < ids.len()
            invariant
                i <= ids.len(),
                self.wf(),
                forall|id: u64| ids@.contains(id) <==> self@.joins(id, node),
                out@.no_duplicates(),
                forall|m: AgentId|
                    out@.contains(m) <==> m != node && exists|j: int|
                        0 <= j < i && self@.joins(#[trigger] ids@[j], m),
            decreases ids.len() - i,
        {
            let id = ids[i];
            proof {
                assert(ids@.contains(ids@[i as int]));
                assert(self@.joins(id, node));
            }
            match self.edges.get(&id) {
                Some(edge) => {
                    let mut k: usize = 0;
                    let ghost members = edge.nodes@;
                    while k < edge.nodes.len()
                        invariant
                            k <= edge.nodes.len(),
                            i < ids.len(),
                            id == ids@[i as int],
                            members == edge.nodes@,
                            self@.edges.contains_key(id),
                            self@.edges[id].nodes == members,
                            out@.no_duplicates(),
                            forall|m: AgentId|
                                out@.contains(m) <==> m != node && ((exists|j: int|
                                    0 <= j < i && self@.joins(#[trigger] ids@[j], m))
                                    || members.take(k as int).contains(m)),
                        decreases edge.nodes.len() - k,
                    {
                        let m = edge.nodes[k];
                        proof {
                            lemma_push_fresh(out@, m);
                            lemma_take_next(members, k as int);
                        }
                        if m != node && !list_contains(&out, m) {
                            out.push(m);
                        }
                        k += 1;
                    }
                    proof {
                        assert(members.take(members.len() as int) =~= members);
                        assert forall|m: AgentId|
                            out@.contains(m) <==> m != node && exists|j: int|
                                0 <= j < i + 1 && self@.joins(#[trigger] ids@[j], m) by {
                            if members.contains(m) {
                                assert(self@.joins(ids@[i as int], m));
                            }
                            if exists|j: int| 0 <= j < i + 1 && self@.joins(#[trigger] ids@[j], m) {
                                let j = choose|j: int|
                                    0 <= j < i + 1 && self@.joins(#[trigger] ids@[j], m);
                                if j == i {
                                    assert(members.contains(m));
                                }
                            }
                        }
                    }
                },
                None => {},
            }
            i += 1;
        }
        proof {
            assert forall|other: AgentId| out@.contains(other) <==> self@.adjacent(
                node,
                other,
            ) by {
                if out@.contains(other) {
                    let j = choose|j: int|
                        0 <= j < ids@.len() && self@.joins(#[trigger] ids@[j], other);
                    assert(ids@.contains(ids@[j]));
                    assert(self@.joins(ids@[j], node) && self@.joins(ids@[j], other));
                }
                if self@.adjacent(node, other) {
                    let id = choose|id: u64| self@.joins(id, node) && #[trigger] self@.joins(id, other);
                    assert(ids@.contains(id));
                    let j = choose|j: int| 0 <= j < ids@.len() && ids@[j] == id;
                    assert(self@.joins(ids@[j], other));
                }
            }
        }
        out
    }

    /// The oldest edge that joins `a` and `b` as of the last commit, if any
    /// does.
    pub fn edge_between(&self, a: AgentId, b: AgentId) -> (r: Option<&HyperEdge<W, L>>)
        requires
            self.wf(),
        ensures
            match r {
                Some(edge) => self@.edge_between(a, b) == Some(edge@),
                None => self@.edge_between(a, b) is None,
            },
    {
        let ids = self.edges_of(a);
        let mut best: Option<u64> = None;
        let mut i: usize = 0;
        while i < ids.len()
            invariant
                i <= ids.len(),
                self.wf(),
                forall|id: u64| ids@.contains(id) <==> self@.joins(id, a),
                best is Some ==> self@.joins(best->0, a) && self@.joins(best->0, b),
                forall|j: int|
                    0 <= j < i && self@.joins(#[trigger] ids@[j], b) ==> best is Some && best->0
                        <= ids@[j],
            decreases ids.len() - i,
        {
            let id = ids[i];
            proof {
                assert(ids@.contains(ids@[i as int]));
            }
            match self.edges.get(&id) {
                Some(edge) => {
                    if list_contains(&edge.nodes, b) {
                        best = match best {
                            Some(old) => if id < old {
                                Some(id)
                            } else {
                                Some(old)
                            },
                            None => Some(id),
                        };
                    }
                },
                None => {},
            }
            i += 1;
        }
        match best {
            Some(id) => {
                let r = self.edges.get(&id);
                proof {
                    assert(self@.share_edge(a, b));
                    assert(self@.oldest_between(id, a, b)) by {
                        assert forall|other: u64|
                            self@.joins(other, a) && #[trigger] self@.joins(other, b) implies id
                            <= other by {
                            assert(ids@.contains(other));
                            let j = choose|j: int| 0 <= j < ids@.len() && ids@[j] == other;
                            assert(self@.joins(ids@[j], b));
                        }
                    }
                    let chosen = choose|x: u64| self@.oldest_between(x, a, b);
                    assert(self@.oldest_between(chosen, a, b));
                    assert(chosen <= id && id <= chosen);
                }
                r
            },
            None => {
                proof {
                    if self@.share_edge(a, b) {
                        let id = choose|id: u64| self@.joins(id, a) && #[trigger] self@.joins(id, b);
                        assert(ids@.contains(id));
                        let j = choose|j: int| 0 <= j < ids@.len() && ids@[j] == id;
                        assert(self@.joins(ids@[j], b));
                    }
                }
                None
            },
        }
    }

    /// Stages an edge that joins `nodes`, each counted once, and returns the
    /// handle it gets. An edge joins at least one node: with no node given
    /// nothing is staged and `None` returned.
    pub fn add_hyperedge(&mut self, nodes: Vec<AgentId>, weight: W, label: L) -> (r: Option<u64>)
        requires
            old(self).wf(),
            old(self)@.next_id < u64::MAX,
        ensures
            final(self).wf(),
            match r {
                Some(id) => {
                    &&& nodes@.len() > 0
                    &&& id == old(self)@.next_id
                    &&& final(self)@ == old(self)@.draw(nodes@, weight, label)
                },
                None => nodes@.len() == 0 && final(self)@ == old(self)@,
            },
    {
        if nodes.len() == 0 {
            return None;
        }
        let id = self.next_id;
        let members = unique(&nodes);
        let edge = HyperEdge { id, nodes: members, weight, label };
        self.next_id = id + 1;
        self.log.push(HyperChange::Link { edge });
        proof {
            lemma_staging_is_invisible(old(self)@, nodes@, weight, label, 0);
            assert(self@.edges =~= old(self)@.edges);
            assert(self@.staged =~= old(self)@.draw(nodes@, weight, label).staged);
            assert forall|node: AgentId, x: u64|
                (#[trigger] self.incidence.at(node).contains(x)) <==> self@.joins(x, node) by {
                assert(old(self).incidence.at(node).contains(x) <==> old(self)@.joins(x, node));
            }
        }
        Some(id)
    }

    /// Stages the removal of the edge with the handle `id`.
    pub fn remove_edge(&mut self, id: u64)
        requires
            old(self).wf(),
        ensures
            final(self).wf(),
            final(self)@ == old(self)@.erase(id),
    {
        self.log.push(HyperChange::Unlink { id });
        proof {
            assert(self@.edges =~= old(self)@.edges);
            assert(self@.staged =~= old(self)@.erase(id).staged);
            lemma_erase_is_valid(old(self)@, id);
            assert forall|node: AgentId, x: u64|
                (#[trigger] self.incidence.at(node).contains(x)) <==> self@.joins(x, node) by {
                assert(old(self).incidence.at(node).contains(x) <==> old(self)@.joins(x, node));
            }
        }
    }

    /// Lists the edge `id` at each of `nodes`.
    fn index_edge(&mut self, nodes: &Vec<AgentId>, id: u64)
        requires
            nodes@.no_duplicates(),
        ensures
            final(self).edges == old(self).edges,
            final(self).log == old(self).log,
            final(self).next_id == old(self).next_id,
            forall|node: AgentId|
                #[trigger] final(self).incidence.at(node) == (if nodes@.contains(node) {
                    old(self).incidence.at(node).push(id)
                } else {
                    old(self).incidence.at(node)
                }),
    {
        let mut k: usize = 0;
        proof {
            assert(nodes@.take(0) =~= Seq::<AgentId>::empty());
        }
        while k < nodes.len()
            invariant
                k <= nodes.len(),
                nodes@.no_duplicates(),
                self.edges == old(self).edges,
                self.log == old(self).log,
                self.next_id == old(self).next_id,
                forall|node: AgentId|
                    #[trigger] self.incidence.at(node) == (if nodes@.take(k as int).contains(node) {
                        old(self).incidence.at(node).push(id)
                    } else {
                        old(self).incidence.at(node)
                    }),
            decreases nodes.len() - k,
        {
            proof {
                lemma_take_next(nodes@, k as int);
                if nodes@.take(k as int).contains(nodes@[k as int]) {
                    let j = choose|j: int|
                        0 <= j < k && nodes@.take(k as int)[j] == nodes@[k as int];
                    assert(nodes@[j] == nodes@[k as int]);
                }
            }
            self.incidence.add(nodes[k], id);
            k += 1;
        }
        proof {
            assert(nodes@.take(nodes.len() as int) =~= nodes@);
        }
    }

    /// Strikes the edge `id` from the list of each of `nodes`.
    fn unindex_edge(&mut self, nodes: &Vec<AgentId>, id: u64)
        requires
            nodes@.no_duplicates(),
        ensures
            final(self).edges == old(self).edges,
            final(self).log == old(self).log,
            final(self).next_id == old(self).next_id,
            forall|node: AgentId|
                #[trigger] final(self).incidence.at(node) == (if nodes@.contains(node) {
                    without(old(self).incidence.at(node), id)
                } else {
                    old(self).incidence.at(node)
                }),
    {
        let mut k: usize = 0;
        proof {
            assert(nodes@.take(0) =~= Seq::<AgentId>::empty());
        }
        while k < nodes.len()
            invariant
                k <= nodes.len(),
                nodes@.no_duplicates(),
                self.edges == old(self).edges,
                self.log == old(self).log,
                self.next_id == old(self).next_id,
                forall|node: AgentId|
                    #[trigger] self.incidence.at(node) == (if nodes@.take(k as int).contains(node) {
                        without(old(self).incidence.at(node), id)
                    } else {
                        old(self).incidence.at(node)
                    }),
            decreases nodes.len() - k,
        {
            proof {
                lemma_take_next(nodes@, k as int);
                if nodes@.take(k as int).contains(nodes@[k as int]) {
                    let j = choose|j: int|
                        0 <= j < k && nodes@.take(k as int)[j] == nodes@[k as int];
                    assert(nodes@[j] == nodes@[k as int]);
                }
            }
            self.incidence.strike(nodes[k], id);
            k += 1;
        }
        proof {
            assert(nodes@.take(nodes.len() as int) =~= nodes@);
        }
    }

    /// Applies the staged changes, oldest first, and clears the log.
    pub fn commit(&mut self)
        requires
            old(self).wf(),
        ensures
            final(self).wf(),
            final(self)@ == old(self)@.commit(),
    {
        let mut log: Vec<HyperChange<W, L>> = Vec::new();
        std::mem::swap(&mut self.log, &mut log);
        let ghost start = old(self)@;
        let ghost all = writes(log@);
        proof {
            assert(self@.edges =~= start.edges);
            assert(self@.staged =~= Seq::<HyperWrite<W, L>>::empty());
            assert(self@ == HyperGraph { staged: Seq::empty(), ..start.replay(all.take(0)) });
            assert forall|node: AgentId, x: u64|
                (#[trigger] self.incidence.at(node).contains(x)) <==> self@.joins(x, node) by {
                assert(old(self).incidence.at(node).contains(x) <==> old(self)@.joins(x, node));
            }
        }
        for change in it: log
            invariant
                writes(it.seq()) == all,
                all == start.staged,
                start.valid(),
                self.log@.len() == 0,
                self.next_id == start.next_id,
                self@ == (HyperGraph {
                    staged: Seq::empty(),
                    ..start.replay(all.take(it.index() as int))
                }),
                self.indexed(),
                forall|id: u64| #[trigger]
                    self@.edges.contains_key(id) ==> self@.edges[id].id == id && start.admits(
                        self@.edges[id],
                    ),
                forall|j: int|
                    it.index() <= j < all.len() ==> ((#[trigger] all[j]) matches HyperWrite::Link {
                        edge,
                    } ==> !self@.edges.contains_key(edge.id)),
        {
            let ghost idx = it.index() as int;
            let ghost before = self@;
            let ghost replayed = start.replay(all.take(idx));
            let ghost listed = |node: AgentId| self.incidence.at(node);
            proof {
                assert(all.take(idx + 1).drop_last() =~= all.take(idx));
                assert(all.take(idx + 1).last() == change@);
                assert(all[idx] == change@);
                assert forall|node: AgentId, x: u64|
                    (#[trigger] listed(node).contains(x)) <==> before.joins(x, node) by {
                    assert(self.incidence.at(node).contains(x) <==> self@.joins(x, node));
                }
                assert forall|node: AgentId| (#[trigger] listed(node)).no_duplicates() by {
                    assert(self.incidence.at(node).no_duplicates());
                }
            }
            match change {
                HyperChange::Link { edge } => {
                    let id = edge.id;
                    let ghost link = edge@;
                    let members = list_copy(&edge.nodes);
                    proof {
                        assert(start.admits(link));
                    }
                    self.edges.insert(id, edge);
                    self.index_edge(&members, id);
                    proof {
                        assert(self@.edges =~= before.apply(change@).edges);
                        assert forall|node: AgentId| (#[trigger] self.incidence.at(
                            node,
                        )).no_duplicates() by {
                            assert(listed(node).no_duplicates());
                            assert(listed(node).contains(id) <==> before.joins(id, node));
                            lemma_push_fresh(listed(node), id);
                        }
                        assert forall|node: AgentId, x: u64|
                            (#[trigger] self.incidence.at(node).contains(x)) <==> self@.joins(
                                x,
                                node,
                            ) by {
                            assert(listed(node).contains(x) <==> before.joins(x, node));
                            lemma_push_fresh(listed(node), id);
                        }
                        assert forall|j: int| idx + 1 <= j < all.len() implies ((#[trigger] all[j]) matches HyperWrite::Link {
                            edge,
                        } ==> !self@.edges.contains_key(edge.id)) by {
                            assert(all[idx] is Link);
                        }
                    }
                },
                HyperChange::Unlink { id } => {
                    match self.edges.remove(&id) {
                        Some(edge) => {
                            proof {
                                assert(before.edges.contains_key(id));
                                assert(before.edges[id] == edge@);
                                assert(start.admits(edge@));
                            }
                            self.unindex_edge(&edge.nodes, id);
                            proof {
                                assert(self@.edges =~= before.apply(change@).edges);
                                assert forall|node: AgentId| (#[trigger] self.incidence.at(
                                    node,
                                )).no_duplicates() by {
                                    assert(listed(node).no_duplicates());
                                    lemma_without(listed(node), id);
                                }
                                assert forall|node: AgentId, x: u64|
                                    (#[trigger] self.incidence.at(node).contains(x))
                                        <==> self@.joins(x, node) by {
                                    assert(listed(node).contains(x) <==> before.joins(x, node));
                                    assert(listed(node).contains(id) <==> before.joins(id, node));
                                    lemma_without(listed(node), id);
                                }
                            }
                        },
                        None => {
                            proof {
                                assert(self@.edges =~= before.apply(change@).edges);
                                assert forall|node: AgentId, x: u64|
                                    (#[trigger] self.incidence.at(node).contains(x))
                                        <==> self@.joins(x, node) by {
                                    assert(listed(node).contains(x) <==> before.joins(x, node));
                                }
                            }
                        },
                    }
                },
            }
            proof {
                assert(self@.staged =~= Seq::<HyperWrite<W, L>>::empty());
                assert(self@ == before.apply(change@));
                assert(replayed.apply(change@).edges == before.apply(change@).edges);
                assert(start.replay(all.take(idx + 1)) == replayed.apply(change@));
            }
        }
        proof {
            assert(all.take(all.len() as int) =~= all);
            lemma_commit_is_valid(start);
        }
    }
}

/// Taking one more entry of a list adds that entry and no other.
proof fn lemma_take_next(s: Seq<AgentId>, k: int)
    requires
        0 <= k < s.len(),
    ensures
        forall|x: AgentId| #[trigger] s.take(k + 1).contains(x) <==> x == s[k] || s.take(k).contains(x),
{
    assert(s.take(k + 1) =~= s.take(k).push(s[k]));
    lemma_push_fresh(s.take(k), s[k]);
}

/// Staging a removal keeps a hypergraph valid.
proof fn lemma_erase_is_valid<W, L>(g: HyperGraph<W, L>, id: u64)
    requires
        g.valid(),
    ensures
        g.erase(id).valid(),
{
    let e = g.erase(id);
    assert forall|i: int| 0 <= i < e.staged.len() implies ((#[trigger] e.staged[i]) matches HyperWrite::Link {
        edge,
    } ==> e.admits(edge) && !e.edges.contains_key(edge.id)) by {
        if i < g.staged.len() {
            assert(e.staged[i] == g.staged[i]);
        }
    }
    assert forall|i: int, j: int| 0 <= i < j < e.staged.len() implies ((#[trigger] e.staged[i]) matches HyperWrite::Link {
        edge: a,
    } ==> ((#[trigger] e.staged[j]) matches HyperWrite::Link { edge: b } ==> a.id != b.id)) by {
        assert(e.staged[i] == g.staged[i]);
        if j < g.staged.len() {
            assert(e.staged[j] == g.staged[j]);
        }
    }
}

} // verus!
