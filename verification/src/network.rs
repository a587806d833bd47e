//! A network of nodes and edges with the staged-write discipline of the
//! other shared structures: changes made during a tick show at the commit.

use vstd::prelude::*;
use std::collections::HashMap;
use std::collections::HashSet;
use crate::agent::AgentId;
use crate::graph::{lemma_apply, link, Change, Edge, Graph};
use crate::lists::Lists;

verus! {

broadcast use vstd::std_specs::hash::group_hash_axioms;

/// The key of a pair of nodes: the first in the upper and the second in the
/// lower 64 bits.
pub open spec fn pair_key(pair: (AgentId, AgentId)) -> u128 {
    (pair.0 * 0x1_0000_0000_0000_0000 + pair.1) as u128
}

/// Different pairs have different keys.
pub proof fn lemma_pair_key_injective(a: (AgentId, AgentId), b: (AgentId, AgentId))
    ensures
        pair_key(a) == pair_key(b) <==> a == b,
{
}

/// The key under which the edge from `from` to `to` is kept.
fn edge_key(directed: bool, from: AgentId, to: AgentId) -> (key: u128)
    ensures
        key == pair_key(link(directed, from, to)),
{
    if directed || from <= to {
        from as u128 * 0x1_0000_0000_0000_0000 + to as u128
    } else {
        to as u128 * 0x1_0000_0000_0000_0000 + from as u128
    }
}

/// A directed or undirected network with weighted, labelled edges.
///
/// Reads take `&self` and may run side by side; changes and the commit take
/// `&mut self`, so the borrow rules keep them apart from every read.
pub struct Network<W, L> {
    directed: bool,
    nodes: HashSet<AgentId>,
    edges: HashMap<u128, Edge<W, L>>,
    adjacency: Lists,
    log: Vec<Change<W, L>>,
}

impl<W, L> View for Network<W, L> {
    type V = Graph<W, L>;

    closed spec fn view(&self) -> Graph<W, L> {
        Graph {
            directed: self.directed,
            nodes: self.nodes@,
            edges: Map::new(
                |pair: (AgentId, AgentId)| self.edges@.contains_key(pair_key(pair)),
                |pair: (AgentId, AgentId)| self.edges@[pair_key(pair)],
            ),
            adjacency: Map::total(|n: AgentId| self.adjacency.at(n)),
            staged: self.log@,
        }
    }
}

impl<W, L> Network<W, L> {
    /// The invariant of a network: its neighbour lists say what its edges
    /// say.
    pub open spec fn wf(&self) -> bool {
        self@.consistent()
    }

    /// A network without nodes; `directed` says whether its edges have a
    /// direction.
    pub fn new(directed: bool) -> (n: Self)
        ensures
            n.wf(),
            n@ == Graph::<W, L>::empty(directed),
    {
        let n = Network {
            directed,
            nodes: HashSet::new(),
            edges: HashMap::new(),
            adjacency: Lists::new(),
            log: Vec::new(),
        };
        proof {
            assert(n@.edges =~= Graph::<W, L>::empty(directed).edges);
            assert(n@.adjacency =~= Graph::<W, L>::empty(directed).adjacency);
            assert(n@.nodes =~= Graph::<W, L>::empty(directed).nodes);
            assert(n@.staged =~= Graph::<W, L>::empty(directed).staged);
        }
        n
    }

    /// Whether the edges of this network have a direction.
    pub fn is_directed(&self) -> (d: bool)
        ensures
            d == self@.directed,
    {
        self.directed
    }

    /// Whether `node` is a node as of the last commit.
    pub fn has_node(&self, node: AgentId) -> (r: bool)
        ensures
            r == self@.nodes.contains(node),
    {
        self.nodes.contains(&node)
    }

    /// The neighbours of `node` as of the last commit, in the order in which
    /// the edges to them were drawn.
    pub fn neighbors(&self, node: AgentId) -> (r: Vec<AgentId>)
        requires
            self.wf(),
        ensures
            r@ == self@.neighbors(node),
            r@.no_duplicates(),
            forall|other: AgentId| r@.contains(other) <==> self@.linked(node, other),
    {
        let r = self.adjacency.get(node);
        proof {
            assert(self@.adjacency[node].no_duplicates());
            assert forall|other: AgentId| r@.contains(other) <==> self@.linked(node, other) by {
                assert(self@.adjacency[node].contains(other) <==> self@.linked(node, other));
            }
        }
        r
    }

    /// The edge that leads from `from` to `to` as of the last commit, if
    /// there is one; in an undirected network the edge that joins the two.
    pub fn edge_between(&self, from: AgentId, to: AgentId) -> (r: Option<&Edge<W, L>>)
        ensures
            match r {
                Some(edge) => self@.edge_between(from, to) == Some(*edge),
                None => self@.edge_between(from, to) is None,
            },
    {
        let key = edge_key(self.directed, from, to);
        self.edges.get(&key)
    }

    /// Number of changes staged since the last commit.
    pub fn staged_len(&self) -> (n: usize)
        ensures
            n == self@.staged.len(),
    {
        self.log.len()
    }

    /// Stages the addition of `node`.
    pub fn add_node(&mut self, node: AgentId)
        ensures
            final(self)@ == old(self)@.stage(Change::Node { id: node }),
    {
        self.log.push(Change::Node { id: node });
        proof {
            assert(self@.edges =~= old(self)@.edges);
            assert(self@.adjacency =~= old(self)@.adjacency);
        }
    }

    /// Stages an edge from `from` to `to`. At the commit it takes the place
    /// of the edge between the two, if there is one, and both become nodes.
    pub fn add_edge(&mut self, from: AgentId, to: AgentId, weight: W, label: L)
        ensures
            final(self)@ == old(self)@.stage(
                Change::Link { edge: Edge { from, to, weight, label } },
            ),
    {
        self.log.push(Change::Link { edge: Edge { from, to, weight, label } });
        proof {
            assert(self@.edges =~= old(self)@.edges);
            assert(self@.adjacency =~= old(self)@.adjacency);
        }
    }

    /// Stages the removal of the edge from `from` to `to`.
    pub fn remove_edge(&mut self, from: AgentId, to: AgentId)
        ensures
            final(self)@ == old(self)@.stage(Change::Unlink { from, to }),
    {
        self.log.push(Change::Unlink { from, to });
        proof {
            assert(self@.edges =~= old(self)@.edges);
            assert(self@.adjacency =~= old(self)@.adjacency);
        }
    }

    /// Applies the staged changes, oldest first, each to the edges and to
    /// the neighbour lists at once, and clears the log.
    pub fn commit(&mut self)
        requires
            old(self).wf(),
        ensures
            final(self).wf(),
            final(self)@ == old(self)@.commit(),
            final(self)@.directed == old(self)@.directed,
    {
        let mut log: Vec<Change<W, L>> = Vec::new();
        std::mem::swap(&mut self.log, &mut log);
        let ghost start = old(self)@;
        let ghost all = log@;
        proof {
            assert(self@.edges =~= start.edges);
            assert(self@.adjacency =~= start.adjacency);
            assert(self@ == Graph { staged: Seq::empty(), ..start.replay(all.take(0)) });
        }
        for change in it: log
            invariant
                it.seq() == all,
                all == start.staged,
                self.log@.len() == 0,
                self@.directed == start.directed,
                self@ == (Graph { staged: Seq::empty(), ..start.replay(all.take(it.index() as int)) }),
                self@.consistent(),
        {
            let ghost idx = it.index() as int;
            let ghost before = self@;
            let ghost replayed = start.replay(all.take(idx));
            let directed = self.directed;
            proof {
                assert(all.take(idx + 1).drop_last() =~= all.take(idx));
                assert(all.take(idx + 1).last() == change);
                lemma_apply(before, change);
                assert forall|a: (AgentId, AgentId), b: (AgentId, AgentId)|
                    pair_key(a) == pair_key(b) implies a == b by {
                    lemma_pair_key_injective(a, b);
                }
            }
            match change {
                Change::Node { id } => {
                    self.nodes.insert(id);
                    proof {
                        assert(self@.edges =~= before.edges);
                        assert(self@.adjacency =~= before.adjacency);
                    }
                },
                Change::Link { edge } => {
                    let from = edge.from;
                    let to = edge.to;
                    let key = edge_key(directed, from, to);
                    let displaced = self.edges.insert(key, edge);
                    self.nodes.insert(from);
                    self.nodes.insert(to);
                    if displaced.is_none() {
                        self.adjacency.add(from, to);
                        if !directed && from != to {
                            self.adjacency.add(to, from);
                        }
                    }
                    proof {
                        assert(self@.edges =~= before.apply(change).edges);
                        assert(self@.adjacency =~= before.apply(change).adjacency);
                    }
                },
                Change::Unlink { from, to } => {
                    let key = edge_key(directed, from, to);
                    let removed = self.edges.remove(&key);
                    if removed.is_some() {
                        self.adjacency.strike(from, to);
                        if !directed && from != to {
                            self.adjacency.strike(to, from);
                        }
                    }
                    proof {
                        assert(self@.edges =~= before.apply(change).edges);
                        assert(self@.adjacency =~= before.apply(change).adjacency);
                    }
                },
            }
            proof {
                assert(self@ == before.apply(change));
                assert(replayed.apply(change).edges == before.apply(change).edges);
                assert(replayed.apply(change).adjacency == before.apply(change).adjacency);
                assert(replayed.apply(change).nodes == before.apply(change).nodes);
                assert(start.replay(all.take(idx + 1)) == replayed.apply(change));
            }
        }
        proof {
            assert(all.take(all.len() as int) =~= all);
        }
    }
}

} // verus!
