//! The mathematical model of a network: nodes, weighted and labelled edges
//! between pairs of them, neighbour lists, and the changes waiting for the
//! next commit.

use vstd::prelude::*;
use crate::agent::AgentId;
use crate::lists::{lemma_push_fresh, lemma_without, without};

verus! {

/// An edge between two nodes.
pub struct Edge<W, L> {
    /// The node the edge was drawn from.
    pub from: AgentId,
    /// The node the edge was drawn to.
    pub to: AgentId,
    pub weight: W,
    pub label: L,
}

/// One staged change of a network.
pub enum Change<W, L> {
    /// Add a node.
    Node { id: AgentId },
    /// Draw an edge, in place of the one between its nodes if there is one.
    Link { edge: Edge<W, L> },
    /// Remove the edge between two nodes.
    Unlink { from: AgentId, to: AgentId },
}

/// The pair under which the edge from `from` to `to` is kept: the pair as
/// it is in a directed network, the smaller node first in an undirected one.
pub open spec fn link(directed: bool, from: AgentId, to: AgentId) -> (AgentId, AgentId) {
    if directed || from <= to {
        (from, to)
    } else {
        (to, from)
    }
}

/// The mathematical content of a network.
pub struct Graph<W, L> {
    /// Whether edges have a direction. Fixed when the network is made.
    pub directed: bool,
    /// The nodes, as of the last commit.
    pub nodes: Set<AgentId>,
    /// The edges, as of the last commit, each under the pair of its nodes.
    pub edges: Map<(AgentId, AgentId), Edge<W, L>>,
    /// The neighbours of every node, as of the last commit, in the order in
    /// which the edges to them were drawn.
    pub adjacency: Map<AgentId, Seq<AgentId>>,
    /// The changes staged since the last commit, oldest first.
    pub staged: Seq<Change<W, L>>,
}

impl<W, L> Graph<W, L> {
    /// No node, no edge, nothing staged.
    pub open spec fn empty(directed: bool) -> Self {
        Graph {
            directed,
            nodes: Set::empty(),
            edges: Map::empty(),
            adjacency: Map::total(|n: AgentId| Seq::<AgentId>::empty()),
            staged: Seq::empty(),
        }
    }

    /// Whether an edge leads from `from` to `to`; in an undirected network
    /// that is whether an edge joins the two.
    pub open spec fn linked(self, from: AgentId, to: AgentId) -> bool {
        self.edges.contains_key(link(self.directed, from, to))
    }

    /// The edge that leads from `from` to `to`, if there is one.
    pub open spec fn edge_between(self, from: AgentId, to: AgentId) -> Option<Edge<W, L>> {
        if self.linked(from, to) {
            Some(self.edges[link(self.directed, from, to)])
        } else {
            None
        }
    }

    /// The neighbours of `node`: in a directed network the nodes its edges
    /// lead to, in an undirected one the nodes it is joined with.
    pub open spec fn neighbors(self, node: AgentId) -> Seq<AgentId> {
        self.adjacency[node]
    }

    /// The neighbour lists say what the edges say: a node lists another,
    /// once, exactly where an edge leads to it; and edges lie between nodes.
    pub open spec fn consistent(self) -> bool {
        &&& forall|n: AgentId| #[trigger] self.adjacency.contains_key(n)
        &&& forall|n: AgentId| (#[trigger] self.adjacency[n]).no_duplicates()
        &&& forall|from: AgentId, to: AgentId|
            (#[trigger] self.adjacency[from].contains(to)) <==> self.linked(from, to)
        &&& forall|from: AgentId, to: AgentId| #[trigger]
            self.edges.contains_key((from, to)) ==> {
                &&& self.nodes.contains(from)
                &&& self.nodes.contains(to)
                &&& link(self.directed, from, to) == (from, to)
                &&& link(self.directed, self.edges[(from, to)].from, self.edges[(from, to)].to)
                    == (from, to)
            }
    }

    /// The state after `change` has been staged.
    pub open spec fn stage(self, change: Change<W, L>) -> Self {
        Graph { staged: self.staged.push(change), ..self }
    }

    /// The neighbour lists after the edge from `from` to `to` has been drawn.
    pub open spec fn joined(self, from: AgentId, to: AgentId) -> Map<AgentId, Seq<AgentId>> {
        let one = self.adjacency.insert(from, self.adjacency[from].push(to));
        if !self.directed && from != to {
            one.insert(to, one[to].push(from))
        } else {
            one
        }
    }

    /// The neighbour lists after the edge from `from` to `to` has been
    /// removed.
    pub open spec fn parted(self, from: AgentId, to: AgentId) -> Map<AgentId, Seq<AgentId>> {
        let one = self.adjacency.insert(from, without(self.adjacency[from], to));
        if !self.directed && from != to {
            one.insert(to, without(one[to], from))
        } else {
            one
        }
    }

    /// The state after `change` has been applied.
    pub open spec fn apply(self, change: Change<W, L>) -> Self {
        match change {
            Change::Node { id } => Graph { nodes: self.nodes.insert(id), ..self },
            Change::Link { edge } => Graph {
                nodes: self.nodes.insert(edge.from).insert(edge.to),
                edges: self.edges.insert(link(self.directed, edge.from, edge.to), edge),
                adjacency: if self.linked(edge.from, edge.to) {
                    self.adjacency
                } else {
                    self.joined(edge.from, edge.to)
                },
                ..self
            },
            Change::Unlink { from, to } => Graph {
                edges: self.edges.remove(link(self.directed, from, to)),
                adjacency: if self.linked(from, to) {
                    self.parted(from, to)
                } else {
                    self.adjacency
                },
                ..self
            },
        }
    }

    /// The state after `changes` have been applied, oldest first.
    pub open spec fn replay(self, changes: Seq<Change<W, L>>) -> Self
        decreases changes.len(),
    {
        if changes.len() == 0 {
            self
        } else {
            self.replay(changes.drop_last()).apply(changes.last())
        }
    }

    /// The state after a commit: the staged changes applied, none left.
    pub open spec fn commit(self) -> Self {
        Graph { staged: Seq::empty(), ..self.replay(self.staged) }
    }
}

/// One change keeps the neighbour lists in step with the edges.
pub proof fn lemma_apply<W, L>(g: Graph<W, L>, change: Change<W, L>)
    requires
        g.consistent(),
    ensures
        g.apply(change).consistent(),
        g.apply(change).directed == g.directed,
        g.apply(change).staged == g.staged,
{
    let h = g.apply(change);
    let d = g.directed;
    match change {
        Change::Node { id } => {
            assert forall|from: AgentId, to: AgentId|
                (#[trigger] h.adjacency[from].contains(to)) <==> h.linked(from, to) by {
                assert(g.adjacency[from].contains(to) <==> g.linked(from, to));
            }
            assert forall|n: AgentId| (#[trigger] h.adjacency[n]).no_duplicates() by {
                assert(g.adjacency[n].no_duplicates());
            }
            assert forall|n: AgentId| #[trigger] h.adjacency.contains_key(n) by {
                assert(g.adjacency.contains_key(n));
            }
        },
        Change::Link { edge } => {
            let u = edge.from;
            let v = edge.to;
            let key = link(d, u, v);
            assert forall|n: AgentId| #[trigger] h.adjacency.contains_key(n) by {
                assert(g.adjacency.contains_key(n));
            }
            if !g.linked(u, v) {
                assert(g.adjacency[u].contains(v) <==> g.linked(u, v));
                assert(g.adjacency[v].contains(u) <==> g.linked(v, u));
                assert(g.adjacency[u].no_duplicates());
                assert(g.adjacency[v].no_duplicates());
                lemma_push_fresh(g.adjacency[u], v);
                lemma_push_fresh(g.adjacency[v], u);
            }
            assert forall|n: AgentId| (#[trigger] h.adjacency[n]).no_duplicates() by {
                assert(g.adjacency[n].no_duplicates());
            }
            assert forall|from: AgentId, to: AgentId|
                (#[trigger] h.adjacency[from].contains(to)) <==> h.linked(from, to) by {
                assert(g.adjacency[from].contains(to) <==> g.linked(from, to));
            }
            assert forall|from: AgentId, to: AgentId| #[trigger]
                h.edges.contains_key((from, to)) implies {
                &&& h.nodes.contains(from)
                &&& h.nodes.contains(to)
                &&& link(d, from, to) == (from, to)
                &&& link(d, h.edges[(from, to)].from, h.edges[(from, to)].to) == (from, to)
            } by {
                if (from, to) != key {
                    assert(g.edges.contains_key((from, to)));
                }
            }
        },
        Change::Unlink { from: u, to: v } => {
            let key = link(d, u, v);
            assert forall|n: AgentId| #[trigger] h.adjacency.contains_key(n) by {
                assert(g.adjacency.contains_key(n));
            }
            assert(g.adjacency[u].no_duplicates());
            assert(g.adjacency[v].no_duplicates());
            lemma_without(g.adjacency[u], v);
            lemma_without(g.adjacency[v], u);
            assert forall|n: AgentId| (#[trigger] h.adjacency[n]).no_duplicates() by {
                assert(g.adjacency[n].no_duplicates());
            }
            assert forall|from: AgentId, to: AgentId|
                (#[trigger] h.adjacency[from].contains(to)) <==> h.linked(from, to) by {
                assert(g.adjacency[from].contains(to) <==> g.linked(from, to));
                assert(g.adjacency[u].contains(v) <==> g.linked(u, v));
                assert(g.adjacency[v].contains(u) <==> g.linked(v, u));
            }
            assert forall|from: AgentId, to: AgentId| #[trigger]
                h.edges.contains_key((from, to)) implies {
                &&& h.nodes.contains(from)
                &&& h.nodes.contains(to)
                &&& link(d, from, to) == (from, to)
                &&& link(d, h.edges[(from, to)].from, h.edges[(from, to)].to) == (from, to)
            } by {
                assert(g.edges.contains_key((from, to)));
            }
        },
    }
}

/// Replaying changes keeps the neighbour lists in step with the edges.
pub proof fn lemma_replay<W, L>(g: Graph<W, L>, changes: Seq<Change<W, L>>)
    requires
        g.consistent(),
    ensures
        g.replay(changes).consistent(),
        g.replay(changes).directed == g.directed,
        g.replay(changes).staged == g.staged,
    decreases changes.len(),
{
    if changes.len() > 0 {
        lemma_replay(g, changes.drop_last());
        lemma_apply(g.replay(changes.drop_last()), changes.last());
    }
}

/// After a commit the neighbours of every node are exactly the nodes that
/// an edge leads to from it, each listed once; in an undirected network
/// being a neighbour is mutual.
pub proof fn lemma_commit_is_consistent<W, L>(g: Graph<W, L>)
    requires
        g.consistent(),
    ensures
        g.commit().consistent(),
        g.commit().directed == g.directed,
        g.commit().staged.len() == 0,
        forall|from: AgentId, to: AgentId|
            g.commit().neighbors(from).contains(to) <==> #[trigger] g.commit().linked(from, to),
        !g.directed ==> forall|from: AgentId, to: AgentId|
            g.commit().linked(from, to) <==> #[trigger] g.commit().linked(to, from),
{
    lemma_replay(g, g.staged);
    let h = g.commit();
    assert forall|from: AgentId, to: AgentId|
        h.neighbors(from).contains(to) <==> #[trigger] h.linked(from, to) by {
        assert(h.adjacency[from].contains(to) <==> h.linked(from, to));
    }
}

/// Staging never changes what a reader finds: neither an edge nor a
/// neighbour list nor the nodes change before the next commit.
pub proof fn lemma_staging_is_invisible<W, L>(
    g: Graph<W, L>,
    change: Change<W, L>,
    from: AgentId,
    to: AgentId,
)
    ensures
        g.stage(change).edge_between(from, to) == g.edge_between(from, to),
        g.stage(change).neighbors(from) == g.neighbors(from),
        g.stage(change).nodes == g.nodes,
{
}

/// An edge that is drawn and committed is there, in both directions where
/// the network is undirected; an edge that is removed and committed is gone.
pub proof fn lemma_last_change_wins<W, L>(g: Graph<W, L>, change: Change<W, L>)
    requires
        g.consistent(),
    ensures
        g.stage(change).commit().consistent(),
        g.stage(change).commit().directed == g.directed,
        change matches Change::Link { edge } ==> {
            &&& g.stage(change).commit().edge_between(edge.from, edge.to) == Some(edge)
            &&& g.stage(change).commit().neighbors(edge.from).contains(edge.to)
            &&& !g.directed ==> g.stage(change).commit().neighbors(edge.to).contains(edge.from)
            &&& g.stage(change).commit().nodes.contains(edge.from)
            &&& g.stage(change).commit().nodes.contains(edge.to)
        },
        change matches Change::Unlink { from, to } ==> {
            &&& g.stage(change).commit().edge_between(from, to) is None
            &&& !g.stage(change).commit().neighbors(from).contains(to)
        },
        change matches Change::Node { id } ==> g.stage(change).commit().nodes.contains(id),
{
    let staged = g.staged.push(change);
    assert(staged.drop_last() =~= g.staged);
    assert(staged.last() == change);
    let before = g.stage(change).replay(g.staged);
    lemma_replay(g.stage(change), g.staged);
    lemma_apply(before, change);
    lemma_commit_is_consistent(g.stage(change));
    let h = g.stage(change).commit();
    match change {
        Change::Link { edge } => {
            assert(h.adjacency[edge.from].contains(edge.to) <==> h.linked(edge.from, edge.to));
            assert(h.adjacency[edge.to].contains(edge.from) <==> h.linked(edge.to, edge.from));
            assert(h.edges.contains_key(link(h.directed, edge.from, edge.to)));
        },
        Change::Unlink { from, to } => {
            assert(h.adjacency[from].contains(to) <==> h.linked(from, to));
        },
        Change::Node { id } => {},
    }
}

} // verus!
