//! The mathematical model of a hypergraph: edges that join any number of
//! nodes, and the changes waiting for the next commit.

use vstd::prelude::*;
use crate::agent::AgentId;

verus! {

/// An edge that joins a set of nodes.
pub struct HyperLink<W, L> {
    /// The handle the edge was given when it was staged.
    pub id: u64,
    /// The nodes the edge joins: at least one, none twice.
    pub nodes: Seq<AgentId>,
    pub weight: W,
    pub label: L,
}

/// One staged change of a hypergraph.
pub enum HyperWrite<W, L> {
    /// Draw an edge.
    Link { edge: HyperLink<W, L> },
    /// Remove the edge with the handle `id`.
    Unlink { id: u64 },
}

/// `s` with every node only where it occurs first.
pub open spec fn dedup(s: Seq<AgentId>) -> Seq<AgentId>
    decreases s.len(),
{
    if s.len() == 0 {
        s
    } else if dedup(s.drop_last()).contains(s.last()) {
        dedup(s.drop_last())
    } else {
        dedup(s.drop_last()).push(s.last())
    }
}

/// Removing repetitions keeps the nodes and leaves none twice.
pub proof fn lemma_dedup(s: Seq<AgentId>)
    ensures
        dedup(s).no_duplicates(),
        forall|x: AgentId| #[trigger] dedup(s).contains(x) <==> s.contains(x),
        dedup(s).len() <= s.len(),
        s.len() > 0 ==> dedup(s).len() > 0,
    decreases s.len(),
{
    if s.len() > 0 {
        let front = s.drop_last();
        let last = s.last();
        lemma_dedup(front);
        let d = dedup(front);
        let out = dedup(s);
        assert forall|i: int| 0 <= i < front.len() implies front[i] == s[i] by {}
        assert forall|x: AgentId| #[trigger] out.contains(x) <==> s.contains(x) by {
            if out.contains(x) {
                let i = choose|i: int| 0 <= i < out.len() && out[i] == x;
                if i < d.len() {
                    assert(d[i] == x);
                    assert(d.contains(x));
                    let j = choose|j: int| 0 <= j < front.len() && front[j] == x;
                    assert(s[j] == x);
                } else {
                    assert(s[s.len() - 1] == x);
                }
            }
            if s.contains(x) {
                let j = choose|j: int| 0 <= j < s.len() && s[j] == x;
                if j < front.len() {
                    assert(front[j] == x);
                    assert(front.contains(x));
                    assert(dedup(front).contains(x));
                    let i = choose|i: int| 0 <= i < d.len() && d[i] == x;
                    assert(out[i] == x);
                } else if d.contains(x) {
                } else {
                    assert(out[out.len() - 1] == x);
                }
            }
        }
        if !d.contains(last) {
            assert forall|i: int, j: int| 0 <= i < out.len() && 0 <= j < out.len() && i
                != j implies out[i] != out[j] by {
                if i < d.len() && j < d.len() {
                    assert(d[i] != d[j]);
                } else if i < d.len() {
                    assert(d.contains(d[i]));
                } else {
                    assert(d.contains(d[j]));
                }
            }
        }
    }
}

/// The mathematical content of a hypergraph.
pub struct HyperGraph<W, L> {
    /// The handle that the next staged edge gets.
    pub next_id: u64,
    /// The edges, as of the last commit, each under its handle.
    pub edges: Map<u64, HyperLink<W, L>>,
    /// The changes staged since the last commit, oldest first.
    pub staged: Seq<HyperWrite<W, L>>,
}

impl<W, L> HyperGraph<W, L> {
    /// No edge, nothing staged.
    pub open spec fn empty() -> Self {
        HyperGraph { next_id: 0, edges: Map::empty(), staged: Seq::empty() }
    }

    /// Whether the edge with handle `id` is there and joins `node`.
    pub open spec fn joins(self, id: u64, node: AgentId) -> bool {
        self.edges.contains_key(id) && self.edges[id].nodes.contains(node)
    }

    /// Whether some edge joins `a` and `b`.
    pub open spec fn share_edge(self, a: AgentId, b: AgentId) -> bool {
        exists|id: u64| self.joins(id, a) && #[trigger] self.joins(id, b)
    }

    /// Whether `b` is a neighbour of `a`: another node that an edge joins
    /// with `a`.
    pub open spec fn adjacent(self, a: AgentId, b: AgentId) -> bool {
        a != b && self.share_edge(a, b)
    }

    /// Whether `id` is the oldest edge that joins `a` and `b`.
    pub open spec fn oldest_between(self, id: u64, a: AgentId, b: AgentId) -> bool {
        &&& self.joins(id, a)
        &&& self.joins(id, b)
        &&& forall|other: u64| self.joins(other, a) && #[trigger] self.joins(other, b) ==> id <= other
    }

    /// The oldest edge that joins `a` and `b`, if any does.
    pub open spec fn edge_between(self, a: AgentId, b: AgentId) -> Option<HyperLink<W, L>> {
        if self.share_edge(a, b) {
            Some(self.edges[choose|id: u64| self.oldest_between(id, a, b)])
        } else {
            None
        }
    }

    /// Whether `edge` could have been staged: its handle was given out, and
    /// it joins at least one node and none twice.
    pub open spec fn admits(self, edge: HyperLink<W, L>) -> bool {
        &&& edge.id < self.next_id
        &&& edge.nodes.len() > 0
        &&& edge.nodes.no_duplicates()
    }

    /// The invariant of a hypergraph: every edge stands under its own
    /// handle, committed or staged edges are admitted, and no handle is used
    /// twice.
    pub open spec fn valid(self) -> bool {
        &&& forall|id: u64| #[trigger]
            self.edges.contains_key(id) ==> self.edges[id].id == id && self.admits(self.edges[id])
        &&& forall|i: int|
            0 <= i < self.staged.len() ==> ((#[trigger] self.staged[i]) matches HyperWrite::Link {
                edge,
            } ==> self.admits(edge) && !self.edges.contains_key(edge.id))
        &&& forall|i: int, j: int|
            0 <= i < j < self.staged.len() ==> ((#[trigger] self.staged[i]) matches HyperWrite::Link {
                edge: a,
            } ==> ((#[trigger] self.staged[j]) matches HyperWrite::Link { edge: b } ==> a.id
                != b.id))
    }

    /// The state after an edge over `nodes` has been staged.
    pub open spec fn draw(self, nodes: Seq<AgentId>, weight: W, label: L) -> Self {
        HyperGraph {
            next_id: (self.next_id + 1) as u64,
            staged: self.staged.push(
                HyperWrite::Link {
                    edge: HyperLink { id: self.next_id, nodes: dedup(nodes), weight, label },
                },
            ),
            ..self
        }
    }

    /// The state after the removal of the edge `id` has been staged.
    pub open spec fn erase(self, id: u64) -> Self {
        HyperGraph { staged: self.staged.push(HyperWrite::Unlink { id }), ..self }
    }

    /// The edges after `w` has been applied.
    pub open spec fn apply(self, w: HyperWrite<W, L>) -> Self {
        match w {
            HyperWrite::Link { edge } => HyperGraph {
                edges: self.edges.insert(edge.id, edge),
                ..self
            },
            HyperWrite::Unlink { id } => HyperGraph { edges: self.edges.remove(id), ..self },
        }
    }

    /// The state after `ws` have been applied, oldest first.
    pub open spec fn replay(self, ws: Seq<HyperWrite<W, L>>) -> Self
        decreases ws.len(),
    {
        if ws.len() == 0 {
            self
        } else {
            self.replay(ws.drop_last()).apply(ws.last())
        }
    }

    /// The state after a commit: the staged changes applied, none left.
    pub open spec fn commit(self) -> Self {
        HyperGraph { staged: Seq::empty(), ..self.replay(self.staged) }
    }
}

/// Replaying staged changes leaves only edges that were there or were
/// staged, each under its own handle.
pub proof fn lemma_replay<W, L>(g: HyperGraph<W, L>, ws: Seq<HyperWrite<W, L>>)
    requires
        forall|id: u64| #[trigger]
            g.edges.contains_key(id) ==> g.edges[id].id == id && g.admits(g.edges[id]),
        forall|i: int|
            0 <= i < ws.len() ==> ((#[trigger] ws[i]) matches HyperWrite::Link { edge }
                ==> g.admits(edge)),
    ensures
        g.replay(ws).next_id == g.next_id,
        g.replay(ws).staged == g.staged,
        forall|id: u64| #[trigger]
            g.replay(ws).edges.contains_key(id) ==> {
                &&& g.replay(ws).edges[id].id == id
                &&& g.admits(g.replay(ws).edges[id])
                &&& g.edges.contains_key(id) || exists|i: int|
                    0 <= i < ws.len() && #[trigger] ws[i] == (HyperWrite::Link {
                        edge: g.replay(ws).edges[id],
                    })
            },
    decreases ws.len(),
{
    if ws.len() > 0 {
        let front = ws.drop_last();
        assert forall|i: int| 0 <= i < front.len() implies front[i] == ws[i] by {}
        lemma_replay(g, front);
        let mid = g.replay(front);
        let out = g.replay(ws);
        assert forall|id: u64| #[trigger] out.edges.contains_key(id) implies {
            &&& out.edges[id].id == id
            &&& g.admits(out.edges[id])
            &&& g.edges.contains_key(id) || exists|i: int|
                0 <= i < ws.len() && #[trigger] ws[i] == (HyperWrite::Link { edge: out.edges[id] })
        } by {
            match ws.last() {
                HyperWrite::Link { edge } => {
                    if id == edge.id {
                        assert(ws[ws.len() - 1] == HyperWrite::Link { edge: out.edges[id] });
                    } else {
                        assert(mid.edges.contains_key(id));
                        if !g.edges.contains_key(id) {
                            let i = choose|i: int|
                                0 <= i < front.len() && #[trigger] front[i] == (HyperWrite::Link {
                                    edge: mid.edges[id],
                                });
                            assert(ws[i] == HyperWrite::Link { edge: out.edges[id] });
                        }
                    }
                },
                HyperWrite::Unlink { id: gone } => {
                    assert(mid.edges.contains_key(id));
                    if !g.edges.contains_key(id) {
                        let i = choose|i: int|
                            0 <= i < front.len() && #[trigger] front[i] == (HyperWrite::Link {
                                edge: mid.edges[id],
                            });
                        assert(ws[i] == HyperWrite::Link { edge: out.edges[id] });
                    }
                },
            }
        }
    }
}

/// A commit keeps a hypergraph valid and leaves nothing staged.
pub proof fn lemma_commit_is_valid<W, L>(g: HyperGraph<W, L>)
    requires
        g.valid(),
    ensures
        g.commit().valid(),
        g.commit().staged.len() == 0,
        g.commit().next_id == g.next_id,
{
    lemma_replay(g, g.staged);
}

/// Staging an edge or a removal keeps a hypergraph valid and changes
/// nothing that a reader finds.
pub proof fn lemma_staging_is_invisible<W, L>(
    g: HyperGraph<W, L>,
    nodes: Seq<AgentId>,
    weight: W,
    label: L,
    id: u64,
)
    requires
        g.valid(),
        g.next_id < u64::MAX,
        nodes.len() > 0,
    ensures
        g.draw(nodes, weight, label).valid(),
        g.draw(nodes, weight, label).edges == g.edges,
        g.erase(id).valid(),
        g.erase(id).edges == g.edges,
{
    lemma_dedup(nodes);
    let h = g.draw(nodes, weight, label);
    let fresh = HyperLink { id: g.next_id, nodes: dedup(nodes), weight, label };
    assert forall|i: int| 0 <= i < h.staged.len() implies ((#[trigger] h.staged[i]) matches HyperWrite::Link {
        edge,
    } ==> h.admits(edge) && !h.edges.contains_key(edge.id)) by {
        if i < g.staged.len() {
            assert(h.staged[i] == g.staged[i]);
        } else {
            if g.edges.contains_key(g.next_id) {
                assert(g.admits(g.edges[g.next_id]));
            }
        }
    }
    assert forall|i: int, j: int| 0 <= i < j < h.staged.len() implies ((#[trigger] h.staged[i]) matches HyperWrite::Link {
        edge: a,
    } ==> ((#[trigger] h.staged[j]) matches HyperWrite::Link { edge: b } ==> a.id != b.id)) by {
        assert(h.staged[i] == g.staged[i]);
        if j < g.staged.len() {
            assert(h.staged[j] == g.staged[j]);
        } else {
            match g.staged[i] {
                HyperWrite::Link { edge } => {
                    assert(g.admits(edge));
                },
                _ => {},
            }
        }
    }
    let e = g.erase(id);
    assert forall|i: int| 0 <= i < e.staged.len() implies ((#[trigger] e.staged[i]) matches HyperWrite::Link {
        edge,
    } ==> e.admits(edge) && !e.edges.contains_key(edge.id)) by {
        if i < g.staged.len() {
            assert(e.staged[i] == g.staged[i]);
        }
    }
    assert forall|i: int, j: int| 0 <= i < j < e.staged.len() implies ((#[trigger] e.staged[i]) matches HyperWrite::Link {
        edge: a,
    } ==> ((#[trigger] e.staged[j]) matches HyperWrite::Link { edge: b } ==> a.id != b.id)) by {
        assert(e.staged[i] == g.staged[i]);
        if j < g.staged.len() {
            assert(e.staged[j] == g.staged[j]);
        }
    }
}

/// An edge that is drawn and committed joins its nodes with each other; an
/// edge that is removed and committed joins none.
pub proof fn lemma_last_change_wins<W, L>(
    g: HyperGraph<W, L>,
    nodes: Seq<AgentId>,
    weight: W,
    label: L,
    id: u64,
)
    requires
        g.valid(),
        g.next_id < u64::MAX,
        nodes.len() > 0,
    ensures
        g.draw(nodes, weight, label).commit().edges.contains_key(g.next_id),
        forall|a: AgentId, b: AgentId|
            nodes.contains(a) && nodes.contains(b) ==> #[trigger] g.draw(
                nodes,
                weight,
                label,
            ).commit().share_edge(a, b),
        !g.erase(id).commit().edges.contains_key(id),
        forall|node: AgentId| !#[trigger] g.erase(id).commit().joins(id, node),
{
    lemma_dedup(nodes);
    let h = g.draw(nodes, weight, label);
    assert(h.staged.drop_last() =~= g.staged);
    let c = h.commit();
    assert forall|a: AgentId, b: AgentId| nodes.contains(a) && nodes.contains(b) implies #[trigger] c.share_edge(
        a,
        b,
    ) by {
        assert(c.joins(g.next_id, a) && c.joins(g.next_id, b));
    }
    let e = g.erase(id);
    assert(e.staged.drop_last() =~= g.staged);
}

} // verus!
