//! The mathematical model of a spatial index: where each agent is, who is in
//! each cell, and the moves waiting for the next commit.

use vstd::prelude::*;
use crate::agent::AgentId;
use crate::lists::{lemma_push_fresh, lemma_without, without};
use crate::coord::Coord;

verus! {

/// One staged move: `agent` goes to `to`, or leaves the grid.
#[derive(Clone, Copy, Debug)]
pub struct Move {
    pub agent: AgentId,
    pub to: Option<Coord>,
}

/// The mathematical content of a spatial index.
pub struct Placement {
    /// The cell of each agent on the grid, as of the last commit.
    pub positions: Map<AgentId, Coord>,
    /// The occupants of every cell, as of the last commit, in the order in
    /// which they arrived.
    pub cells: Map<Coord, Seq<AgentId>>,
    /// The moves staged since the last commit, oldest first.
    pub staged: Seq<Move>,
}

impl Placement {
    /// No agent anywhere, nothing staged.
    pub open spec fn empty() -> Placement {
        Placement {
            positions: Map::empty(),
            cells: Map::total(|c: Coord| Seq::<AgentId>::empty()),
            staged: Seq::empty(),
        }
    }

    /// The cell of `agent`, if it is on the grid.
    pub open spec fn position_of(self, agent: AgentId) -> Option<Coord> {
        if self.positions.contains_key(agent) {
            Some(self.positions[agent])
        } else {
            None
        }
    }

    /// The occupants of `c`.
    pub open spec fn occupants_of(self, c: Coord) -> Seq<AgentId> {
        self.cells[c]
    }

    /// The two maps are inverses of each other: a cell lists an agent, once,
    /// exactly where the agent's position is that cell.
    pub open spec fn consistent(self) -> bool {
        &&& forall|c: Coord| #[trigger] self.cells.contains_key(c)
        &&& forall|c: Coord| (#[trigger] self.cells[c]).no_duplicates()
        &&& forall|agent: AgentId, c: Coord|
            (#[trigger] self.cells[c].contains(agent)) <==> self.position_of(agent) == Some(c)
    }

    /// The state after `m` has been staged.
    pub open spec fn stage(self, m: Move) -> Placement {
        Placement { staged: self.staged.push(m), ..self }
    }

    /// The occupant lists after `agent` has been struck from the cell it is in.
    pub open spec fn vacated(self, agent: AgentId) -> Map<Coord, Seq<AgentId>> {
        match self.position_of(agent) {
            Some(from) => self.cells.insert(from, without(self.cells[from], agent)),
            None => self.cells,
        }
    }

    /// The state after `m` has been applied to both maps.
    pub open spec fn relocate(self, m: Move) -> Placement {
        match m.to {
            Some(to) => Placement {
                positions: self.positions.insert(m.agent, to),
                cells: self.vacated(m.agent).insert(to, self.vacated(m.agent)[to].push(m.agent)),
                staged: self.staged,
            },
            None => Placement {
                positions: self.positions.remove(m.agent),
                cells: self.vacated(m.agent),
                staged: self.staged,
            },
        }
    }

    /// The state after `moves` have been applied to both maps, oldest first.
    pub open spec fn replay(self, moves: Seq<Move>) -> Placement
        decreases moves.len(),
    {
        if moves.len() == 0 {
            self
        } else {
            self.replay(moves.drop_last()).relocate(moves.last())
        }
    }

    /// The state after a commit: the staged moves applied, none left.
    pub open spec fn commit(self) -> Placement {
        Placement { staged: Seq::empty(), ..self.replay(self.staged) }
    }
}

/// One move keeps the two maps inverses of each other, puts the agent where
/// the move says, and leaves every other agent where it is.
pub proof fn lemma_relocate(p: Placement, m: Move)
    requires
        p.consistent(),
    ensures
        p.relocate(m).consistent(),
        p.relocate(m).position_of(m.agent) == m.to,
        forall|other: AgentId|
            other != m.agent ==> p.relocate(m).position_of(other) == p.position_of(other),
        p.relocate(m).staged == p.staged,
{
    let q = p.relocate(m);
    let v = p.vacated(m.agent);
    let a = m.agent;
    match p.position_of(a) {
        Some(from) => {
            lemma_without(p.cells[from], a);
        },
        None => {},
    }
    assert forall|c: Coord| #[trigger] v.contains_key(c) by {
        assert(p.cells.contains_key(c));
    }
    assert forall|x: AgentId, c: Coord| (#[trigger] v[c].contains(x)) <==> (x != a
        && p.position_of(x) == Some(c)) by {
        assert(p.cells[c].contains(x) <==> p.position_of(x) == Some(c));
        assert(p.cells[c].contains(a) <==> p.position_of(a) == Some(c));
    }
    assert forall|c: Coord| (#[trigger] v[c]).no_duplicates() by {
        assert(p.cells[c].no_duplicates());
    }
    assert forall|c: Coord| #[trigger] q.cells.contains_key(c) by {
        assert(v.contains_key(c));
    }
    match m.to {
        Some(to) => {
            let grown = v[to].push(a);
            assert(!v[to].contains(a));
            assert(v[to].no_duplicates());
            lemma_push_fresh(v[to], a);
            assert forall|c: Coord| (#[trigger] q.cells[c]).no_duplicates() by {
                if c != to {
                    assert(v[c].no_duplicates());
                }
            }
            assert forall|x: AgentId, c: Coord| (#[trigger] q.cells[c].contains(x))
                <==> q.position_of(x) == Some(c) by {
                assert(v[c].contains(x) <==> (x != a && p.position_of(x) == Some(c)));
                if c == to {
                    assert(grown.contains(x) <==> x == a || v[to].contains(x));
                }
            }
        },
        None => {
            assert forall|c: Coord| (#[trigger] q.cells[c]).no_duplicates() by {
                assert(v[c].no_duplicates());
            }
            assert forall|x: AgentId, c: Coord| (#[trigger] q.cells[c].contains(x))
                <==> q.position_of(x) == Some(c) by {
                assert(v[c].contains(x) <==> (x != a && p.position_of(x) == Some(c)));
            }
        },
    }
}

/// Replaying moves keeps the two maps inverses of each other.
pub proof fn lemma_replay(p: Placement, moves: Seq<Move>)
    requires
        p.consistent(),
    ensures
        p.replay(moves).consistent(),
        p.replay(moves).staged == p.staged,
    decreases moves.len(),
{
    if moves.len() > 0 {
        lemma_replay(p, moves.drop_last());
        lemma_relocate(p.replay(moves.drop_last()), moves.last());
    }
}

/// Inverse-consistency law: after a commit the occupants of every cell are
/// exactly the agents whose position is that cell, each listed once.
pub proof fn lemma_commit_is_consistent(p: Placement)
    requires
        p.consistent(),
    ensures
        p.commit().consistent(),
        p.commit().staged.len() == 0,
        forall|c: Coord| #[trigger]
            p.commit().occupants_of(c).to_set() == Set::new(
                |agent: AgentId| p.commit().position_of(agent) == Some(c),
            ),
        forall|c: Coord| (#[trigger] p.commit().occupants_of(c)).no_duplicates(),
{
    lemma_replay(p, p.staged);
    let q = p.commit();
    assert forall|c: Coord| #[trigger]
        q.occupants_of(c).to_set() == Set::new(|agent: AgentId| q.position_of(agent) == Some(c)) by {
        let left = q.occupants_of(c).to_set();
        let right = Set::new(|agent: AgentId| q.position_of(agent) == Some(c));
        assert forall|agent: AgentId| left.contains(agent) <==> right.contains(agent) by {
            assert(q.cells[c].contains(agent) <==> q.position_of(agent) == Some(c));
        }
        assert(left =~= right);
    }
    assert forall|c: Coord| (#[trigger] q.occupants_of(c)).no_duplicates() by {
        assert(q.cells[c].no_duplicates());
    }
}

/// Staging never changes what a reader finds: neither a position nor an
/// occupant list changes before the next commit.
pub proof fn lemma_staging_is_invisible(p: Placement, m: Move, agent: AgentId, c: Coord)
    ensures
        p.stage(m).position_of(agent) == p.position_of(agent),
        p.stage(m).occupants_of(c) == p.occupants_of(c),
{
}

/// After a commit an agent is where the youngest staged move about it says.
pub proof fn lemma_last_move_wins(p: Placement, m: Move)
    requires
        p.consistent(),
    ensures
        p.stage(m).commit().position_of(m.agent) == m.to,
        p.stage(m).commit().consistent(),
{
    let staged = p.staged.push(m);
    assert(staged.drop_last() =~= p.staged);
    assert(staged.last() == m);
    let before = p.stage(m).replay(p.staged);
    lemma_replay(p.stage(m), p.staged);
    lemma_relocate(before, m);
    lemma_commit_is_consistent(p.stage(m));
}

/// Move round trip: an agent that is moved to `c1` and, after a commit, on
/// to another cell `c2` is, after the second commit, at `c2` and no longer
/// among the occupants of `c1`.
pub proof fn lemma_move_round_trip(p: Placement, agent: AgentId, c1: Coord, c2: Coord)
    requires
        p.consistent(),
        c1 != c2,
    ensures
        ({
            let there = p.stage(Move { agent, to: Some(c1) }).commit();
            let back = there.stage(Move { agent, to: Some(c2) }).commit();
            &&& there.position_of(agent) == Some(c1)
            &&& there.occupants_of(c1).contains(agent)
            &&& back.position_of(agent) == Some(c2)
            &&& back.occupants_of(c2).contains(agent)
            &&& !back.occupants_of(c1).contains(agent)
        }),
{
    let m1 = Move { agent, to: Some(c1) };
    let m2 = Move { agent, to: Some(c2) };
    lemma_last_move_wins(p, m1);
    let there = p.stage(m1).commit();
    lemma_last_move_wins(there, m2);
    let back = there.stage(m2).commit();
    assert(there.cells[c1].contains(agent) <==> there.position_of(agent) == Some(c1));
    assert(back.cells[c2].contains(agent) <==> back.position_of(agent) == Some(c2));
    assert(back.cells[c1].contains(agent) <==> back.position_of(agent) == Some(c1));
}

} // verus!
