//! The spatial index: agent positions and cell occupants kept as mutual
//! inverses, with moves staged during a tick and applied at the commit.

use vstd::prelude::*;
use std::collections::HashMap;
use crate::agent::AgentId;
use crate::cells::{CellStore, DenseCells, SparseCells};
use crate::coord::Coord;
use crate::placement::{lemma_relocate, Move, Placement};

verus! {

broadcast use vstd::std_specs::hash::group_hash_axioms;

/// A grid of cells with the agents that occupy them, over the cell store `C`.
///
/// Reads take `&self` and may run side by side; moves and the commit take
/// `&mut self`, so the borrow rules keep them apart from every read.
pub struct Grid<C> {
    positions: HashMap<AgentId, Coord>,
    store: C,
    log: Vec<Move>,
}

/// A grid over hash-based storage: every coordinate is a cell.
pub type SparseGrid = Grid<SparseCells>;

/// A grid over a fixed array: the cells of a bounded area.
pub type DenseGrid = Grid<DenseCells>;

impl<C: CellStore> View for Grid<C> {
    type V = Placement;

    closed spec fn view(&self) -> Placement {
        Placement {
            positions: self.positions@,
            cells: Map::total(|c: Coord| self.store.cell(c)),
            staged: self.log@,
        }
    }
}

impl<C: CellStore> Grid<C> {
    /// The store of the occupant lists.
    pub closed spec fn cells(&self) -> C {
        self.store
    }

    /// Whether `c` is a cell of this grid.
    pub open spec fn covers(&self, c: Coord) -> bool {
        self.cells().covers(c)
    }

    /// The invariant of a grid: its two maps are inverses of each other, and
    /// every position, committed or staged, is a cell of the grid.
    pub open spec fn wf(&self) -> bool {
        &&& self.cells().wf()
        &&& self@.consistent()
        &&& forall|agent: AgentId| #[trigger]
            self@.positions.contains_key(agent) ==> self.covers(self@.positions[agent])
        &&& forall|i: int|
            0 <= i < self@.staged.len() ==> ((#[trigger] self@.staged[i]).to matches Some(c)
                ==> self.covers(c))
    }

    /// A grid over `store`, which lists no occupant, with no agent on it.
    fn over(store: C) -> (g: Self)
        requires
            store.wf(),
            forall|c: Coord| #[trigger] store.cell(c) == Seq::<AgentId>::empty(),
        ensures
            g.wf(),
            g@ == Placement::empty(),
            g.cells() == store,
    {
        let g = Grid { positions: HashMap::new(), store, log: Vec::new() };
        proof {
            assert(g@.cells =~= Placement::empty().cells);
            assert(g@.positions =~= Placement::empty().positions);
            assert(g@.staged =~= Placement::empty().staged);
        }
        g
    }

    /// Whether `c` is a cell of this grid.
    pub fn contains(&self, c: Coord) -> (r: bool)
        requires
            self.wf(),
        ensures
            r == self.covers(c),
    {
        self.store.holds(c)
    }

    /// The cell of `agent` as of the last commit, if it is on the grid.
    pub fn position_of(&self, agent: AgentId) -> (r: Option<Coord>)
        requires
            self.wf(),
        ensures
            r == self@.position_of(agent),
    {
        match self.positions.get(&agent) {
            Some(c) => Some(*c),
            None => None,
        }
    }

    /// The occupants of `c` as of the last commit, in the order in which
    /// they arrived; none where `c` is no cell of the grid.
    pub fn occupants_of(&self, c: Coord) -> (r: Vec<AgentId>)
        requires
            self.wf(),
        ensures
            r@ == self@.occupants_of(c),
            r@.no_duplicates(),
            forall|agent: AgentId| r@.contains(agent) <==> self@.position_of(agent) == Some(c),
    {
        let r = self.store.list(c);
        proof {
            assert(self@.cells[c].no_duplicates());
            assert forall|agent: AgentId| r@.contains(agent) <==> self@.position_of(agent) == Some(
                c,
            ) by {
                assert(self@.cells[c].contains(agent) <==> self@.position_of(agent) == Some(c));
            }
        }
        r
    }

    /// Number of agents on the grid as of the last commit.
    pub fn population(&self) -> (n: usize)
        requires
            self.wf(),
        ensures
            n == self@.positions.len(),
    {
        self.positions.len()
    }

    /// Number of moves staged since the last commit.
    pub fn staged_len(&self) -> (n: usize)
        ensures
            n == self@.staged.len(),
    {
        self.log.len()
    }

    /// Stages the move of `agent` to `to`: at the next commit the agent
    /// leaves the cell it is in and joins the occupants of `to`. Returns
    /// whether the move was staged; it is not where `to` is no cell of the
    /// grid, and nothing changes then.
    pub fn set_position(&mut self, agent: AgentId, to: Coord) -> (staged: bool)
        requires
            old(self).wf(),
        ensures
            final(self).wf(),
            final(self).cells() == old(self).cells(),
            staged == old(self).covers(to),
            final(self)@ == (if staged {
                old(self)@.stage(Move { agent, to: Some(to) })
            } else {
                old(self)@
            }),
    {
        if !self.store.holds(to) {
            return false;
        }
        self.log.push(Move { agent, to: Some(to) });
        proof {
            assert(self@.cells =~= old(self)@.cells);
        }
        true
    }

    /// Stages the removal of `agent` from the grid.
    pub fn remove_agent(&mut self, agent: AgentId)
        requires
            old(self).wf(),
        ensures
            final(self).wf(),
            final(self).cells() == old(self).cells(),
            final(self)@ == old(self)@.stage(Move { agent, to: None }),
    {
        self.log.push(Move { agent, to: None });
        proof {
            assert(self@.cells =~= old(self)@.cells);
        }
    }

    /// Applies the staged moves, oldest first, each to both maps at once,
    /// and clears the log. Afterwards the occupants of every cell are again
    /// exactly the agents whose position is that cell.
    pub fn commit(&mut self)
        requires
            old(self).wf(),
        ensures
            final(self).wf(),
            final(self)@ == old(self)@.commit(),
            forall|c: Coord| #[trigger] final(self).cells().covers(c) == old(self).cells().covers(c),
    {
        let mut log: Vec<Move> = Vec::new();
        std::mem::swap(&mut self.log, &mut log);
        let ghost start = old(self)@;
        let ghost all = log@;
        proof {
            assert(self@.cells =~= start.cells);
            assert(self@ == Placement { staged: Seq::empty(), ..start.replay(all.take(0)) });
        }
        for m in it: log
            invariant
                it.seq() == all,
                all == start.staged,
                start.consistent(),
                self.log@.len() == 0,
                self.store.wf(),
                forall|c: Coord| self.store.covers(c) == old(self).store.covers(c),
                self@ == (Placement {
                    staged: Seq::empty(),
                    ..start.replay(all.take(it.index() as int))
                }),
                self@.consistent(),
                forall|agent: AgentId| #[trigger]
                    self.positions@.contains_key(agent) ==> self.store.covers(
                        self.positions@[agent],
                    ),
                forall|i: int|
                    0 <= i < all.len() ==> ((#[trigger] all[i]).to matches Some(c)
                        ==> self.store.covers(c)),
        {
            let ghost idx = it.index() as int;
            let ghost before = self@;
            let ghost replayed = start.replay(all.take(idx));
            proof {
                assert(all.take(idx + 1).drop_last() =~= all.take(idx));
                assert(all.take(idx + 1).last() == m);
                assert(all[idx] == m);
                lemma_relocate(before, m);
            }
            let from = match self.positions.get(&m.agent) {
                Some(c) => Some(*c),
                None => None,
            };
            match from {
                Some(c) => {
                    self.store.strike(c, m.agent);
                },
                None => {},
            }
            proof {
                assert(Map::total(|c: Coord| self.store.cell(c)) =~= before.vacated(m.agent));
            }
            match m.to {
                Some(to) => {
                    self.store.add(to, m.agent);
                    self.positions.insert(m.agent, to);
                },
                None => {
                    self.positions.remove(&m.agent);
                },
            }
            proof {
                assert(self@.cells =~= before.relocate(m).cells);
                assert(self@.positions =~= before.relocate(m).positions);
                assert(self@ == before.relocate(m));
                assert(replayed.relocate(m).positions == before.relocate(m).positions);
                assert(replayed.relocate(m).cells == before.relocate(m).cells);
                assert(start.replay(all.take(idx + 1)) == replayed.relocate(m));
            }
        }
        proof {
            assert(all.take(all.len() as int) =~= all);
        }
    }
}

impl Grid<SparseCells> {
    /// A grid without bounds and with no agent on it.
    pub fn new() -> (g: Self)
        ensures
            g.wf(),
            g@ == Placement::empty(),
            forall|c: Coord| g.covers(c),
    {
        Grid::over(SparseCells::new())
    }
}

impl Grid<DenseCells> {
    /// A grid of the cells `(x, y)` with `0 <= x < width` and
    /// `0 <= y < height`, with no agent on it.
    pub fn new(width: u32, height: u32) -> (g: Self)
        requires
            width * height <= usize::MAX,
        ensures
            g.wf(),
            g@ == Placement::empty(),
            g.cells().columns() == width,
            g.cells().rows() == height,
    {
        Grid::over(DenseCells::new(width, height))
    }
}

} // verus!
