//! Backing stores for the occupant lists of a grid: one hash-based and sized
//! to occupancy, one a fixed array over a bounded area.

use vstd::prelude::*;
use crate::agent::AgentId;
use crate::coord::{coord_key, lemma_coord_key_injective, Coord};
use crate::lists::{list_copy, list_without, without, Lists};

verus! {

/// A store of occupant lists, one for each cell it covers.
pub trait CellStore: Sized {
    /// The invariant of the store.
    spec fn wf(&self) -> bool;

    /// Whether the store has a cell for `c`.
    spec fn covers(&self, c: Coord) -> bool;

    /// The occupants listed at `c`, in the order in which they arrived.
    spec fn cell(&self, c: Coord) -> Seq<AgentId>;

    /// Whether the store has a cell for `c`.
    fn holds(&self, c: Coord) -> (r: bool)
        requires
            self.wf(),
        ensures
            r == self.covers(c),
    ;

    /// The occupants listed at `c`; none where the store has no such cell.
    fn list(&self, c: Coord) -> (r: Vec<AgentId>)
        requires
            self.wf(),
        ensures
            r@ == self.cell(c),
            !self.covers(c) ==> r@.len() == 0,
    ;

    /// Lists `agent` at `c`, behind the occupants already there.
    fn add(&mut self, c: Coord, agent: AgentId)
        requires
            old(self).wf(),
            old(self).covers(c),
        ensures
            final(self).wf(),
            forall|x: Coord| final(self).covers(x) == old(self).covers(x),
            final(self).cell(c) == old(self).cell(c).push(agent),
            forall|x: Coord| x != c ==> final(self).cell(x) == old(self).cell(x),
    ;

    /// Strikes `agent` from the list at `c`.
    fn strike(&mut self, c: Coord, agent: AgentId)
        requires
            old(self).wf(),
            old(self).covers(c),
        ensures
            final(self).wf(),
            forall|x: Coord| final(self).covers(x) == old(self).covers(x),
            final(self).cell(c) == without(old(self).cell(c), agent),
            forall|x: Coord| x != c ==> final(self).cell(x) == old(self).cell(x),
    ;
}

/// Occupant lists in a hash map: memory follows occupancy, every coordinate
/// is covered.
pub struct SparseCells {
    lists: Lists,
}

impl SparseCells {
    /// A store with no occupants.
    pub fn new() -> (s: Self)
        ensures
            s.wf(),
            forall|c: Coord| #[trigger] s.cell(c) == Seq::<AgentId>::empty(),
    {
        SparseCells { lists: Lists::new() }
    }
}

impl CellStore for SparseCells {
    open spec fn wf(&self) -> bool {
        true
    }

    open spec fn covers(&self, c: Coord) -> bool {
        true
    }

    closed spec fn cell(&self, c: Coord) -> Seq<AgentId> {
        self.lists.at(coord_key(c))
    }

    fn holds(&self, c: Coord) -> (r: bool) {
        true
    }

    fn list(&self, c: Coord) -> (r: Vec<AgentId>) {
        self.lists.get(c.key())
    }

    fn add(&mut self, c: Coord, agent: AgentId) {
        self.lists.add(c.key(), agent);
        proof {
            assert forall|x: Coord| x != c implies final(self).cell(x) == old(self).cell(x) by {
                lemma_coord_key_injective(x, c);
            }
        }
    }

    fn strike(&mut self, c: Coord, agent: AgentId) {
        self.lists.strike(c.key(), agent);
        proof {
            assert forall|x: Coord| x != c implies final(self).cell(x) == old(self).cell(x) by {
                lemma_coord_key_injective(x, c);
            }
        }
    }
}

/// Occupant lists in an array with one slot for each cell of a
/// `width` by `height` area: access by index, memory bounded by the area.
pub struct DenseCells {
    width: u32,
    height: u32,
    lists: Vec<Vec<AgentId>>,
}

/// Rows of a bounded area do not overlap: a cell's index tells its row and
/// its column, and is below the area.
proof fn lemma_slot(width: int, height: int, x: int, y: int)
    requires
        0 <= x < width,
        0 <= y < height,
    ensures
        0 <= y * width + x < width * height,
        y * width >= 0,
{
    assert(y * width + x < width * height) by (nonlinear_arith)
        requires
            0 <= x < width,
            0 <= y < height,
    ;
    assert(y * width >= 0) by (nonlinear_arith)
        requires
            0 <= y,
            0 < width,
    ;
}

/// Two cells of a bounded area with the same index are the same cell.
proof fn lemma_slots_differ(width: int, x1: int, y1: int, x2: int, y2: int)
    requires
        0 <= x1 < width,
        0 <= x2 < width,
        0 <= y1,
        0 <= y2,
        y1 * width + x1 == y2 * width + x2,
    ensures
        x1 == x2,
        y1 == y2,
{
    assert(y1 == y2) by (nonlinear_arith)
        requires
            0 <= x1 < width,
            0 <= x2 < width,
            0 <= y1,
            0 <= y2,
            y1 * width + x1 == y2 * width + x2,
    ;
}

impl DenseCells {
    /// Number of columns.
    pub closed spec fn columns(&self) -> u32 {
        self.width
    }

    /// Number of rows.
    pub closed spec fn rows(&self) -> u32 {
        self.height
    }

    /// The slot of a covered cell.
    pub closed spec fn slot(&self, c: Coord) -> int {
        c.y * self.width + c.x
    }

    /// A store for the cells `(x, y)` with `0 <= x < width` and
    /// `0 <= y < height`, with no occupants.
    pub fn new(width: u32, height: u32) -> (s: Self)
        requires
            width * height <= usize::MAX,
        ensures
            s.wf(),
            s.columns() == width,
            s.rows() == height,
            forall|c: Coord| #[trigger] s.cell(c) == Seq::<AgentId>::empty(),
    {
        let mut lists: Vec<Vec<AgentId>> = Vec::new();
        let mut row: u32 = 0;
        while row < height
            invariant
                row <= height,
                width * height <= usize::MAX,
                lists@.len() == row * width,
                forall|i: int| 0 <= i < lists@.len() ==> (#[trigger] lists@[i])@.len() == 0,
            decreases height - row,
        {
            let mut column: u32 = 0;
            while column < width
                invariant
                    column <= width,
                    row < height,
                    width * height <= usize::MAX,
                    lists@.len() == row * width + column,
                    forall|i: int| 0 <= i < lists@.len() ==> (#[trigger] lists@[i])@.len() == 0,
                decreases width - column,
            {
                lists.push(Vec::new());
                column += 1;
            }
            proof {
                assert((row + 1) * width == row * width + width) by (nonlinear_arith);
            }
            row += 1;
        }
        let s = DenseCells { width, height, lists };
        proof {
            assert(height * width == width * height) by (nonlinear_arith);
            assert forall|c: Coord| #[trigger] s.cell(c) == Seq::<AgentId>::empty() by {
                if s.covers(c) {
                    lemma_slot(width as int, height as int, c.x as int, c.y as int);
                    assert(s.lists@[s.slot(c)]@ =~= Seq::<AgentId>::empty());
                }
            }
        }
        s
    }

    /// The slot of a covered cell.
    fn slot_of(&self, c: Coord) -> (i: usize)
        requires
            self.wf(),
            self.covers(c),
        ensures
            i == self.slot(c),
            i < self.lists@.len(),
    {
        proof {
            lemma_slot(self.width as int, self.height as int, c.x as int, c.y as int);
        }
        c.y as usize * self.width as usize + c.x as usize
    }
}

impl CellStore for DenseCells {
    closed spec fn wf(&self) -> bool {
        &&& self.width * self.height <= usize::MAX
        &&& self.lists@.len() == self.width * self.height
    }

    open spec fn covers(&self, c: Coord) -> bool {
        0 <= c.x < self.columns() && 0 <= c.y < self.rows()
    }

    closed spec fn cell(&self, c: Coord) -> Seq<AgentId> {
        if self.covers(c) {
            self.lists@[self.slot(c)]@
        } else {
            Seq::empty()
        }
    }

    fn holds(&self, c: Coord) -> (r: bool) {
        0 <= c.x && (c.x as i64) < self.width as i64 && 0 <= c.y && (c.y as i64)
            < self.height as i64
    }

    fn list(&self, c: Coord) -> (r: Vec<AgentId>) {
        if self.holds(c) {
            let i = self.slot_of(c);
            list_copy(&self.lists[i])
        } else {
            Vec::new()
        }
    }

    fn add(&mut self, c: Coord, agent: AgentId) {
        let i = self.slot_of(c);
        self.lists[i].push(agent);
        proof {
            assert forall|x: Coord| x != c implies final(self).cell(x) == old(self).cell(x) by {
                if self.covers(x) {
                    lemma_slot(self.width as int, self.height as int, x.x as int, x.y as int);
                    if self.slot(x) == self.slot(c) {
                        lemma_slots_differ(
                            self.width as int,
                            x.x as int,
                            x.y as int,
                            c.x as int,
                            c.y as int,
                        );
                    }
                }
            }
        }
    }

    fn strike(&mut self, c: Coord, agent: AgentId) {
        let i = self.slot_of(c);
        let rest = list_without(&self.lists[i], agent);
        self.lists[i] = rest;
        proof {
            assert forall|x: Coord| x != c implies final(self).cell(x) == old(self).cell(x) by {
                if self.covers(x) {
                    lemma_slot(self.width as int, self.height as int, x.x as int, x.y as int);
                    if self.slot(x) == self.slot(c) {
                        lemma_slots_differ(
                            self.width as int,
                            x.x as int,
                            x.y as int,
                            c.x as int,
                            c.y as int,
                        );
                    }
                }
            }
        }
    }
}

} // verus!
