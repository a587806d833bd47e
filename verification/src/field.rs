//! A scalar field: one value for each cell that has one, with writes staged
//! during a tick and applied at the commit.

use vstd::prelude::*;
use crate::coord::{coord_key, Coord};
use crate::dbmap::{Buffered, DBMap, Write};

verus! {

/// A double-buffered map from the cells of a grid to values of any kind.
pub struct Field<V> {
    values: DBMap<V>,
}

impl<V> View for Field<V> {
    type V = Buffered<V>;

    /// The field as a buffered map from the keys of the coordinates.
    closed spec fn view(&self) -> Buffered<V> {
        self.values@
    }
}

impl<V> Field<V> {
    /// What a reader finds at `c`.
    pub open spec fn value_at(&self, c: Coord) -> Option<V> {
        self@.read(coord_key(c))
    }

    /// A field with no value anywhere and nothing staged.
    pub fn new() -> (f: Self)
        ensures
            f@ == Buffered::<V>::empty(),
    {
        Field { values: DBMap::new() }
    }

    /// The value at `c` as of the last commit.
    pub fn get(&self, c: Coord) -> (r: Option<&V>)
        ensures
            match r {
                Some(v) => self.value_at(c) == Some(*v),
                None => self.value_at(c) is None,
            },
    {
        self.values.get(c.key())
    }

    /// Stages `value` as the value at `c`.
    pub fn set(&mut self, c: Coord, value: V)
        ensures
            final(self)@ == old(self)@.stage(Write::Insert { key: coord_key(c), value }),
    {
        self.values.insert(c.key(), value);
    }

    /// Applies the staged values, oldest first, and clears the log.
    pub fn commit(&mut self)
        ensures
            final(self)@ == old(self)@.commit(),
    {
        self.values.commit();
    }
}

} // verus!
