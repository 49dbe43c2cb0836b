use crate::cell::CellId;
use vstd::prelude::*;

verus! {

/// A directed data-flow edge: `to` consumes the output of `from`.
#[derive(Debug, Clone, Copy, PartialEq, Eq, Hash, Structural)]
pub struct Relationship {
    pub from: CellId,
    pub to: CellId,
}

impl Relationship {
    pub open spec fn involves_spec(self, id: CellId) -> bool {
        self.from == id || self.to == id
    }

    pub fn new(from: CellId, to: CellId) -> (r: Relationship)
        ensures
            r == (Relationship { from, to }),
    {
        Relationship { from, to }
    }

    /// Does the relationship start or end at `cell_id`?
    pub fn involves(&self, cell_id: CellId) -> (r: bool)
        ensures
            r == self.involves_spec(cell_id),
    {
        self.from == cell_id || self.to == cell_id
    }

    pub fn starts_from(&self, cell_id: CellId) -> (r: bool)
        ensures
            r == (self.from == cell_id),
    {
        self.from == cell_id
    }

    pub fn ends_at(&self, cell_id: CellId) -> (r: bool)
        ensures
            r == (self.to == cell_id),
    {
        self.to == cell_id
    }

    /// The same edge in the opposite direction.
    pub fn reversed(&self) -> (r: Relationship)
        ensures
            r == (Relationship { from: self.to, to: self.from }),
    {
        Relationship { from: self.to, to: self.from }
    }
}

} // verus!
