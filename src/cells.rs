use vstd::prelude::*;

use crate::directions::Directions;

verus! {

/// What occupies one slot of the grid.
#[derive(Clone, Copy, Debug, PartialEq, Eq, Structural)]
pub enum Cells {
    /// Nothing: the slot is free.
    EmptyCell,
    /// Advances one slot per tick along its facing, pushing a chain ahead of it.
    MoverCell(Directions),
    /// Passive: moves only when pushed or duplicated.
    PushCell,
    /// Duplicates the cell behind it into the slot ahead of it.
    GeneratorCell(Directions),
}

impl Cells {
    /// A cell that a Mover's chain push can carry along.
    pub open spec fn pushable(self) -> bool {
        self is MoverCell || self is PushCell
    }

    /// The facing direction, for the variants that have one.
    pub open spec fn facing_of(self) -> Option<Directions> {
        match self {
            Cells::MoverCell(d) => Some(d),
            Cells::GeneratorCell(d) => Some(d),
            _ => None,
        }
    }

    /// Whether the slot is free.
    pub fn is_empty(&self) -> (r: bool)
        ensures
            r == (*self is EmptyCell),
    {
        match self {
            Cells::EmptyCell => true,
            _ => false,
        }
    }

    /// Whether a chain push can carry this cell (a Mover or a Pusher).
    pub fn is_pushable(&self) -> (r: bool)
        ensures
            r == self.pushable(),
    {
        match self {
            Cells::MoverCell(_) => true,
            Cells::PushCell => true,
            _ => false,
        }
    }

    /// The facing direction of a Mover or a Generator; `None` otherwise.
    pub fn facing(&self) -> (r: Option<Directions>)
        ensures
            r == self.facing_of(),
    {
        match self {
            Cells::MoverCell(d) => Some(*d),
            Cells::GeneratorCell(d) => Some(*d),
            _ => None,
        }
    }

    /// The next kind in the placement palette (Mover, Generator, Pusher,
    /// Mover, ...), facing `d` where the kind has a facing. Empty leads to a Mover.
    pub fn next_kind(&self, d: Directions) -> (r: Cells)
        ensures
            r == match *self {
                Cells::MoverCell(_) => Cells::GeneratorCell(d),
                Cells::GeneratorCell(_) => Cells::PushCell,
                Cells::PushCell => Cells::MoverCell(d),
                Cells::EmptyCell => Cells::MoverCell(d),
            },
    {
        match self {
            Cells::MoverCell(_) => Cells::GeneratorCell(d),
            Cells::GeneratorCell(_) => Cells::PushCell,
            _ => Cells::MoverCell(d),
        }
    }

    /// The previous kind in the placement palette (Mover, Pusher, Generator,
    /// Mover, ...), facing `d` where the kind has a facing. Empty leads to a Mover.
    pub fn previous_kind(&self, d: Directions) -> (r: Cells)
        ensures
            r == match *self {
                Cells::MoverCell(_) => Cells::PushCell,
                Cells::PushCell => Cells::GeneratorCell(d),
                Cells::GeneratorCell(_) => Cells::MoverCell(d),
                Cells::EmptyCell => Cells::MoverCell(d),
            },
    {
        match self {
            Cells::MoverCell(_) => Cells::PushCell,
            Cells::PushCell => Cells::GeneratorCell(d),
            _ => Cells::MoverCell(d),
        }
    }

    /// The cell of the same kind turned to face `d` (a Pusher has no facing
    /// and stays as it is; Empty becomes a Mover facing `d`), as placed by a click.
    pub fn oriented(&self, d: Directions) -> (r: Cells)
        ensures
            r == match *self {
                Cells::MoverCell(_) => Cells::MoverCell(d),
                Cells::GeneratorCell(_) => Cells::GeneratorCell(d),
                Cells::PushCell => Cells::PushCell,
                Cells::EmptyCell => Cells::MoverCell(d),
            },
    {
        match self {
            Cells::MoverCell(_) => Cells::MoverCell(d),
            Cells::GeneratorCell(_) => Cells::GeneratorCell(d),
            Cells::PushCell => Cells::PushCell,
            Cells::EmptyCell => Cells::MoverCell(d),
        }
    }
}

} // verus!
