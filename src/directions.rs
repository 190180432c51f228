use vstd::prelude::*;

verus! {

/// One of the four cardinal directions. The grid's first coordinate grows to
/// the right and its second grows downward, as on a screen.
#[derive(Clone, Copy, Debug, PartialEq, Eq, Structural)]
pub enum Directions {
    Up,
    Down,
    Left,
    Right,
}

impl Directions {
    /// Horizontal component of the unit vector.
    pub open spec fn dx(self) -> int {
        match self {
            Directions::Up => 0,
            Directions::Down => 0,
            Directions::Left => -1,
            Directions::Right => 1,
        }
    }

    /// Vertical component of the unit vector.
    pub open spec fn dy(self) -> int {
        match self {
            Directions::Up => -1,
            Directions::Down => 1,
            Directions::Left => 0,
            Directions::Right => 0,
        }
    }

    /// The direction a quarter turn clockwise from this one.
    pub open spec fn clockwise(self) -> Directions {
        match self {
            Directions::Up => Directions::Right,
            Directions::Right => Directions::Down,
            Directions::Down => Directions::Left,
            Directions::Left => Directions::Up,
        }
    }

    /// The direction a quarter turn counter-clockwise from this one.
    pub open spec fn counter_clockwise(self) -> Directions {
        match self {
            Directions::Up => Directions::Left,
            Directions::Left => Directions::Down,
            Directions::Down => Directions::Right,
            Directions::Right => Directions::Up,
        }
    }

    /// The direction pointing the other way.
    pub open spec fn reversed(self) -> Directions {
        match self {
            Directions::Up => Directions::Down,
            Directions::Down => Directions::Up,
            Directions::Left => Directions::Right,
            Directions::Right => Directions::Left,
        }
    }

    /// Unit vector of the direction, as (dx, dy).
    pub fn delta(&self) -> (r: (i32, i32))
        ensures
            r.0 as int == self.dx(),
            r.1 as int == self.dy(),
    {
        match self {
            Directions::Up => (0, -1),
            Directions::Down => (0, 1),
            Directions::Left => (-1, 0),
            Directions::Right => (1, 0),
        }
    }

    /// Turns a quarter clockwise: Up, Right, Down, Left, Up.
    pub fn rotate_clockwise(&self) -> (r: Directions)
        ensures
            r == self.clockwise(),
    {
        match self {
            Directions::Up => Directions::Right,
            Directions::Right => Directions::Down,
            Directions::Down => Directions::Left,
            Directions::Left => Directions::Up,
        }
    }

    /// Turns a quarter counter-clockwise: Up, Left, Down, Right, Up.
    pub fn rotate_counter_clockwise(&self) -> (r: Directions)
        ensures
            r == self.counter_clockwise(),
    {
        match self {
            Directions::Up => Directions::Left,
            Directions::Left => Directions::Down,
            Directions::Down => Directions::Right,
            Directions::Right => Directions::Up,
        }
    }

    /// The opposite direction.
    pub fn opposite(&self) -> (r: Directions)
        ensures
            r == self.reversed(),
            r.dx() == -self.dx(),
            r.dy() == -self.dy(),
    {
        match self {
            Directions::Up => Directions::Down,
            Directions::Down => Directions::Up,
            Directions::Left => Directions::Right,
            Directions::Right => Directions::Left,
        }
    }

    /// Clockwise rotation, in degrees, of a sprite drawn facing this way
    /// (a sprite at rest faces Right).
    pub fn rotation_degrees(&self) -> (r: u32)
        ensures
            r == match *self {
                Directions::Right => 0u32,
                Directions::Down => 90u32,
                Directions::Left => 180u32,
                Directions::Up => 270u32,
            },
    {
        match self {
            Directions::Up => 270,
            Directions::Down => 90,
            Directions::Left => 180,
            Directions::Right => 0,
        }
    }

    /// Name of the direction, as its debug form prints it.
    pub fn name(&self) -> (r: &'static str)
        ensures
            r@ == match *self {
                Directions::Up => "Up"@,
                Directions::Down => "Down"@,
                Directions::Left => "Left"@,
                Directions::Right => "Right"@,
            },
    {
        match self {
            Directions::Up => "Up",
            Directions::Down => "Down",
            Directions::Left => "Left",
            Directions::Right => "Right",
        }
    }
}

} // verus!
