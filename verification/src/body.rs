use vstd::prelude::*;

verus! {

/// Largest magnitude a body coordinate may have, in lattice units.
pub const COORD_LIMIT: i64 = 16_777_216;

/// Largest total mass a simulation may hold, in mass units.
pub const MASS_LIMIT: u64 = 4_294_967_296;

/// A point or displacement on the integer lattice.
#[derive(Clone, Copy, Debug, PartialEq, Eq, Structural)]
pub struct Vec2 {
    pub x: i64,
    pub y: i64,
}

/// A mass given in whole mass units.
#[derive(Clone, Copy, Debug, PartialEq, Eq, Structural)]
pub struct Mass(pub u64);

/// A point mass on the lattice: what the tree stores and what gravity acts on.
#[derive(Clone, Copy, Debug, PartialEq, Eq, Structural)]
pub struct Body {
    pub pos: Vec2,
    pub mass: u64,
}

impl Vec2 {
    /// Both coordinates lie within `COORD_LIMIT` of the origin.
    pub open spec fn in_range(self) -> bool {
        &&& -COORD_LIMIT <= self.x <= COORD_LIMIT
        &&& -COORD_LIMIT <= self.y <= COORD_LIMIT
    }

    pub fn new(x: i64, y: i64) -> (v: Vec2)
        ensures
            v == (Vec2 { x, y }),
    {
        Vec2 { x, y }
    }
}

impl Body {
    /// A body the simulation accepts: positive mass, position in range.
    pub open spec fn valid(self) -> bool {
        &&& self.pos.in_range()
        &&& 0 < self.mass <= MASS_LIMIT
    }

    /// Mass times x.
    pub open spec fn moment_x(self) -> int {
        self.mass * self.pos.x
    }

    /// Mass times y.
    pub open spec fn moment_y(self) -> int {
        self.mass * self.pos.y
    }

    /// A body of mass `m` at rest at the origin.
    pub fn new(m: Mass) -> (b: Body)
        ensures
            b == (Body { pos: Vec2 { x: 0, y: 0 }, mass: m.0 }),
    {
        Body { pos: Vec2 { x: 0, y: 0 }, mass: m.0 }
    }

    /// Whether the body satisfies `valid`.
    pub fn is_valid(&self) -> (r: bool)
        ensures
            r == self.valid(),
    {
        -COORD_LIMIT <= self.pos.x && self.pos.x <= COORD_LIMIT && -COORD_LIMIT <= self.pos.y
            && self.pos.y <= COORD_LIMIT && 0 < self.mass && self.mass <= MASS_LIMIT
    }
}

} // verus!
