use crate::body::{Body, Vec2, COORD_LIMIT, MASS_LIMIT};
use vstd::prelude::*;

verus! {

/// One of the four quadrants of a square cell.
#[derive(Clone, Copy, Debug, PartialEq, Eq, Structural)]
pub enum Quadrant {
    NorthWest,
    NorthEast,
    SouthWest,
    SouthEast,
}

/// Why a body could not be put into the tree.
#[derive(Clone, Copy, Debug, PartialEq, Eq, Structural)]
pub enum TreeError {
    /// Two bodies share one position; both are named.
    Coincident { incumbent: Body, incoming: Body },
}

/// A source of gravity: a mass and its moment (mass times position). The mass sits at the moment divided by the mass. It is either one
/// body or a lump that stands for all bodies of a distant cell.
#[derive(Clone, Copy, Debug, PartialEq, Eq, Structural)]
pub struct PointMass {
    pub mass: u64,
    pub moment: Vec2,
    pub lump: bool,
}

/// Numerator of the opening angle, nine tenths.
pub const THETA_NUM: u64 = 9;

/// Denominator of the opening angle.
pub const THETA_DEN: u64 = 10;

/// The four optional children of an internal node.
pub struct Quads {
    pub nw: Option<Box<Node>>,
    pub ne: Option<Box<Node>>,
    pub sw: Option<Box<Node>>,
    pub se: Option<Box<Node>>,
}

/// What a node holds.
pub enum Nested {
    /// Nothing yet: the state of a fresh root.
    Empty,
    /// Exactly one body occupies the cell.
    Single(Body),
    /// The cell is subdivided.
    Multiple(Quads),
}

/// A square cell of the quadtree.
///
/// Bodies sit on the lattice; cell corners and sides are kept in grains,
/// `GRAIN` of them to the lattice unit. So a cell of any half side halves
/// exactly for as long as it can hold two lattice points, and a cell
/// narrower than a lattice unit holds at most one.
pub struct Node {
    /// Total mass below this node, filled by `compute_mass_distribution`.
    pub mass: u64,
    /// Sum over the bodies below of mass times position.
    pub moment: Vec2,
    /// South-west corner, in grains.
    pub lower: Vec2,
    /// Side length, in grains.
    pub side: i64,
    pub nested: Nested,
}

/// Number of grains to the lattice unit: a power of two above `ROI_LIMIT`.
pub const GRAIN: i64 = 134_217_728;

/// Largest half side of a root cell, in lattice units.
pub const ROI_LIMIT: i64 = 67_108_864;

/// Largest side of a cell and largest magnitude of a cell corner, in grains:
/// twice `ROI_LIMIT` lattice units.
pub const SPAN_LIMIT: i64 = 18_014_398_509_481_984;

/// Largest magnitude of a moment: `MASS_LIMIT` times `COORD_LIMIT`.
pub const MOMENT_LIMIT: i64 = 72_057_594_037_927_936;

/// The largest power of two that divides `n`.
pub open spec fn pow2_part(n: int) -> int
    decreases n,
{
    if n <= 0 || n % 2 != 0 {
        1
    } else {
        2 * pow2_part(n / 2)
    }
}

/// A side that halves exactly as long as the cell may hold two lattice
/// points: what is left of it after dividing by two as often as possible is
/// at most `ROI_LIMIT`, and so less than a lattice unit.
pub open spec fn splits(side: int) -> bool {
    1 <= side <= ROI_LIMIT * pow2_part(side)
}

/// `n` is a power of two.
pub open spec fn is_pow2(n: int) -> bool
    decreases n,
{
    n == 1 || (n > 1 && n % 2 == 0 && is_pow2(n / 2))
}

impl Quads {
    pub open spec fn get(self, q: Quadrant) -> Option<Box<Node>> {
        match q {
            Quadrant::NorthWest => self.nw,
            Quadrant::NorthEast => self.ne,
            Quadrant::SouthWest => self.sw,
            Quadrant::SouthEast => self.se,
        }
    }

    pub open spec fn with(self, q: Quadrant, child: Option<Box<Node>>) -> Quads {
        match q {
            Quadrant::NorthWest => Quads { nw: child, ..self },
            Quadrant::NorthEast => Quads { ne: child, ..self },
            Quadrant::SouthWest => Quads { sw: child, ..self },
            Quadrant::SouthEast => Quads { se: child, ..self },
        }
    }

    fn empty() -> (qs: Quads)
        ensures
            qs.nw is None,
            qs.ne is None,
            qs.sw is None,
            qs.se is None,
    {
        Quads { nw: None, ne: None, sw: None, se: None }
    }

    /// Removes and returns the child in quadrant `q`.
    fn take(&mut self, q: Quadrant) -> (child: Option<Box<Node>>)
        ensures
            child == old(self).get(q),
            *final(self) == old(self).with(q, None),
    {
        match q {
            Quadrant::NorthWest => self.nw.take(),
            Quadrant::NorthEast => self.ne.take(),
            Quadrant::SouthWest => self.sw.take(),
            Quadrant::SouthEast => self.se.take(),
        }
    }

    /// Puts `child` into quadrant `q`.
    fn put(&mut self, q: Quadrant, child: Option<Box<Node>>)
        ensures
            *final(self) == old(self).with(q, child),
    {
        match q {
            Quadrant::NorthWest => { self.nw = child; },
            Quadrant::NorthEast => { self.ne = child; },
            Quadrant::SouthWest => { self.sw = child; },
            Quadrant::SouthEast => { self.se = child; },
        }
    }
}

impl Node {
    /// Geometric center, in grains.
    pub open spec fn center(self) -> Vec2 {
        Vec2 { x: (self.lower.x + self.side / 2) as i64, y: (self.lower.y + self.side / 2) as i64 }
    }

    /// The lattice point `p` lies in the closed cell.
    pub open spec fn encloses(self, p: Vec2) -> bool {
        &&& self.lower.x <= GRAIN * p.x <= self.lower.x + self.side
        &&& self.lower.y <= GRAIN * p.y <= self.lower.y + self.side
    }

    /// The quadrant that `p` is routed to: on a tie the quadrant listed first
    /// among south-west, north-west, north-east, south-east wins.
    pub open spec fn quadrant_of(self, p: Vec2) -> Quadrant {
        let c = self.center();
        if GRAIN * p.x <= c.x && GRAIN * p.y <= c.y {
            Quadrant::SouthWest
        } else if GRAIN * p.x <= c.x {
            Quadrant::NorthWest
        } else if GRAIN * p.y >= c.y {
            Quadrant::NorthEast
        } else {
            Quadrant::SouthEast
        }
    }

    /// South-west corner of the child cell in quadrant `q`.
    pub open spec fn child_lower(self, q: Quadrant) -> Vec2 {
        let c = self.center();
        match q {
            Quadrant::SouthWest => self.lower,
            Quadrant::NorthWest => Vec2 { x: self.lower.x, y: c.y },
            Quadrant::NorthEast => c,
            Quadrant::SouthEast => Vec2 { x: c.x, y: self.lower.y },
        }
    }

    /// Body `b` sits in a leaf of this subtree.
    pub open spec fn stores(self, b: Body) -> bool
        decreases self,
    {
        match self.nested {
            Nested::Empty => false,
            Nested::Single(c) => c == b,
            Nested::Multiple(qs) => {
                ||| (match qs.nw { Some(n) => n.stores(b), None => false })
                ||| (match qs.ne { Some(n) => n.stores(b), None => false })
                ||| (match qs.sw { Some(n) => n.stores(b), None => false })
                ||| (match qs.se { Some(n) => n.stores(b), None => false })
            },
        }
    }

    /// Some stored body sits at `p`.
    pub open spec fn occupied(self, p: Vec2) -> bool {
        exists|m: u64| #[trigger] self.stores(Body { pos: p, mass: m })
    }

    /// Number of bodies stored below this node.
    pub open spec fn count(self) -> nat
        decreases self,
    {
        match self.nested {
            Nested::Empty => 0,
            Nested::Single(_) => 1,
            Nested::Multiple(qs) => {
                (match qs.nw { Some(n) => n.count(), None => 0 })
                + (match qs.ne { Some(n) => n.count(), None => 0 })
                + (match qs.sw { Some(n) => n.count(), None => 0 })
                + (match qs.se { Some(n) => n.count(), None => 0 })
            },
        }
    }

    /// Sum of the masses of the bodies stored below this node.
    pub open spec fn body_mass(self) -> nat
        decreases self,
    {
        match self.nested {
            Nested::Empty => 0,
            Nested::Single(b) => b.mass as nat,
            Nested::Multiple(qs) => {
                (match qs.nw { Some(n) => n.body_mass(), None => 0 })
                + (match qs.ne { Some(n) => n.body_mass(), None => 0 })
                + (match qs.sw { Some(n) => n.body_mass(), None => 0 })
                + (match qs.se { Some(n) => n.body_mass(), None => 0 })
            },
        }
    }

    /// Sum over the stored bodies of mass times x.
    pub open spec fn body_moment_x(self) -> int
        decreases self,
    {
        match self.nested {
            Nested::Empty => 0,
            Nested::Single(b) => b.moment_x(),
            Nested::Multiple(qs) => {
                (match qs.nw { Some(n) => n.body_moment_x(), None => 0 })
                + (match qs.ne { Some(n) => n.body_moment_x(), None => 0 })
                + (match qs.sw { Some(n) => n.body_moment_x(), None => 0 })
                + (match qs.se { Some(n) => n.body_moment_x(), None => 0 })
            },
        }
    }

    /// Sum over the stored bodies of mass times y.
    pub open spec fn body_moment_y(self) -> int
        decreases self,
    {
        match self.nested {
            Nested::Empty => 0,
            Nested::Single(b) => b.moment_y(),
            Nested::Multiple(qs) => {
                (match qs.nw { Some(n) => n.body_moment_y(), None => 0 })
                + (match qs.ne { Some(n) => n.body_moment_y(), None => 0 })
                + (match qs.sw { Some(n) => n.body_moment_y(), None => 0 })
                + (match qs.se { Some(n) => n.body_moment_y(), None => 0 })
            },
        }
    }

    /// `child` is a proper occupant of quadrant `q` of this cell: it covers
    /// exactly that quarter, is not empty, and every body below it is routed
    /// to `q` from here.
    pub open spec fn fits(self, child: Node, q: Quadrant) -> bool {
        &&& child.lower == self.child_lower(q)
        &&& child.side == self.side / 2
        &&& !(child.nested is Empty)
        &&& forall|b: Body| #[trigger] child.stores(b) ==> self.quadrant_of(b.pos) == q
    }

    /// The structural invariant: cells are squares whose side is a power of
    /// two, children tile their parent exactly, every leaf encloses its body,
    /// and every body is found by quadrant selection from the root.
    pub open spec fn wf(self) -> bool
        decreases self,
    {
        &&& splits(self.side as int)
        &&& self.side <= SPAN_LIMIT
        &&& -SPAN_LIMIT <= self.lower.x
        &&& -SPAN_LIMIT <= self.lower.y
        &&& self.lower.x + self.side <= SPAN_LIMIT
        &&& self.lower.y + self.side <= SPAN_LIMIT
        &&& match self.nested {
            Nested::Empty => true,
            Nested::Single(b) => b.valid() && self.encloses(b.pos),
            Nested::Multiple(qs) => {
                &&& self.side >= 2
                &&& self.side % 2 == 0
                &&& (match qs.nw { Some(n) => n.wf() && self.fits(*n, Quadrant::NorthWest), None => true })
                &&& (match qs.ne { Some(n) => n.wf() && self.fits(*n, Quadrant::NorthEast), None => true })
                &&& (match qs.sw { Some(n) => n.wf() && self.fits(*n, Quadrant::SouthWest), None => true })
                &&& (match qs.se { Some(n) => n.wf() && self.fits(*n, Quadrant::SouthEast), None => true })
            },
        }
    }

    /// An empty root cell centred on `center` that reaches `roi` lattice
    /// units to each side.
    pub fn root(center: Vec2, roi: i64) -> (node: Node)
        requires
            center.in_range(),
            1 <= roi <= ROI_LIMIT,
        ensures
            node.wf(),
            node.nested is Empty,
            node.lower == (Vec2 {
                x: (GRAIN * (center.x - roi)) as i64,
                y: (GRAIN * (center.y - roi)) as i64,
            }),
            node.side == 2 * roi * GRAIN,
            node.center() == (Vec2 { x: (GRAIN * center.x) as i64, y: (GRAIN * center.y) as i64 }),
            node.mass == 0,
            node.moment == (Vec2 { x: 0, y: 0 }),
            forall|p: Vec2|
                #[trigger] node.encloses(p) <==> center.x - roi <= p.x <= center.x + roi && center.y
                    - roi <= p.y <= center.y + roi,
    {
        proof {
            lemma_root_splits(roi as int);
        }
        Node {
            mass: 0,
            moment: Vec2 { x: 0, y: 0 },
            lower: Vec2 { x: GRAIN * (center.x - roi), y: GRAIN * (center.y - roi) },
            side: 2 * roi * GRAIN,
            nested: Nested::Empty,
        }
    }

    /// A leaf holding `body` in the cell with corner `lower` and side `side`.
    pub fn new(body: Body, lower: Vec2, side: i64) -> (node: Node)
        ensures
            node.nested == Nested::Single(body),
            node.lower == lower,
            node.side == side,
            node.mass == 0,
            node.moment == (Vec2 { x: 0, y: 0 }),
    {
        Node { mass: 0, moment: Vec2 { x: 0, y: 0 }, lower, side, nested: Nested::Single(body) }
    }

    /// Whether `p` lies in the closed cell.
    pub fn contains(&self, p: Vec2) -> (r: bool)
        requires
            self.wf(),
            p.in_range(),
        ensures
            r == self.encloses(p),
    {
        self.lower.x <= GRAIN * p.x && GRAIN * p.x <= self.lower.x + self.side && self.lower.y
            <= GRAIN * p.y && GRAIN * p.y <= self.lower.y + self.side
    }

    /// The quadrant of this cell that `p` is routed to.
    pub fn get_quadrant(&self, p: Vec2) -> (q: Quadrant)
        requires
            self.wf(),
            p.in_range(),
        ensures
            q == self.quadrant_of(p),
    {
        let cx: i64 = self.lower.x + self.side / 2;
        let cy: i64 = self.lower.y + self.side / 2;
        if GRAIN * p.x <= cx && GRAIN * p.y <= cy {
            Quadrant::SouthWest
        } else if GRAIN * p.x <= cx {
            Quadrant::NorthWest
        } else if GRAIN * p.y >= cy {
            Quadrant::NorthEast
        } else {
            Quadrant::SouthEast
        }
    }

    /// South-west corner of the child cell in quadrant `q`.
    pub fn new_bounds(&self, q: Quadrant) -> (lower: Vec2)
        requires
            self.wf(),
        ensures
            lower == self.child_lower(q),
    {
        let cx: i64 = self.lower.x + self.side / 2;
        let cy: i64 = self.lower.y + self.side / 2;
        match q {
            Quadrant::SouthWest => self.lower,
            Quadrant::NorthWest => Vec2 { x: self.lower.x, y: cy },
            Quadrant::NorthEast => Vec2 { x: cx, y: cy },
            Quadrant::SouthEast => Vec2 { x: cx, y: self.lower.y },
        }
    }

    /// The aggregates are in place throughout the subtree: every node's
    /// `mass` is the sum of the masses of the bodies below it and its
    /// `moment` the sum of their masses times their positions.
    pub open spec fn aggregated(self) -> bool
        decreases self,
    {
        &&& self.mass == self.body_mass()
        &&& self.moment.x == self.body_moment_x()
        &&& self.moment.y == self.body_moment_y()
        &&& match self.nested {
            Nested::Multiple(qs) => {
                &&& (match qs.nw { Some(n) => n.aggregated(), None => true })
                &&& (match qs.ne { Some(n) => n.aggregated(), None => true })
                &&& (match qs.sw { Some(n) => n.aggregated(), None => true })
                &&& (match qs.se { Some(n) => n.aggregated(), None => true })
            },
            _ => true,
        }
    }

    /// No cell is subdivided without need: every internal node of the
    /// subtree holds at least two bodies.
    pub open spec fn compact(self) -> bool
        decreases self,
    {
        match self.nested {
            Nested::Multiple(qs) => {
                &&& self.count() >= 2
                &&& (match qs.nw { Some(n) => n.compact(), None => true })
                &&& (match qs.ne { Some(n) => n.compact(), None => true })
                &&& (match qs.sw { Some(n) => n.compact(), None => true })
                &&& (match qs.se { Some(n) => n.compact(), None => true })
            },
            _ => true,
        }
    }

    /// The subtrees below this node are compact.
    pub open spec fn kids_compact(self) -> bool {
        match self.nested {
            Nested::Multiple(qs) => {
                &&& (match qs.nw { Some(n) => n.compact(), None => true })
                &&& (match qs.ne { Some(n) => n.compact(), None => true })
                &&& (match qs.sw { Some(n) => n.compact(), None => true })
                &&& (match qs.se { Some(n) => n.compact(), None => true })
            },
            _ => true,
        }
    }

    /// Two subtrees have the same cells, of the same kinds, with the same
    /// bodies in their leaves, at every depth: they differ at most in the
    /// aggregates.
    pub open spec fn same_cells(a: Node, b: Node) -> bool
        decreases a,
    {
        &&& a.lower == b.lower
        &&& a.side == b.side
        &&& match (a.nested, b.nested) {
            (Nested::Empty, Nested::Empty) => true,
            (Nested::Single(x), Nested::Single(y)) => x == y,
            (Nested::Multiple(p), Nested::Multiple(q)) => {
                &&& (match (p.nw, q.nw) {
                    (Some(m), Some(n)) => Node::same_cells(*m, *n),
                    (None, None) => true,
                    _ => false,
                })
                &&& (match (p.ne, q.ne) {
                    (Some(m), Some(n)) => Node::same_cells(*m, *n),
                    (None, None) => true,
                    _ => false,
                })
                &&& (match (p.sw, q.sw) {
                    (Some(m), Some(n)) => Node::same_cells(*m, *n),
                    (None, None) => true,
                    _ => false,
                })
                &&& (match (p.se, q.se) {
                    (Some(m), Some(n)) => Node::same_cells(*m, *n),
                    (None, None) => true,
                    _ => false,
                })
            },
            _ => false,
        }
    }

    /// Two cells cover the same square and hold the same bodies.
    pub open spec fn same_bodies(a: Node, b: Node) -> bool {
        &&& a.lower == b.lower
        &&& a.side == b.side
        &&& (a.nested is Empty) == (b.nested is Empty)
        &&& (a.nested is Multiple) == (b.nested is Multiple)
        &&& a.count() == b.count()
        &&& a.body_mass() == b.body_mass()
        &&& a.body_moment_x() == b.body_moment_x()
        &&& a.body_moment_y() == b.body_moment_y()
        &&& forall|x: Body| #![trigger a.stores(x)] #![trigger b.stores(x)] a.stores(x) == b.stores(x)
        &&& a.compact() ==> b.compact()
    }

    /// The center of mass of the bodies below this node, in lattice units
    /// and rounded down; `None` when there are no bodies.
    pub open spec fn mass_center(self) -> Option<Vec2> {
        if self.body_mass() == 0 {
            None
        } else {
            Some(
                Vec2 {
                    x: (self.body_moment_x() / (self.body_mass() as int)) as i64,
                    y: (self.body_moment_y() / (self.body_mass() as int)) as i64,
                },
            )
        }
    }

    /// The node is far enough from `p` to stand for one point mass: its side
    /// over the distance from `p` to its center of mass is at most the
    /// opening angle. Stated without division or roots, with the side in
    /// grains, as
    /// `(THETA_DEN * side * mass)^2 <= (THETA_NUM * GRAIN)^2 * |mass * p - moment|^2`.
    /// A node without mass is never far enough.
    #[verifier::opaque]
    pub open spec fn far_enough(self, p: Vec2) -> bool {
        let m = self.body_mass() as int;
        let dx = m * p.x - self.body_moment_x();
        let dy = m * p.y - self.body_moment_y();
        &&& m > 0
        &&& (THETA_DEN * THETA_DEN) * (self.side * self.side) * (m * m) <= (THETA_NUM * THETA_NUM)
            * (GRAIN * GRAIN) * (dx * dx + dy * dy)
    }

    /// The whole subtree as one point mass: a lump, or a single body.
    pub open spec fn source(self, lump: bool) -> PointMass {
        PointMass {
            mass: self.body_mass() as u64,
            moment: Vec2 { x: self.body_moment_x() as i64, y: self.body_moment_y() as i64 },
            lump,
        }
    }

    /// The point masses that pull on a body at `p`: a leaf gives its body,
    /// unless it sits at `p`; an internal node that is far enough gives its
    /// lump; any other gives what its children give, north-west first.
    pub open spec fn sources(self, p: Vec2) -> Seq<PointMass>
        decreases self,
    {
        match self.nested {
            Nested::Empty => Seq::empty(),
            Nested::Single(b) => if b.pos == p {
                Seq::empty()
            } else {
                seq![self.source(false)]
            },
            Nested::Multiple(qs) => if self.far_enough(p) {
                seq![self.source(true)]
            } else {
                (match qs.nw { Some(n) => n.sources(p), None => Seq::empty() })
                + (match qs.ne { Some(n) => n.sources(p), None => Seq::empty() })
                + (match qs.sw { Some(n) => n.sources(p), None => Seq::empty() })
                + (match qs.se { Some(n) => n.sources(p), None => Seq::empty() })
            },
        }
    }

    /// The node reached from here by quadrant selection for `p`: this node
    /// unless it is internal and has a child in the quadrant of `p`, else
    /// what that child reaches.
    pub open spec fn leaf_for(self, p: Vec2) -> Node
        decreases self,
    {
        match self.nested {
            Nested::Multiple(qs) => match self.quadrant_of(p) {
                Quadrant::NorthWest => match qs.nw { Some(n) => n.leaf_for(p), None => self },
                Quadrant::NorthEast => match qs.ne { Some(n) => n.leaf_for(p), None => self },
                Quadrant::SouthWest => match qs.sw { Some(n) => n.leaf_for(p), None => self },
                Quadrant::SouthEast => match qs.se { Some(n) => n.leaf_for(p), None => self },
            },
            _ => self,
        }
    }

    /// What `insert_particle` does to a cell, as a relation between the cell
    /// before and after, the body and the answer.
    pub open spec fn inserted(pre: Node, post: Node, body: Body, r: Result<bool, TreeError>) -> bool {
        &&& post.lower == pre.lower
        &&& post.side == pre.side
        &&& post.mass == pre.mass
        &&& post.moment == pre.moment
        &&& pre.kids_compact() ==> post.kids_compact()
        &&& pre.compact() ==> post.compact()
        &&& !pre.encloses(body.pos) ==> r == Ok::<bool, TreeError>(false) && post == pre
        &&& pre.encloses(body.pos) && pre.occupied(body.pos) ==> {
            &&& r is Err
            &&& r->Err_0 matches TreeError::Coincident { incumbent, incoming }
            &&& incoming == body
            &&& incumbent.pos == body.pos
            &&& pre.stores(incumbent)
            &&& post == pre
        }
        &&& pre.encloses(body.pos) && !pre.occupied(body.pos) ==> {
            &&& r == Ok::<bool, TreeError>(true)
            &&& forall|b: Body| #[trigger] post.stores(b) <==> pre.stores(b) || b == body
            &&& post.count() == pre.count() + 1
            &&& post.body_mass() == pre.body_mass() + body.mass
            &&& post.body_moment_x() == pre.body_moment_x() + body.moment_x()
            &&& post.body_moment_y() == pre.body_moment_y() + body.moment_y()
            &&& !(post.nested is Empty)
        }
    }

    /// Puts `body` into the subtree below this cell.
    ///
    /// A body outside the cell is a renegade: nothing changes and `Ok(false)`
    /// comes back. A body at the position of a stored body is refused with
    /// both bodies named, and nothing changes. Otherwise the body is stored in
    /// a leaf of its own, reached by quadrant selection, and `Ok(true)` comes
    /// back.
    pub fn insert_particle(&mut self, body: Body) -> (r: Result<bool, TreeError>)
        requires
            old(self).wf(),
            body.valid(),
        ensures
            final(self).wf(),
            Node::inserted(*old(self), *final(self), body, r),
        decreases old(self).side, 1nat,
    {
        if !self.contains(body.pos) {
            return Ok(false);
        }
        let ghost pre = *self;
        let mut nested = Nested::Empty;
        core::mem::swap(&mut self.nested, &mut nested);
        match nested {
            Nested::Empty => {
                self.nested = Nested::Single(body);
                Ok(true)
            },
            Nested::Single(prev) => {
                if prev.pos == body.pos {
                    self.nested = Nested::Single(prev);
                    assert(pre.stores(Body { pos: body.pos, mass: prev.mass }));
                    return Err(TreeError::Coincident { incumbent: prev, incoming: body });
                }
                proof {
                    lemma_distinct_need_room(pre, prev.pos, body.pos);
                    lemma_side_even(pre.side as int);
                }
                self.nested = Nested::Multiple(Quads::empty());
                let ghost hollow = *self;
                assert(!hollow.occupied(prev.pos));
                let _ = self.insert_below(prev);
                let ghost half_done = *self;
                assert(!half_done.occupied(body.pos));
                self.insert_below(body)
            },
            Nested::Multiple(qs) => {
                self.nested = Nested::Multiple(qs);
                self.insert_below(body)
            },
        }
    }

    /// Puts `body` below an internal node that encloses it: into the child
    /// that the body is routed to, which is created when absent.
    fn insert_below(&mut self, body: Body) -> (r: Result<bool, TreeError>)
        requires
            old(self).wf(),
            old(self).nested is Multiple,
            old(self).encloses(body.pos),
            body.valid(),
        ensures
            final(self).wf(),
            final(self).nested is Multiple,
            Node::inserted(*old(self), *final(self), body, r),
        decreases old(self).side, 0nat,
    {
        let ghost pre = *self;
        let quad = self.get_quadrant(body.pos);
        let lower = self.new_bounds(quad);
        let half: i64 = self.side / 2;
        proof {
            lemma_child_encloses(pre, body.pos);
            lemma_occupied_routes(pre, body.pos);
            lemma_side_halves(pre.side as int);
        }
        let mut nested = Nested::Empty;
        core::mem::swap(&mut self.nested, &mut nested);
        match nested {
            Nested::Multiple(mut qs) => {
                let ghost qs0 = qs;
                let child = qs.take(quad);
                let mut node = match child {
                    Some(boxed) => *boxed,
                    None => Node {
                        mass: 0,
                        moment: Vec2 { x: 0, y: 0 },
                        lower,
                        side: half,
                        nested: Nested::Empty,
                    },
                };
                let ghost before = node;
                let r = node.insert_particle(body);
                qs.put(quad, Some(Box::new(node)));
                self.nested = Nested::Multiple(qs);
                proof {
                    if r is Ok {
                        assert(before.encloses(body.pos));
                        assert(!before.occupied(body.pos));
                        assert forall|b: Body| #[trigger] node.stores(b) implies self.quadrant_of(
                            b.pos,
                        ) == quad by {
                            if b != body {
                                lemma_stored_routes(pre, b);
                            }
                        }
                        lemma_grown_stores(pre, *self, quad, before, node, body);
                        lemma_grown_sums(pre, *self, quad, before, node, body);
                        lemma_grown_wf(pre, *self, quad, node);
                        lemma_grown_compact(pre, *self, quad, before, node);
                    } else {
                        assert(qs == qs0);
                    }
                }
                r
            },
            // Not reached: the node is internal.
            _ => Ok(false),
        }
    }

    /// Fills `mass` and `moment` at every node of the subtree, children
    /// first, and returns the center of mass of the bodies it holds.
    ///
    /// Afterwards the node's mass is the sum of the masses of the stored
    /// bodies, and its moment divided by its mass is their mass-weighted
    /// mean position. The cells, their kinds and the bodies stay as they
    /// were at every depth.
    pub fn compute_mass_distribution(&mut self) -> (c: Option<Vec2>)
        requires
            old(self).wf(),
            old(self).body_mass() <= MASS_LIMIT,
        ensures
            final(self).wf(),
            final(self).aggregated(),
            Node::same_cells(*old(self), *final(self)),
            Node::same_bodies(*old(self), *final(self)),
            c == final(self).mass_center(),
        decreases old(self).side, 1nat,
    {
        let ghost pre = *self;
        proof {
            lemma_moment_bound(pre);
        }
        let mut nested = Nested::Empty;
        core::mem::swap(&mut self.nested, &mut nested);
        match nested {
            Nested::Empty => {
                self.mass = 0;
                self.moment = Vec2 { x: 0, y: 0 };
            },
            Nested::Single(b) => {
                assert(-MASS_LIMIT * COORD_LIMIT <= b.mass * b.pos.x <= MASS_LIMIT * COORD_LIMIT)
                    by (nonlinear_arith)
                    requires
                        0 < b.mass <= MASS_LIMIT,
                        -COORD_LIMIT <= b.pos.x <= COORD_LIMIT,
                ;
                assert(-MASS_LIMIT * COORD_LIMIT <= b.mass * b.pos.y <= MASS_LIMIT * COORD_LIMIT)
                    by (nonlinear_arith)
                    requires
                        0 < b.mass <= MASS_LIMIT,
                        -COORD_LIMIT <= b.pos.y <= COORD_LIMIT,
                ;
                let m: i64 = b.mass as i64;
                self.mass = b.mass;
                self.moment = Vec2 { x: m * b.pos.x, y: m * b.pos.y };
                self.nested = Nested::Single(b);
            },
            Nested::Multiple(qs) => {
                proof {
                    lemma_children_bounds(pre);
                    assert(qs.get(Quadrant::NorthWest) == qs.nw);
                    assert(qs.get(Quadrant::NorthEast) == qs.ne);
                    assert(qs.get(Quadrant::SouthWest) == qs.sw);
                    assert(qs.get(Quadrant::SouthEast) == qs.se);
                }
                let Quads { nw, ne, sw, se } = qs;
                let (nw, m1, s1) = Node::aggregate_child(nw);
                let (ne, m2, s2) = Node::aggregate_child(ne);
                let (sw, m3, s3) = Node::aggregate_child(sw);
                let (se, m4, s4) = Node::aggregate_child(se);
                self.mass = m1 + m2 + m3 + m4;
                self.moment = Vec2 { x: s1.x + s2.x + s3.x + s4.x, y: s1.y + s2.y + s3.y + s4.y };
                self.nested = Nested::Multiple(Quads { nw, ne, sw, se });
                proof {
                    lemma_children_same(pre, *self);
                }
            },
        }
        self.center_of_mass()
    }

    /// `after` is `before` with the aggregates filled in: both absent, or
    /// both present with the same bodies.
    pub open spec fn child_kept(before: Option<Box<Node>>, after: Option<Box<Node>>) -> bool {
        match (before, after) {
            (Some(a), Some(b)) => b.wf() && Node::same_bodies(*a, *b) && Node::same_cells(*a, *b),
            (None, None) => true,
            _ => false,
        }
    }

    /// Aggregates a child, if there is one, and returns it with its mass and
    /// moment; zero for an absent child.
    fn aggregate_child(child: Option<Box<Node>>) -> (r: (Option<Box<Node>>, u64, Vec2))
        requires
            match child {
                Some(n) => n.wf() && n.body_mass() <= MASS_LIMIT,
                None => true,
            },
        ensures
            Node::child_kept(child, r.0),
            r.1 <= MASS_LIMIT,
            -MOMENT_LIMIT <= r.2.x <= MOMENT_LIMIT,
            -MOMENT_LIMIT <= r.2.y <= MOMENT_LIMIT,
            match r.0 {
                Some(n) => {
                    &&& n.aggregated()
                    &&& r.1 == n.body_mass()
                    &&& r.2.x == n.body_moment_x()
                    &&& r.2.y == n.body_moment_y()
                },
                None => r.1 == 0 && r.2 == (Vec2 { x: 0, y: 0 }),
            },
        decreases
                (match child {
                    Some(n) => n.side,
                    None => 0,
                }),
                2nat,
    {
        match child {
            Some(boxed) => {
                let mut node = *boxed;
                let _ = node.compute_mass_distribution();
                proof {
                    lemma_moment_bound(node);
                    lemma_moment_limit(node.body_mass() as int);
                }
                let mass = node.mass;
                let moment = node.moment;
                (Some(Box::new(node)), mass, moment)
            },
            None => (None, 0, Vec2 { x: 0, y: 0 }),
        }
    }

    /// The center of mass from the aggregates: moment over mass, rounded
    /// down.
    pub fn center_of_mass(&self) -> (c: Option<Vec2>)
        requires
            self.wf(),
            self.aggregated(),
            self.body_mass() <= MASS_LIMIT,
        ensures
            c == self.mass_center(),
    {
        if self.mass == 0 {
            return None;
        }
        proof {
            lemma_moment_bound(*self);
        }
        let d: i64 = self.mass as i64;
        Some(Vec2 { x: floor_div(self.moment.x, d), y: floor_div(self.moment.y, d) })
    }

    /// An optional child is fit for a force query: well formed, aggregated
    /// and within the mass limit.
    pub open spec fn child_ready(child: Option<Box<Node>>) -> bool {
        match child {
            Some(n) => n.wf() && n.aggregated() && n.body_mass() <= MASS_LIMIT,
            None => true,
        }
    }

    /// What an optional child gives to a body at `p`.
    pub open spec fn child_sources(child: Option<Box<Node>>, p: Vec2) -> Seq<PointMass> {
        match child {
            Some(n) => n.sources(p),
            None => Seq::empty(),
        }
    }

    /// The point masses that pull on a body at `p`, from the whole tree.
    pub fn calc_force(&self, p: Vec2) -> (list: Vec<PointMass>)
        requires
            self.wf(),
            self.aggregated(),
            self.body_mass() <= MASS_LIMIT,
            p.in_range(),
        ensures
            list@ == self.sources(p),
    {
        let mut list: Vec<PointMass> = Vec::new();
        self.calc_tree_force(p, &mut list);
        list
    }

    /// Appends to `out` the point masses with which this subtree pulls on a
    /// body at `p`.
    pub fn calc_tree_force(&self, p: Vec2, out: &mut Vec<PointMass>)
        requires
            self.wf(),
            self.aggregated(),
            self.body_mass() <= MASS_LIMIT,
            p.in_range(),
        ensures
            final(out)@ == old(out)@ + self.sources(p),
        decreases self,
    {
        let ghost s0 = out@;
        match &self.nested {
            Nested::Empty => {
                assert(s0 + self.sources(p) =~= s0);
            },
            Nested::Single(b) => {
                if !(b.pos == p) {
                    out.push(PointMass { mass: self.mass, moment: self.moment, lump: false });
                    assert(out@ =~= s0 + seq![self.source(false)]);
                } else {
                    assert(s0 + self.sources(p) =~= s0);
                }
            },
            Nested::Multiple(qs) => {
                if self.is_far_enough(p) {
                    out.push(PointMass { mass: self.mass, moment: self.moment, lump: true });
                    assert(out@ =~= s0 + seq![self.source(true)]);
                } else {
                    proof {
                        lemma_children_ready(*self);
                        lemma_sources_internal(*self, p);
                    }
                    let ghost a = Node::child_sources(qs.nw, p);
                    let ghost b = Node::child_sources(qs.ne, p);
                    let ghost c = Node::child_sources(qs.sw, p);
                    let ghost d = Node::child_sources(qs.se, p);
                    Node::child_force(&qs.nw, p, out);
                    Node::child_force(&qs.ne, p, out);
                    Node::child_force(&qs.sw, p, out);
                    Node::child_force(&qs.se, p, out);
                    proof {
                        lemma_concat4(s0, a, b, c, d);
                    }
                }
            },
        }
    }

    /// Appends to `out` what an optional child gives to a body at `p`.
    fn child_force(child: &Option<Box<Node>>, p: Vec2, out: &mut Vec<PointMass>)
        requires
            Node::child_ready(*child),
            p.in_range(),
        ensures
            final(out)@ == old(out)@ + Node::child_sources(*child, p),
        decreases *child,
    {
        match child {
            Some(n) => n.calc_tree_force(p, out),
            None => {},
        }
    }

    /// Whether the node may stand for one point mass as seen from `p`.
    pub fn is_far_enough(&self, p: Vec2) -> (r: bool)
        requires
            self.wf(),
            self.aggregated(),
            self.body_mass() <= MASS_LIMIT,
            p.in_range(),
        ensures
            r == self.far_enough(p),
    {
        proof {
            reveal(Node::far_enough);
        }
        if self.mass == 0 {
            return false;
        }
        proof {
            lemma_moment_bound(*self);
            lemma_moment_limit(self.body_mass() as int);
        }
        let m: i128 = self.mass as i128;
        let px: i128 = p.x as i128;
        let py: i128 = p.y as i128;
        assert(-MOMENT_LIMIT <= m * px <= MOMENT_LIMIT && -MOMENT_LIMIT <= m * py <= MOMENT_LIMIT)
            by (nonlinear_arith)
            requires
                0 < m <= MASS_LIMIT,
                -COORD_LIMIT <= px <= COORD_LIMIT,
                -COORD_LIMIT <= py <= COORD_LIMIT,
        ;
        let dx: i128 = m * px - (self.moment.x as i128);
        let dy: i128 = m * py - (self.moment.y as i128);
        assert(0 <= dx * dx <= 4 * MOMENT_LIMIT * MOMENT_LIMIT && 0 <= dy * dy <= 4 * MOMENT_LIMIT
            * MOMENT_LIMIT) by (nonlinear_arith)
            requires
                -2 * MOMENT_LIMIT <= dx <= 2 * MOMENT_LIMIT,
                -2 * MOMENT_LIMIT <= dy <= 2 * MOMENT_LIMIT,
        ;
        let far: u128 = (dx * dx) as u128 + (dy * dy) as u128;
        let d: u128 = self.side as u128;
        let w: u128 = self.mass as u128;
        assert(0 <= d * w <= SPAN_LIMIT * MASS_LIMIT) by (nonlinear_arith)
            requires
                0 <= d <= SPAN_LIMIT,
                0 <= w <= MASS_LIMIT,
        ;
        let near: u128 = (THETA_DEN as u128) * (d * w);
        let wide: u128 = ((THETA_NUM * THETA_NUM) as u128) * far;
        assert((THETA_DEN * THETA_DEN) * (self.side * self.side) * (m * m) == near * near)
            by (nonlinear_arith)
            requires
                near == THETA_DEN * (self.side * m),
        ;
        assert((THETA_NUM * THETA_NUM) * (GRAIN * GRAIN) * (dx * dx + dy * dy) == wide * (GRAIN
            * GRAIN)) by (nonlinear_arith)
            requires
                wide == (THETA_NUM * THETA_NUM) * (dx * dx + dy * dy),
        ;
        square_at_most(near, wide)
    }
}

/// Doubling a positive number doubles the power of two in it.
pub proof fn lemma_pow2_part_double(n: int)
    requires
        n >= 1,
    ensures
        pow2_part(2 * n) == 2 * pow2_part(n),
        pow2_part(n) >= 1,
    decreases n,
{
    assert((2 * n) / 2 == n);
    if n % 2 == 0 {
        lemma_pow2_part_double(n / 2);
    }
}

/// Multiplying a positive number by a power of two multiplies the power of
/// two in it.
pub proof fn lemma_pow2_part_times(n: int, g: int)
    requires
        n >= 1,
        is_pow2(g),
    ensures
        pow2_part(n * g) == g * pow2_part(n),
    decreases g,
{
    if g > 1 {
        let h = g / 2;
        lemma_pow2_part_times(n, h);
        assert(n * g == 2 * (n * h) && n * h >= 1) by (nonlinear_arith)
            requires
                g == 2 * h,
                n >= 1,
                h >= 1,
        ;
        lemma_pow2_part_double(n * h);
        assert(2 * (h * pow2_part(n)) == g * pow2_part(n)) by (nonlinear_arith)
            requires
                g == 2 * h,
        ;
    } else {
        assert(n * g == n) by (nonlinear_arith)
            requires
                g == 1,
        ;
        assert(g * pow2_part(n) == pow2_part(n)) by (nonlinear_arith)
            requires
                g == 1,
        ;
    }
}

/// The side of a root cell of any half side up to `ROI_LIMIT` splits.
pub proof fn lemma_root_splits(roi: int)
    requires
        1 <= roi <= ROI_LIMIT,
    ensures
        splits(2 * roi * GRAIN),
        2 * roi * GRAIN <= SPAN_LIMIT,
{
    let g = 2 * GRAIN;
    assert(is_pow2(g as int)) by {
        reveal_with_fuel(is_pow2, 30);
    }
    lemma_pow2_part_times(roi, g as int);
    lemma_pow2_part_double(roi);
    assert(roi * g == 2 * roi * GRAIN) by (nonlinear_arith)
        requires
            g == 2 * GRAIN,
    ;
    assert(roi * g <= ROI_LIMIT * (g * pow2_part(roi))) by (nonlinear_arith)
        requires
            1 <= roi <= ROI_LIMIT,
            g > 0,
            pow2_part(roi) >= 1,
    ;
}

/// A side that splits and reaches a lattice unit is even.
pub proof fn lemma_side_even(side: int)
    requires
        splits(side),
        side >= GRAIN,
    ensures
        side % 2 == 0,
{
}

/// Half of an even side that splits splits too.
pub proof fn lemma_side_halves(side: int)
    requires
        splits(side),
        side >= 2,
        side % 2 == 0,
    ensures
        splits(side / 2),
{
}

/// Whether `x * x <= y * GRAIN * GRAIN`, reckoned in parts that fit the
/// machine's numbers.
pub fn square_at_most(x: u128, y: u128) -> (r: bool)
    requires
        x < 0x400_0000_0000_0000_0000_0000,
        y < 0x4000_0000_0000_0000_0000_0000_0000_0000,
    ensures
        r == (x * x <= y * (GRAIN * GRAIN)),
{
    let x1: u128 = x / 134_217_728;
    let x0: u128 = x % 134_217_728;
    assert(x1 < 0x8000_0000_0000_0000);
    assert(x1 * x1 < 0x4000_0000_0000_0000_0000_0000_0000_0000) by (nonlinear_arith)
        requires
            0 <= x1 < 0x8000_0000_0000_0000,
    ;
    let hi: u128 = x1 * x1;
    assert(x * x == hi * (GRAIN * GRAIN) + x0 * (2 * x1 * 134_217_728 + x0)) by (nonlinear_arith)
        requires
            x == x1 * 134_217_728 + x0,
            hi == x1 * x1,
            GRAIN == 134_217_728,
    ;
    let step: u128 = 2 * x1 * 134_217_728 + x0;
    assert(0 <= x0 * step < 0x80_0000_0000_0000_0000_0000_0000_0000) by (nonlinear_arith)
        requires
            0 <= x0 < 134_217_728,
            0 <= step < 0x1000_0000_0000_0000_0000_0000,
    ;
    let low: u128 = x0 * step;
    if y < hi {
        assert(y * (GRAIN * GRAIN) < hi * (GRAIN * GRAIN)) by (nonlinear_arith)
            requires
                y < hi,
                GRAIN == 134_217_728,
        ;
        return false;
    }
    let rest: u128 = y - hi;
    assert(y * (GRAIN * GRAIN) == hi * (GRAIN * GRAIN) + rest * 0x40_0000_0000_0000)
        by (nonlinear_arith)
        requires
            y == hi + rest,
            GRAIN == 134_217_728,
    ;
    if rest >= 0x2_0000_0000_0000_0000 {
        true
    } else {
        low <= rest * 0x40_0000_0000_0000
    }
}

/// Two distinct lattice points in one closed cell need a side of at least
/// one lattice unit.
pub proof fn lemma_distinct_need_room(cell: Node, p: Vec2, q: Vec2)
    requires
        cell.side >= 1,
        cell.encloses(p),
        cell.encloses(q),
        p != q,
    ensures
        cell.side >= GRAIN,
{
    if cell.side < GRAIN {
        assert(p.x == q.x);
        assert(p.y == q.y);
    }
}

/// A point of a splittable cell lies in the quarter it is routed to.
pub proof fn lemma_child_encloses(cell: Node, p: Vec2)
    requires
        cell.side >= 2,
        cell.side % 2 == 0,
        cell.encloses(p),
        -SPAN_LIMIT <= cell.lower.x,
        -SPAN_LIMIT <= cell.lower.y,
        cell.lower.x + cell.side <= SPAN_LIMIT,
        cell.lower.y + cell.side <= SPAN_LIMIT,
    ensures
        forall|child: Node|
            child.lower == cell.child_lower(cell.quadrant_of(p)) && child.side == cell.side / 2
                ==> #[trigger] child.encloses(p),
{
}

/// In a well-formed internal node, a stored body at `p` sits below the child
/// that `p` is routed to.
pub proof fn lemma_occupied_routes(cell: Node, p: Vec2)
    requires
        cell.wf(),
        cell.nested is Multiple,
    ensures
        forall|b: Body|
            b.pos == p ==> (#[trigger] cell.stores(b) <==> (match cell.nested->Multiple_0.get(
                cell.quadrant_of(p),
            ) {
                Some(n) => n.stores(b),
                None => false,
            })),
        cell.occupied(p) <==> (match cell.nested->Multiple_0.get(cell.quadrant_of(p)) {
            Some(n) => n.occupied(p),
            None => false,
        }),
{
    let qs = cell.nested->Multiple_0;
    let q = cell.quadrant_of(p);
    assert forall|b: Body| b.pos == p implies (#[trigger] cell.stores(b) <==> (match qs.get(q) {
        Some(n) => n.stores(b),
        None => false,
    })) by {
        lemma_stored_routes(cell, b);
    }
    if cell.occupied(p) {
        let m = choose|m: u64| #[trigger] cell.stores(Body { pos: p, mass: m });
        assert(cell.stores(Body { pos: p, mass: m }));
    }
    match qs.get(q) {
        Some(n) => {
            if n.occupied(p) {
                let m = choose|m: u64| #[trigger] n.stores(Body { pos: p, mass: m });
                assert(cell.stores(Body { pos: p, mass: m }));
            }
        },
        None => {},
    }
}

/// In a well-formed internal node, a body is stored exactly if the child
/// that its position is routed to stores it.
pub proof fn lemma_stored_routes(cell: Node, b: Body)
    requires
        cell.wf(),
        cell.nested is Multiple,
    ensures
        cell.stores(b) <==> (match cell.nested->Multiple_0.get(cell.quadrant_of(b.pos)) {
            Some(n) => n.stores(b),
            None => false,
        }),
{
    let qs = cell.nested->Multiple_0;
    assert(cell.nested == Nested::Multiple(qs));
    assert(cell.stores(b) <==> ((match qs.nw { Some(n) => n.stores(b), None => false })
                || (match qs.ne { Some(n) => n.stores(b), None => false })
                || (match qs.sw { Some(n) => n.stores(b), None => false })
                || (match qs.se { Some(n) => n.stores(b), None => false })));
    match qs.nw {
        Some(n) => {
            assert(cell.fits(*n, Quadrant::NorthWest));
            assert(n.stores(b) ==> cell.quadrant_of(b.pos) == Quadrant::NorthWest);
        },
        None => {},
    }
    match qs.ne {
        Some(n) => {
            assert(cell.fits(*n, Quadrant::NorthEast));
        },
        None => {},
    }
    match qs.sw {
        Some(n) => {
            assert(cell.fits(*n, Quadrant::SouthWest));
        },
        None => {},
    }
    match qs.se {
        Some(n) => {
            assert(cell.fits(*n, Quadrant::SouthEast));
        },
        None => {},
    }
}

/// Replacing the child in quadrant `q` of an internal node by one that stores
/// one body more makes the node store that body more.
pub proof fn lemma_grown_stores(pre: Node, post: Node, q: Quadrant, before: Node, after: Node, body: Body)
    requires
        pre.nested is Multiple,
        post.nested is Multiple,
        match pre.nested->Multiple_0.get(q) {
            Some(n) => *n == before,
            None => before.nested is Empty,
        },
        post.nested->Multiple_0 == pre.nested->Multiple_0.with(q, Some(Box::new(after))),
        forall|b: Body| #[trigger] after.stores(b) <==> before.stores(b) || b == body,
    ensures
        forall|b: Body| #[trigger] post.stores(b) <==> pre.stores(b) || b == body,
{
    let qs1 = post.nested->Multiple_0;
    assert forall|b: Body| #[trigger] post.stores(b) <==> pre.stores(b) || b == body by {
        assert(after.stores(b) <==> before.stores(b) || b == body);
        match q {
            Quadrant::NorthWest => {
                assert(qs1.nw == Some(Box::new(after)));
            },
            Quadrant::NorthEast => {
                assert(qs1.ne == Some(Box::new(after)));
            },
            Quadrant::SouthWest => {
                assert(qs1.sw == Some(Box::new(after)));
            },
            Quadrant::SouthEast => {
                assert(qs1.se == Some(Box::new(after)));
            },
        }
    }
}

/// Replacing the child in quadrant `q` of an internal node by one that holds
/// one body more adds that body to the node's count, mass and moments.
pub proof fn lemma_grown_sums(pre: Node, post: Node, q: Quadrant, before: Node, after: Node, body: Body)
    requires
        pre.nested is Multiple,
        post.nested is Multiple,
        match pre.nested->Multiple_0.get(q) {
            Some(n) => *n == before,
            None => before.nested is Empty,
        },
        post.nested->Multiple_0 == pre.nested->Multiple_0.with(q, Some(Box::new(after))),
        after.count() == before.count() + 1,
        after.body_mass() == before.body_mass() + body.mass,
        after.body_moment_x() == before.body_moment_x() + body.moment_x(),
        after.body_moment_y() == before.body_moment_y() + body.moment_y(),
    ensures
        post.count() == pre.count() + 1,
        post.body_mass() == pre.body_mass() + body.mass,
        post.body_moment_x() == pre.body_moment_x() + body.moment_x(),
        post.body_moment_y() == pre.body_moment_y() + body.moment_y(),
{
    let qs1 = post.nested->Multiple_0;
    match q {
        Quadrant::NorthWest => {
            assert(qs1.nw == Some(Box::new(after)));
        },
        Quadrant::NorthEast => {
            assert(qs1.ne == Some(Box::new(after)));
        },
        Quadrant::SouthWest => {
            assert(qs1.sw == Some(Box::new(after)));
        },
        Quadrant::SouthEast => {
            assert(qs1.se == Some(Box::new(after)));
        },
    }
}

/// Replacing the child in quadrant `q` of a well-formed internal node by a
/// well-formed occupant of that quadrant keeps the node well formed.
pub proof fn lemma_grown_wf(pre: Node, post: Node, q: Quadrant, after: Node)
    requires
        pre.wf(),
        pre.nested is Multiple,
        post.nested is Multiple,
        post.lower == pre.lower,
        post.side == pre.side,
        post.nested->Multiple_0 == pre.nested->Multiple_0.with(q, Some(Box::new(after))),
        after.wf(),
        post.fits(after, q),
    ensures
        post.wf(),
{
    let qs0 = pre.nested->Multiple_0;
    let qs1 = post.nested->Multiple_0;
    match qs0.nw {
        Some(n) => {
            assert(pre.fits(*n, Quadrant::NorthWest));
        },
        None => {},
    }
    match qs0.ne {
        Some(n) => {
            assert(pre.fits(*n, Quadrant::NorthEast));
        },
        None => {},
    }
    match qs0.sw {
        Some(n) => {
            assert(pre.fits(*n, Quadrant::SouthWest));
        },
        None => {},
    }
    match qs0.se {
        Some(n) => {
            assert(pre.fits(*n, Quadrant::SouthEast));
        },
        None => {},
    }
    match q {
        Quadrant::NorthWest => {
            assert(qs1.nw == Some(Box::new(after)));
        },
        Quadrant::NorthEast => {
            assert(qs1.ne == Some(Box::new(after)));
        },
        Quadrant::SouthWest => {
            assert(qs1.sw == Some(Box::new(after)));
        },
        Quadrant::SouthEast => {
            assert(qs1.se == Some(Box::new(after)));
        },
    }
}

/// The quotient of `a` by a positive `b`, rounded down.
pub fn floor_div(a: i64, b: i64) -> (q: i64)
    requires
        b > 0,
        -0x4000_0000_0000_0000 <= a <= 0x4000_0000_0000_0000,
        b <= 0x4000_0000_0000_0000,
    ensures
        q == a / b,
{
    if a >= 0 {
        a / b
    } else {
        let n: i64 = -a;
        let up: i64 = (n + (b - 1)) / b;
        proof {
            lemma_floor_div_neg(a as int, b as int);
        }
        -up
    }
}

/// Rounding a negative quotient down is rounding its opposite up.
pub proof fn lemma_floor_div_neg(a: int, b: int)
    requires
        a < 0,
        b > 0,
    ensures
        a / b == -((-a + (b - 1)) / b),
{
    let q = a / b;
    let r = a % b;
    assert(a == b * q + r && 0 <= r < b) by {
        vstd::arithmetic::div_mod::lemma_fundamental_div_mod(a, b);
        vstd::arithmetic::div_mod::lemma_mod_bound(a, b);
    }
    let n = -a + (b - 1);
    assert(n == b * (-q) + (b - 1 - r)) by (nonlinear_arith)
        requires
            a == b * q + r,
            n == -a + (b - 1),
    ;
    assert(0 <= b - 1 - r < b);
    vstd::arithmetic::div_mod::lemma_fundamental_div_mod_converse(n, b, -q, b - 1 - r);
}

/// The moments of a well-formed subtree are bounded by its mass times the
/// largest coordinate.
pub proof fn lemma_moment_bound(node: Node)
    requires
        node.wf(),
    ensures
        -(node.body_mass() * COORD_LIMIT) <= node.body_moment_x() <= node.body_mass() * COORD_LIMIT,
        -(node.body_mass() * COORD_LIMIT) <= node.body_moment_y() <= node.body_mass() * COORD_LIMIT,
    decreases node,
{
    match node.nested {
        Nested::Empty => {},
        Nested::Single(b) => {
            assert(-(b.mass * COORD_LIMIT) <= b.mass * b.pos.x <= b.mass * COORD_LIMIT) by (nonlinear_arith)
                requires
                    0 < b.mass,
                    -COORD_LIMIT <= b.pos.x <= COORD_LIMIT,
            ;
            assert(-(b.mass * COORD_LIMIT) <= b.mass * b.pos.y <= b.mass * COORD_LIMIT) by (nonlinear_arith)
                requires
                    0 < b.mass,
                    -COORD_LIMIT <= b.pos.y <= COORD_LIMIT,
            ;
        },
        Nested::Multiple(qs) => {
            let k = COORD_LIMIT as int;
            let m1 = match qs.nw { Some(n) => n.body_mass(), None => 0 };
            let m2 = match qs.ne { Some(n) => n.body_mass(), None => 0 };
            let m3 = match qs.sw { Some(n) => n.body_mass(), None => 0 };
            let m4 = match qs.se { Some(n) => n.body_mass(), None => 0 };
            match qs.nw {
                Some(n) => lemma_moment_bound(*n),
                None => {},
            }
            match qs.ne {
                Some(n) => lemma_moment_bound(*n),
                None => {},
            }
            match qs.sw {
                Some(n) => lemma_moment_bound(*n),
                None => {},
            }
            match qs.se {
                Some(n) => lemma_moment_bound(*n),
                None => {},
            }
            assert((m1 + m2 + m3 + m4) * k == m1 * k + m2 * k + m3 * k + m4 * k)
                by (nonlinear_arith);
        },
    }
}

/// The children of a well-formed internal node are well formed, no heavier
/// than the node, and half its side.
pub proof fn lemma_children_bounds(node: Node)
    requires
        node.wf(),
        node.nested is Multiple,
    ensures
        forall|q: Quadrant|
            (match #[trigger] node.nested->Multiple_0.get(q) {
                Some(n) => n.wf() && n.body_mass() <= node.body_mass() && n.side == node.side / 2,
                None => true,
            }),
{
    assert forall|q: Quadrant|
        (match #[trigger] node.nested->Multiple_0.get(q) {
            Some(n) => n.wf() && n.body_mass() <= node.body_mass() && n.side == node.side / 2,
            None => true,
        }) by {
        match q {
            Quadrant::NorthWest => {},
            Quadrant::NorthEast => {},
            Quadrant::SouthWest => {},
            Quadrant::SouthEast => {},
        }
    }
}

/// A mass within `MASS_LIMIT` keeps its largest moment within `MOMENT_LIMIT`.
pub proof fn lemma_moment_limit(m: int)
    requires
        0 <= m <= MASS_LIMIT,
    ensures
        m * COORD_LIMIT <= MOMENT_LIMIT,
{
    assert(m * COORD_LIMIT <= MASS_LIMIT * COORD_LIMIT) by (nonlinear_arith)
        requires
            0 <= m <= MASS_LIMIT,
    ;
}

/// An internal node whose children were replaced by well-formed ones that
/// hold the same bodies holds the same bodies and is well formed.
pub proof fn lemma_children_same(pre: Node, post: Node)
    requires
        pre.wf(),
        pre.nested is Multiple,
        post.nested is Multiple,
        post.lower == pre.lower,
        post.side == pre.side,
        Node::child_kept(pre.nested->Multiple_0.nw, post.nested->Multiple_0.nw),
        Node::child_kept(pre.nested->Multiple_0.ne, post.nested->Multiple_0.ne),
        Node::child_kept(pre.nested->Multiple_0.sw, post.nested->Multiple_0.sw),
        Node::child_kept(pre.nested->Multiple_0.se, post.nested->Multiple_0.se),
    ensures
        post.wf(),
        Node::same_bodies(pre, post),
        Node::same_cells(pre, post),
{
    let qs0 = pre.nested->Multiple_0;
    let qs1 = post.nested->Multiple_0;
    lemma_child_same(pre, post, qs0.nw, qs1.nw, Quadrant::NorthWest);
    lemma_child_same(pre, post, qs0.ne, qs1.ne, Quadrant::NorthEast);
    lemma_child_same(pre, post, qs0.sw, qs1.sw, Quadrant::SouthWest);
    lemma_child_same(pre, post, qs0.se, qs1.se, Quadrant::SouthEast);
    assert forall|x: Body| pre.stores(x) == post.stores(x) by {
        match (qs0.nw, qs1.nw) {
            (Some(a), Some(b)) => {
                assert(a.stores(x) == b.stores(x));
            },
            _ => {},
        }
        match (qs0.ne, qs1.ne) {
            (Some(a), Some(b)) => {
                assert(a.stores(x) == b.stores(x));
            },
            _ => {},
        }
        match (qs0.sw, qs1.sw) {
            (Some(a), Some(b)) => {
                assert(a.stores(x) == b.stores(x));
            },
            _ => {},
        }
        match (qs0.se, qs1.se) {
            (Some(a), Some(b)) => {
                assert(a.stores(x) == b.stores(x));
            },
            _ => {},
        }
    }
}

/// A child that keeps its bodies still fits the quadrant it fitted before.
pub proof fn lemma_child_same(
    pre: Node,
    post: Node,
    before: Option<Box<Node>>,
    after: Option<Box<Node>>,
    q: Quadrant,
)
    requires
        post.lower == pre.lower,
        post.side == pre.side,
        Node::child_kept(before, after),
        match before {
            Some(n) => pre.fits(*n, q),
            None => true,
        },
    ensures
        match after {
            Some(n) => post.fits(*n, q),
            None => true,
        },
{
    match (before, after) {
        (Some(a), Some(b)) => {
            assert forall|x: Body| #[trigger] b.stores(x) implies post.quadrant_of(x.pos) == q by {
                assert(a.stores(x));
            }
        },
        _ => {},
    }
}

/// The children of a node that is fit for a force query are fit for it too.
pub proof fn lemma_children_ready(node: Node)
    requires
        node.wf(),
        node.aggregated(),
        node.body_mass() <= MASS_LIMIT,
        node.nested is Multiple,
    ensures
        Node::child_ready(node.nested->Multiple_0.nw),
        Node::child_ready(node.nested->Multiple_0.ne),
        Node::child_ready(node.nested->Multiple_0.sw),
        Node::child_ready(node.nested->Multiple_0.se),
{
}

/// What an internal node gives when it is not far enough is what its
/// children give, north-west first.
pub proof fn lemma_sources_internal(node: Node, p: Vec2)
    requires
        node.nested is Multiple,
        !node.far_enough(p),
    ensures
        node.sources(p) == Node::child_sources(node.nested->Multiple_0.nw, p) + Node::child_sources(
            node.nested->Multiple_0.ne,
            p,
        ) + Node::child_sources(node.nested->Multiple_0.sw, p) + Node::child_sources(
            node.nested->Multiple_0.se,
            p,
        ),
{
}

/// Appending four sequences one after the other appends their concatenation.
pub proof fn lemma_concat4<T>(s: Seq<T>, a: Seq<T>, b: Seq<T>, c: Seq<T>, d: Seq<T>)
    ensures
        s + a + b + c + d == s + (a + b + c + d),
{
    assert(s + a + b + c + d =~= s + (a + b + c + d));
}

/// Tree containment: a body stored in a well-formed tree sits in the leaf
/// that quadrant selection reaches from the root for its position, and that
/// leaf's closed bounds enclose the position, as do the root's.
pub proof fn stored_body_is_enclosed(root: Node, b: Body)
    requires
        root.wf(),
        root.stores(b),
    ensures
        root.leaf_for(b.pos).nested == Nested::Single(b),
        root.leaf_for(b.pos).encloses(b.pos),
        root.leaf_for(b.pos).wf(),
        root.encloses(b.pos),
    decreases root,
{
    match root.nested {
        Nested::Multiple(qs) => {
            lemma_stored_routes(root, b);
            let q = root.quadrant_of(b.pos);
            match q {
                Quadrant::NorthWest => {
                    stored_body_is_enclosed(*qs.nw->0, b);
                    lemma_child_within(root, *qs.nw->0, q, b.pos);
                },
                Quadrant::NorthEast => {
                    stored_body_is_enclosed(*qs.ne->0, b);
                    lemma_child_within(root, *qs.ne->0, q, b.pos);
                },
                Quadrant::SouthWest => {
                    stored_body_is_enclosed(*qs.sw->0, b);
                    lemma_child_within(root, *qs.sw->0, q, b.pos);
                },
                Quadrant::SouthEast => {
                    stored_body_is_enclosed(*qs.se->0, b);
                    lemma_child_within(root, *qs.se->0, q, b.pos);
                },
            }
        },
        _ => {},
    }
}

/// A child cell lies within its parent: what it encloses, the parent
/// encloses.
pub proof fn lemma_child_within(cell: Node, child: Node, q: Quadrant, p: Vec2)
    requires
        cell.side >= 2,
        cell.side % 2 == 0,
        child.lower == cell.child_lower(q),
        child.side == cell.side / 2,
        child.encloses(p),
        -SPAN_LIMIT <= cell.lower.x,
        -SPAN_LIMIT <= cell.lower.y,
        cell.lower.x + cell.side <= SPAN_LIMIT,
        cell.lower.y + cell.side <= SPAN_LIMIT,
    ensures
        cell.encloses(p),
{
}

/// Replacing the child in quadrant `q` by a compact one keeps the subtrees
/// below the node compact.
pub proof fn lemma_grown_compact(pre: Node, post: Node, q: Quadrant, before: Node, after: Node)
    requires
        pre.nested is Multiple,
        post.nested is Multiple,
        match pre.nested->Multiple_0.get(q) {
            Some(n) => *n == before,
            None => before.nested is Empty,
        },
        post.nested->Multiple_0 == pre.nested->Multiple_0.with(q, Some(Box::new(after))),
        before.compact() ==> after.compact(),
    ensures
        pre.kids_compact() ==> post.kids_compact(),
{
    let qs1 = post.nested->Multiple_0;
    match q {
        Quadrant::NorthWest => {
            assert(qs1.nw == Some(Box::new(after)));
        },
        Quadrant::NorthEast => {
            assert(qs1.ne == Some(Box::new(after)));
        },
        Quadrant::SouthWest => {
            assert(qs1.sw == Some(Box::new(after)));
        },
        Quadrant::SouthEast => {
            assert(qs1.se == Some(Box::new(after)));
        },
    }
}

} // verus!
